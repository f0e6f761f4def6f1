use dirty_daw::graph::{Input, Kind};
use dirty_daw::song::{by_pitch, len_for, near_pick, near_pitches, note_name, parse_root, pick_len, pick_near, Note, Pattern, Song};
use dirty_daw::value::{Bits32, Bits64};

fn song_with_track() -> Song {
    let mut s = Song::empty();
    s.add_track("t");
    s
}

fn pat(start: usize, len: usize, reps: usize) -> Pattern {
    Pattern { start, len, reps, notes: vec![] }
}

#[test]
fn note_names() {
    assert_eq!(note_name(60), "C4");
    assert_eq!(note_name(61), "C#4");
    assert_eq!(note_name(69), "A4");
    assert_eq!(note_name(10), "A#-1");
    assert_eq!(note_name(-1), "B-2");
    assert_eq!(note_name(127), "G9");
}

#[test]
fn roots_parse() {
    assert_eq!(parse_root("C"), Some(0));
    assert_eq!(parse_root("f#"), Some(6));
    assert_eq!(parse_root("Bb"), Some(10));
    assert_eq!(parse_root("Cb"), Some(11));
    assert_eq!(parse_root("B#"), Some(0));
    assert_eq!(parse_root("Am"), Some(9));
    assert_eq!(parse_root("G4"), Some(7));
    assert_eq!(parse_root("H"), None);
    assert_eq!(parse_root(""), None);
    for p in 0..128 {
        assert_eq!(parse_root(&note_name(p)), Some(p % 12));
    }
}

#[test]
fn empty_song_defaults() {
    let s = Song::empty();
    assert_eq!(f64::from_bits(s.bpm.0), 120.0);
    assert_eq!(f64::from_bits(s.swing.0), 0.5);
    assert_eq!((s.bars, s.beats, s.grid, s.root, s.minor), (4, 4, 4, 0, false));
    assert_eq!(s.prog, vec![1, 5, 6, 4]);
    assert_eq!(s.graph.nodes.len(), 1);
    assert_eq!(s.graph.nodes[0].kind, Kind::Out);
    assert_eq!(s.bar_steps(), 16);
    assert_eq!(s.steps(), 64);
    assert_eq!(s.key_name(), "C major");
    assert!(s.tracks.is_empty());
}

#[test]
fn keys_and_scales() {
    let mut s = Song::empty();
    s.root = 9;
    s.minor = true;
    assert_eq!(s.key_name(), "A minor");
    assert_eq!(s.scale(), [0, 2, 3, 5, 7, 8, 10]);
    assert!(s.in_scale(60) && s.in_scale(69) && !s.in_scale(61));
    assert_eq!(s.degree_pitch(0, 4), 69);
    assert_eq!(s.degree_pitch(2, 4), 72);
    assert_eq!(s.degree_pitch(7, 4), 81);
    assert_eq!(s.degree_pitch(-1, 4), 67);
    assert_eq!(s.chord(0, 4, 3), vec![69, 72, 76]);
    assert_eq!(s.chord(4, 3, 4), vec![64, 67, 71, 74]);
    s.root = 0;
    s.minor = false;
    assert_eq!(s.scale_step(60, 1), 62);
    assert_eq!(s.scale_step(64, 1), 65);
    assert_eq!(s.scale_step(60, -1), 59);
    assert_eq!(s.scale_step(127, 1), 127);
    assert_eq!(s.scale_step(0, -1), 0);
    for d in -10..20 {
        assert!(s.in_scale(s.degree_pitch(d, 3)));
    }
}

#[test]
fn progression_per_bar() {
    let mut s = Song::empty();
    assert_eq!((0..5).map(|b| s.bar_chord(b)).collect::<Vec<_>>(), vec![0, 4, 5, 3, 0]);
    s.prog.clear();
    assert_eq!(s.bar_chord(3), 0);
}

#[test]
fn tracks_come_and_go() {
    let mut s = Song::empty();
    assert_eq!(s.add_track("a"), 0);
    assert_eq!(s.add_track("b"), 1);
    assert_eq!(s.track_ids(), vec![1, 2]);
    assert_eq!(s.graph.nodes.len(), 9);
    for var in 0..4 {
        assert!(s.graph.find_trk(2, var).is_some());
    }
    s.remove_track(1);
    assert_eq!(s.track_ids(), vec![1]);
    assert_eq!(s.graph.nodes.len(), 5);
    assert!(s.graph.find_trk(2, 0).is_none());
    assert_eq!(s.tracks[0].name, "a");
}

#[test]
fn voice_is_playable() {
    let mut s = song_with_track();
    let gain = s.add_voice(0);
    let g = &s.graph;
    let out = g.get(g.out_id().unwrap()).unwrap();
    assert_eq!(out.inputs[0], Input::Link(gain));
    assert_eq!(g.get(gain).unwrap().inputs[1], Input::Const(Bits32(0.3f32.to_bits())));
    let freq = g.find_trk(1, 0).unwrap();
    let gate = g.find_trk(1, 1).unwrap();
    let vel = g.find_trk(1, 2).unwrap();
    assert_eq!(g.nodes.len(), 5 + 6);
    // TRK freq -> OSC saw -> FILT lp -> * ENV(gate) -> * vel -> * 0.3 -> OUT
    let (env, osc, flt, amp, v, last) = (&g.nodes[5], &g.nodes[6], &g.nodes[7], &g.nodes[8], &g.nodes[9], &g.nodes[10]);
    assert_eq!((env.kind, env.inputs[0]), (Kind::Env, Input::Link(gate)));
    assert_eq!((osc.kind, osc.var, osc.inputs[0]), (Kind::Osc, 1, Input::Link(freq)));
    assert_eq!(osc.inputs[2], Input::Const(Bits32(1.0f32.to_bits())));
    assert_eq!((flt.kind, flt.var, flt.inputs[0]), (Kind::Filt, 0, Input::Link(osc.id)));
    assert_eq!((amp.kind, amp.var, amp.inputs[0], amp.inputs[1]), (Kind::Math, 2, Input::Link(flt.id), Input::Link(env.id)));
    assert_eq!((v.inputs[0], v.inputs[1]), (Input::Link(amp.id), Input::Link(vel)));
    assert_eq!((last.id, last.inputs[0]), (gain, Input::Link(v.id)));
}

#[test]
fn patterns_place_and_find() {
    let mut s = song_with_track();
    assert_eq!(s.new_pattern(0, 4, 8), Some(0));
    assert_eq!(s.new_pattern(0, 6, 10), None);
    assert_eq!(s.new_pattern(0, 8, 8), None);
    assert_eq!(s.new_pattern(0, 8, 12), Some(1));
    assert!(s.free(0, 0, 4, None));
    assert!(!s.free(0, 0, 5, None));
    assert!(s.free(0, 0, 5, Some(0)));
    assert_eq!(s.pat_at(0, 5), Some((0, 0)));
    assert_eq!(s.pat_at(0, 9), Some((1, 0)));
    assert_eq!(s.pat_at(0, 12), None);
    s.delete_pattern(0, 0);
    assert_eq!(s.tracks[0].patterns.len(), 1);
    assert_eq!(s.tracks[0].patterns[0].start, 8);
}

#[test]
fn pattern_ends_and_repeats() {
    let p = pat(4, 4, 3);
    assert_eq!(p.end(), 16);
    assert_eq!(p.rep_at(3), None);
    assert_eq!(p.rep_at(4), Some(0));
    assert_eq!(p.rep_at(9), Some(1));
    assert_eq!(p.rep_at(15), Some(2));
    assert_eq!(p.rep_at(16), None);
    assert_eq!(pat(4, 4, 0).end(), 8);
    assert_eq!(pat(4, 0, 2).rep_at(4), None);
}

#[test]
fn detach_splits_a_repeat() {
    let mut s = song_with_track();
    let mut p = pat(0, 4, 4);
    p.notes.push(Note { start: Bits64(0), len: Bits64(0.5f64.to_bits()), pitch: 60, vel: Bits32(0.9f32.to_bits()) });
    s.tracks[0].patterns.push(p);
    assert!(!s.detach_at(0, 2));
    assert!(!s.detach_at(0, 20));
    assert!(s.detach_at(0, 9));
    let ps = &s.tracks[0].patterns;
    assert_eq!(ps.len(), 3);
    assert_eq!((ps[0].start, ps[0].len, ps[0].reps), (0, 4, 2));
    assert_eq!((ps[1].start, ps[1].len, ps[1].reps), (8, 4, 1));
    assert_eq!((ps[2].start, ps[2].len, ps[2].reps), (12, 4, 1));
    assert_eq!(ps[1].notes, ps[0].notes);
    assert_eq!(ps[2].notes.len(), 1);
    // detaching the last repeat leaves no tail
    assert!(s.detach_at(0, 4));
    assert_eq!(s.tracks[0].patterns.len(), 4);
    assert_eq!(s.tracks[0].patterns[0].reps, 1);
}

#[test]
fn repeat_fill_and_end() {
    let mut s = song_with_track();
    s.tracks[0].patterns.push(pat(0, 4, 1));
    s.tracks[0].patterns.push(pat(22, 4, 1));
    s.fill_repeat(0, 0);
    assert_eq!(s.tracks[0].patterns[0].reps, 5);
    s.fill_repeat(0, 1);
    assert_eq!(s.tracks[0].patterns[1].reps, 10);
    s.end_at(0, 0, 9);
    assert_eq!(s.tracks[0].patterns[0].reps, 3);
    s.end_at(0, 0, 0);
    assert_eq!(s.tracks[0].patterns[0].reps, 1);
}

#[test]
fn move_and_resize_respect_neighbours() {
    let mut s = song_with_track();
    s.tracks[0].patterns.push(pat(0, 4, 2));
    s.tracks[0].patterns.push(pat(10, 4, 1));
    assert!(!s.move_pattern(0, 0, -1));
    assert!(s.move_pattern(0, 0, 2));
    assert_eq!(s.tracks[0].patterns[0].start, 2);
    assert!(!s.move_pattern(0, 0, 1));
    assert!(!s.move_pattern(0, 1, 51));
    assert!(s.move_pattern(0, 1, 50));
    assert_eq!(s.tracks[0].patterns[1].start, 60);
    assert!(s.resize_pattern(0, 0, 1));
    assert_eq!(s.tracks[0].patterns[0].len, 5);
    assert!(s.resize_pattern(0, 0, -10));
    assert_eq!(s.tracks[0].patterns[0].len, 1);
    assert!(!s.resize_pattern(0, 1, 1));
}

#[test]
fn regrid_keeps_time() {
    let mut s = song_with_track();
    s.tracks[0].patterns.push(pat(4, 2, 1));
    s.tracks[0].patterns.push(pat(9, 1, 1));
    s.set_grid(2);
    assert_eq!(s.grid, 2);
    assert_eq!((s.tracks[0].patterns[0].start, s.tracks[0].patterns[0].len), (2, 1));
    assert_eq!((s.tracks[0].patterns[1].start, s.tracks[0].patterns[1].len), (4, 1));
    s.set_grid(6);
    assert_eq!((s.tracks[0].patterns[0].start, s.tracks[0].patterns[0].len), (6, 3));
}

#[test]
fn demo_song_shape() {
    let s = Song::demo();
    let names: Vec<&str> = s.tracks.iter().map(|t| t.name.as_str()).collect();
    assert_eq!(names, vec!["lead", "bass", "drums", "pad"]);
    assert_eq!(s.track_ids(), vec![1, 2, 3, 4]);
    assert_eq!(s.graph.nodes.len(), 80);
    assert_eq!(s.tracks[0].patterns[0].notes.len(), 32);
    assert_eq!(s.tracks[0].patterns[0].notes[1].pitch, 76);
    assert_eq!(f64::from_bits(s.tracks[0].patterns[0].notes[9].start.0), 4.5);
    assert_eq!(f32::from_bits(s.tracks[0].patterns[0].notes[4].vel.0), 1.0);
    assert_eq!(f32::from_bits(s.tracks[0].patterns[0].notes[5].vel.0), 0.75);
    assert_eq!(f64::from_bits(s.tracks[1].patterns[0].notes[3].start.0), 2.0);
    assert_eq!(s.tracks[1].patterns[0].notes[2].pitch, 48);
    assert_eq!(s.tracks[3].patterns.len(), 4);
    assert_eq!(f64::from_bits(s.tracks[3].patterns[2].notes[0].len.0), 3.8);
    let kinds: Vec<Kind> = s.graph.nodes.iter().map(|n| n.kind).collect();
    for k in dirty_daw::graph::ALL {
        assert!(kinds.contains(&k), "{} missing", k.name());
    }
    assert_eq!(kinds[0], Kind::Out);
    assert!(kinds[1..17].iter().all(|k| *k == Kind::Trk));
    assert_eq!((kinds[17], kinds[25], kinds[37], kinds[51], kinds[60], kinds[70]), (Kind::Osc, Kind::Delay, Kind::Shape, Kind::Noise, Kind::Sh, Kind::Buf));
    assert!(kinds[76..80].iter().all(|k| *k == Kind::Math));
    let out = s.graph.get(s.graph.out_id().unwrap()).unwrap();
    assert!(matches!(out.inputs[0], Input::Link(_)));
}

#[test]
fn random_picks_stay_in_their_pools() {
    let pool = vec![48, 60, 64, 67, 84];
    for _ in 0..200 {
        let p = pick_near(&pool, 62);
        assert!(p == 60 || p == 64 || p == 67);
        let q = pick_near(&pool, 30);
        assert!(pool.contains(&q));
        let l = pick_len(16);
        assert!(l == 1 || l == 2 || l == 4);
        assert_eq!(pick_len(0), 0);
        assert!(pick_len(3) <= 3);
    }
}

#[test]
fn draws_pick_exact_pitches_and_lengths() {
    let pool = vec![48, 60, 62, 64, 67, 84];
    assert_eq!(near_pitches(&pool, 62), vec![60, 64, 67]);
    assert_eq!(near_pitches(&pool, 30), Vec::<i32>::new());
    assert_eq!(near_pick(&pool, 62, 0), 60);
    assert_eq!(near_pick(&pool, 62, 2), 67);
    assert_eq!(near_pick(&pool, 30, 5), 84);
    assert_eq!(near_pick(&pool, 30, 0), 48);
    let lens: Vec<usize> = (0..6).map(|k| len_for(k, 16)).collect();
    assert_eq!(lens, vec![1, 1, 2, 2, 2, 4]);
    assert_eq!(len_for(5, 3), 3);
    assert_eq!(len_for(0, 0), 0);
}

#[test]
fn melody_pools() {
    let s = Song::empty();
    assert_eq!(s.tone_pool(0, 4), vec![48, 52, 55, 60, 64, 67, 72, 76, 79]);
    let sc = s.scale_pool(4);
    assert_eq!(sc.len(), 22);
    assert_eq!(sc[0], 48);
    assert_eq!(sc[7], 60);
    assert_eq!(sc[21], 84);
}

#[test]
fn arpeggio_order_is_by_pitch_and_stable() {
    let n = |pitch: i32| Note { start: Bits64(0), len: Bits64(0), pitch, vel: Bits32(0) };
    let notes = vec![n(67), n(60), n(64), n(60), n(72)];
    assert_eq!(by_pitch(&notes, &vec![0, 1, 2, 3, 4]), vec![1, 3, 2, 0, 4]);
    assert_eq!(by_pitch(&notes, &vec![3, 0, 1]), vec![3, 1, 0]);
    assert_eq!(by_pitch(&notes, &vec![]), Vec::<usize>::new());
}

#[test]
fn new_patterns_stop_at_the_next_one() {
    let mut s = song_with_track();
    s.tracks[0].patterns.push(pat(10, 2, 1));
    s.tracks[0].patterns.push(pat(6, 2, 1));
    assert_eq!(s.room_until(0, 0, 16), 6);
    assert_eq!(s.room_until(0, 6, 16), 10);
    assert_eq!(s.room_until(0, 12, 16), 16);
    assert_eq!(s.room_until(0, 0, 4), 4);
}

#[test]
fn transposing_stays_in_midi_range() {
    assert_eq!(dirty_daw::song::transposed(60, 7), 67);
    assert_eq!(dirty_daw::song::transposed(125, 5), 127);
    assert_eq!(dirty_daw::song::transposed(2, -5), 0);
    assert_eq!(dirty_daw::song::transposed(i32::MAX, 1), 127);
}

fn covered(s: &Song, t: usize, x: usize) -> bool {
    s.tracks[t].patterns.iter().any(|p| p.start <= x && x < p.end())
}

fn apart(s: &Song, t: usize) -> bool {
    let ps = &s.tracks[t].patterns;
    (0..ps.len()).all(|i| (0..ps.len()).all(|j| i == j || ps[i].end() <= ps[j].start || ps[j].end() <= ps[i].start))
}

#[test]
fn detaching_keeps_every_step_covered_once() {
    let mut s = song_with_track();
    s.tracks[0].patterns.push(pat(2, 3, 5));
    s.tracks[0].patterns.push(pat(20, 4, 1));
    let before: Vec<bool> = (0..40).map(|x| covered(&s, 0, x)).collect();
    assert!(s.detach_at(0, 9));
    assert!(apart(&s, 0));
    let after: Vec<bool> = (0..40).map(|x| covered(&s, 0, x)).collect();
    assert_eq!(before, after);
}

#[test]
fn pattern_edits_keep_patterns_apart() {
    let mut s = song_with_track();
    assert!(s.new_pattern(0, 0, 4).is_some());
    assert!(s.new_pattern(0, 10, 12).is_some());
    assert!(s.new_pattern(0, 30, 34).is_some());
    s.fill_repeat(0, 0);
    assert!(apart(&s, 0));
    assert_eq!(s.tracks[0].patterns[0].end(), 8);
    s.fill_repeat(0, 1);
    assert!(apart(&s, 0));
    assert_eq!(s.tracks[0].patterns[1].end(), 30);
    for d in [-3i64, 5, 20, 1] {
        s.move_pattern(0, 2, d);
        assert!(apart(&s, 0));
        s.resize_pattern(0, 0, d);
        assert!(apart(&s, 0));
    }
}

#[test]
fn paste_needs_free_room_inside_the_song() {
    let mut s = song_with_track();
    assert_eq!(s.steps(), 64);
    assert!(s.new_pattern(0, 8, 12).is_some());
    let note = Note { pitch: 60, start: Bits64(0.0f64.to_bits()), len: Bits64(1.0f64.to_bits()), vel: Bits32(0.8f32.to_bits()) };
    let clip = Pattern { start: 40, len: 4, reps: 3, notes: vec![note] };
    assert!(!s.paste_pattern(0, 6, &clip));
    assert!(!s.paste_pattern(0, 62, &clip));
    assert_eq!(s.tracks[0].patterns.len(), 1);
    assert!(s.paste_pattern(0, 12, &clip));
    let p = &s.tracks[0].patterns[1];
    assert_eq!((p.start, p.len, p.reps), (12, 4, 1));
    assert_eq!(p.notes.len(), 1);
    assert_eq!(p.notes[0].pitch, 60);
    assert!(apart(&s, 0));
    assert!(s.paste_pattern(0, 60, &clip));
    assert_eq!(s.tracks[0].patterns[2].start, 60);
}

fn sound_at(s: &Song, t: usize, x: usize) -> Option<(Vec<i32>, usize)> {
    s.pat_at(t, x).map(|(j, k)| {
        let p = &s.tracks[t].patterns[j];
        (p.notes.iter().map(|n| n.pitch).collect(), x - p.start - k * p.len)
    })
}

#[test]
fn detaching_keeps_what_is_heard() {
    let mut s = song_with_track();
    let n = Note { pitch: 64, start: Bits64(0.0f64.to_bits()), len: Bits64(0.5f64.to_bits()), vel: Bits32(1.0f32.to_bits()) };
    s.tracks[0].patterns.push(Pattern { start: 4, len: 6, reps: 5, notes: vec![n] });
    let before: Vec<_> = (0..64).map(|x| sound_at(&s, 0, x)).collect();
    assert!(s.detach_at(0, 17));
    let after: Vec<_> = (0..64).map(|x| sound_at(&s, 0, x)).collect();
    assert_eq!(before, after);
    assert_eq!(s.pat_at(0, 17), Some((1, 0)));
}
