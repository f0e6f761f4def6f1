//! The arrangement view's keyboard commands: cursor, track and selection moves, and the pattern
//! edits on the current track, as one step from (editor, song, key) to the next editor and song
//! and to what is left for the program to do (undo, seeking, and the note-time work of random
//! melodies and humanizing).
use vstd::prelude::*;
use crate::song::{
    Song, SongView, Pattern, PatternView, TrackView, arrange_ok, pat_at_from, free_of, with_patterns,
    song_steps, detached, fill_reps, reps_to, can_move, can_resize, resized_len, pat_end, plays,
};
use crate::editor::{clamp, step_cursor, selection, bar_span};

verus! {

/// What the program does after an editor step.
#[derive(Clone, Copy, Debug, PartialEq, Eq, Structural)]
pub enum EditAction {
    /// nothing changed
    Nothing,
    /// the song was edited (keep the song from before for undo, and resend it to the engine)
    Changed,
    /// the edit did not fit, and nothing changed
    Refused,
    /// the pattern under the cursor was copied to the clipboard
    Yanked,
    /// play from this step
    Seek(usize),
    /// go back to the song before the last edit
    Undo,
    /// open the command line
    Command,
    /// write a new random melody into pattern `i` of the current track
    Randomize(usize),
    /// humanize pattern `i` of the current track
    Humanize(usize),
    /// turn the selected node's current (constant) input up or down, finely or coarsely
    Adjust(bool, bool),
    /// set the selected node's current input to the number typed so far, and clear it
    CommitNumber,
    /// make this track the current one
    Track(usize),
}

/// The arrangement view's state: the current track and step, the selection's other end, and
/// the pattern clipboard.
pub struct ArrangeEditor {
    pub track: usize,
    pub cursor: usize,
    pub sel: Option<usize>,
    pub clip: Option<Pattern>,
}

pub struct ArrangeView {
    pub track: usize,
    pub cursor: usize,
    pub sel: Option<usize>,
    pub clip: Option<PatternView>,
}

impl View for ArrangeEditor {
    type V = ArrangeView;

    open spec fn view(&self) -> ArrangeView {
        ArrangeView {
            track: self.track,
            cursor: self.cursor,
            sel: self.sel,
            clip: match self.clip {
                Some(p) => Some(p@),
                None => None,
            },
        }
    }
}

/// The editor can take a key: the song suits it, and the track, cursor and selection are in it.
pub open spec fn arrange_ready(e: ArrangeView, s: SongView) -> bool {
    &&& arrange_ok(s)
    &&& e.track < s.tracks.len()
    &&& e.cursor < song_steps(s)
    &&& (e.sel matches Some(m) ==> m < song_steps(s))
}

/// The editor with the cursor moved by `d`, kept inside the song's `n` steps.
pub open spec fn moved(e: ArrangeView, d: int, n: int) -> ArrangeView {
    ArrangeView { cursor: clamp(e.cursor + d, 0, n - 1) as usize, ..e }
}

/// The steps a new pattern covers: the selection (both ends included), else the cursor's bar.
pub open spec fn scope(e: ArrangeView, s: SongView) -> (int, int) {
    match e.sel {
        Some(m) => if m <= e.cursor { (m as int, e.cursor + 1) } else { (e.cursor as int, m + 1) },
        None => {
            let bs = s.beats * s.grid;
            (e.cursor as int / bs * bs, e.cursor as int / bs * bs + bs)
        },
    }
}

/// `s` with the pattern `i` of track `t` replaced by `p`.
pub open spec fn with_pattern(s: SongView, t: int, i: int, p: PatternView) -> SongView {
    with_patterns(s, t, s.tracks[t].patterns.update(i, p))
}

/// One key in the arrangement view: the next editor, the next song, and the action.
pub open spec fn arrange_step(e: ArrangeView, s: SongView, c: char) -> (ArrangeView, SongView, EditAction) {
    let t = e.track as int;
    let cur = e.cursor as int;
    let ps = s.tracks[t].patterns;
    let n = song_steps(s);
    let bs = s.beats * s.grid;
    let here = pat_at_from(ps, cur, 0);
    if c == 'h' {
        (moved(e, -1, n), s, EditAction::Nothing)
    } else if c == 'l' {
        (moved(e, 1, n), s, EditAction::Nothing)
    } else if c == 'H' {
        (moved(e, -bs, n), s, EditAction::Nothing)
    } else if c == 'L' {
        (moved(e, bs, n), s, EditAction::Nothing)
    } else if c == 'j' || c == 'k' {
        let d: int = if c == 'j' { 1 } else { -1 };
        (ArrangeView { track: clamp(t + d, 0, s.tracks.len() - 1) as usize, ..e }, s, EditAction::Nothing)
    } else if c == 'g' {
        (ArrangeView { cursor: 0, ..e }, s, EditAction::Nothing)
    } else if c == 'G' {
        (ArrangeView { cursor: (n - 1) as usize, ..e }, s, EditAction::Nothing)
    } else if c == 'v' {
        (ArrangeView { sel: if e.sel is Some { None } else { Some(e.cursor) }, ..e }, s, EditAction::Nothing)
    } else if c == 'P' {
        let (a, b) = scope(e, s);
        if b <= a || !free_of(ps, a, b, None) {
            (e, s, EditAction::Refused)
        } else {
            (ArrangeView { sel: None, ..e },
                with_patterns(s, t, ps.push(PatternView { start: a as usize, len: (b - a) as usize, reps: 1, notes: seq![] })),
                EditAction::Changed)
        }
    } else if c == 'p' {
        match e.clip {
            Some(p) => if free_of(ps, cur, cur + p.len, None) && cur + p.len <= n {
                (e, with_patterns(s, t, ps.push(PatternView { start: e.cursor, reps: 1, ..p })), EditAction::Changed)
            } else {
                (e, s, EditAction::Refused)
            },
            None => (e, s, EditAction::Nothing),
        }
    } else if c == 'D' {
        match here {
            Some((i, k)) => if k != 0 {
                (e, with_patterns(s, t, detached(ps, i, k)), EditAction::Changed)
            } else {
                (e, s, EditAction::Refused)
            },
            None => (e, s, EditAction::Refused),
        }
    } else if c == 'm' {
        (e, SongView { tracks: s.tracks.update(t, TrackView { mute: !s.tracks[t].mute, ..s.tracks[t] }), ..s }, EditAction::Changed)
    } else if c == 'u' {
        (e, s, EditAction::Undo)
    } else if c == 's' {
        (e, s, EditAction::Seek(e.cursor))
    } else if c == ':' {
        (e, s, EditAction::Command)
    } else if c == 'x' || c == 'y' || c == 'R' || c == 'E' || c == '{' || c == '}' || c == ',' || c == '.' || c == 'r' || c == 'n' {
        match here {
            None => (e, s, EditAction::Nothing),
            Some((i, k)) => {
                let p = ps[i];
                if c == 'x' {
                    (e, with_patterns(s, t, ps.remove(i)), EditAction::Changed)
                } else if c == 'y' {
                    (ArrangeView { clip: Some(p), ..e }, s, EditAction::Yanked)
                } else if c == 'R' {
                    (e, with_pattern(s, t, i, PatternView { reps: fill_reps(ps, i, n) as usize, ..p }), EditAction::Changed)
                } else if c == 'E' {
                    (e, with_pattern(s, t, i, PatternView { reps: reps_to(p, cur) as usize, ..p }), EditAction::Changed)
                } else if c == '{' || c == '}' {
                    let d: int = if c == '{' { -1 } else { 1 };
                    if can_move(s, t, i, d) {
                        (e, with_pattern(s, t, i, PatternView { start: (p.start + d) as usize, ..p }), EditAction::Changed)
                    } else {
                        (e, s, EditAction::Refused)
                    }
                } else if c == ',' || c == '.' {
                    let d: int = if c == ',' { -1 } else { 1 };
                    if can_resize(s, t, i, d) {
                        (e, with_pattern(s, t, i, PatternView { len: resized_len(p, d) as usize, ..p }), EditAction::Changed)
                    } else {
                        (e, s, EditAction::Refused)
                    }
                } else if c == 'r' {
                    (e, s, EditAction::Randomize(i as usize))
                } else {
                    (e, s, EditAction::Humanize(i as usize))
                }
            },
        }
    } else {
        (e, s, EditAction::Nothing)
    }
}

proof fn lemma_pattern_room(p: PatternView, d: int)
    requires
        p.len >= 1,
        pat_end(p) <= 0x3fff_ffff,
        -1 <= d <= 1,
    ensures
        p.len * p.reps <= pat_end(p) - p.start,
        p.reps <= 0x3fff_ffff,
        p.start + resized_len(p, d) * p.reps <= 0x7fff_ffff,
        p.start + p.len <= pat_end(p),
{
    let q = plays(p);
    assert(p.len * p.reps <= p.len * q) by (nonlinear_arith)
        requires
            p.len >= 1,
            q == if p.reps >= 1 { p.reps as int } else { 1 },
    ;
    assert(p.reps <= p.len * p.reps) by (nonlinear_arith)
        requires
            p.len >= 1,
    ;
    assert(p.len <= p.len * q) by (nonlinear_arith)
        requires
            p.len >= 1,
            q >= 1,
    ;
    assert(resized_len(p, d) * p.reps <= p.len * p.reps + p.reps) by (nonlinear_arith)
        requires
            resized_len(p, d) <= p.len + 1,
    ;
}

/// One key `c` in the arrangement view (see `arrange_step`).
pub fn arrange_char(ed: &mut ArrangeEditor, song: &mut Song, c: char) -> (act: EditAction)
    requires
        arrange_ready(old(ed)@, old(song)@),
    ensures
        (final(ed)@, final(song)@, act) == arrange_step(old(ed)@, old(song)@, c),
{
    let ghost e0 = ed@;
    let ghost s0 = song@;
    let t = ed.track;
    let cur = ed.cursor;
    let n = song.steps();
    let bs = song.bar_steps();
    assert(bs >= 1) by {
        assert(song_steps(s0) == s0.bars * bs);
        if bs == 0 {
            assert(s0.bars * bs == 0) by (nonlinear_arith)
                requires
                    bs == 0,
            ;
        }
    }
    assert(bs <= n) by (nonlinear_arith)
        requires
            n == s0.bars * bs,
            n >= 1,
            bs >= 1,
    ;
    proof {
        assert forall|i: int| 0 <= i < s0.tracks[t as int].patterns.len() implies
            pat_end(#[trigger] s0.tracks[t as int].patterns[i]) <= usize::MAX by {
            assert(s0.tracks[t as int].patterns[i].len >= 1);
        }
    }
    let here = song.pat_at(t, cur);
    if c == 'h' {
        ed.cursor = step_cursor(cur, -1, n);
        EditAction::Nothing
    } else if c == 'l' {
        ed.cursor = step_cursor(cur, 1, n);
        EditAction::Nothing
    } else if c == 'H' {
        ed.cursor = step_cursor(cur, -(bs as i64), n);
        EditAction::Nothing
    } else if c == 'L' {
        ed.cursor = step_cursor(cur, bs as i64, n);
        EditAction::Nothing
    } else if c == 'j' || c == 'k' {
        ed.track = if c == 'j' {
            if t < song.tracks.len() - 1 { t + 1 } else { t }
        } else {
            if t > 0 { t - 1 } else { t }
        };
        EditAction::Nothing
    } else if c == 'g' {
        ed.cursor = 0;
        EditAction::Nothing
    } else if c == 'G' {
        ed.cursor = n - 1;
        EditAction::Nothing
    } else if c == 'v' {
        ed.sel = if ed.sel.is_some() { None } else { Some(cur) };
        EditAction::Nothing
    } else if c == 'P' {
        let (a, b) = match ed.sel {
            Some(m) => selection(m, cur),
            None => bar_span(cur, bs),
        };
        assert((a as int, b as int) == scope(e0, s0));
        match song.new_pattern(t, a, b) {
            Some(_) => {
                ed.sel = None;
                EditAction::Changed
            },
            None => EditAction::Refused,
        }
    } else if c == 'p' {
        match &ed.clip {
            Some(p) => {
                if p.len <= usize::MAX - cur && song.paste_pattern(t, cur, p) {
                    EditAction::Changed
                } else {
                    EditAction::Refused
                }
            },
            None => EditAction::Nothing,
        }
    } else if c == 'D' {
        if song.detach_at(t, cur) {
            EditAction::Changed
        } else {
            EditAction::Refused
        }
    } else if c == 'm' {
        let m = song.tracks[t].mute;
        song.set_mute(t, !m);
        EditAction::Changed
    } else if c == 'u' {
        EditAction::Undo
    } else if c == 's' {
        EditAction::Seek(cur)
    } else if c == ':' {
        EditAction::Command
    } else if c == 'x' || c == 'y' || c == 'R' || c == 'E' || c == '{' || c == '}' || c == ',' || c == '.' || c == 'r' || c == 'n' {
        match here {
            None => EditAction::Nothing,
            Some((i, _k)) => {
                proof {
                    crate::song::lemma_pat_at_found(s0.tracks[t as int].patterns, cur as int, 0);
                }
                let ghost p = s0.tracks[t as int].patterns[i as int];
                proof {
                    lemma_pattern_room(p, -1);
                    lemma_pattern_room(p, 1);
                }
                if c == 'x' {
                    song.delete_pattern(t, i);
                    EditAction::Changed
                } else if c == 'y' {
                    assert(song.tracks@[t as int].patterns@[i as int]@ == p);
                    ed.clip = Some(song.tracks[t].patterns[i].copy());
                    EditAction::Yanked
                } else if c == 'R' {
                    song.fill_repeat(t, i);
                    EditAction::Changed
                } else if c == 'E' {
                    song.end_at(t, i, cur);
                    EditAction::Changed
                } else if c == '{' || c == '}' {
                    let d: i64 = if c == '{' { -1 } else { 1 };
                    if song.move_pattern(t, i, d) {
                        EditAction::Changed
                    } else {
                        EditAction::Refused
                    }
                } else if c == ',' || c == '.' {
                    let d: i64 = if c == ',' { -1 } else { 1 };
                    if song.resize_pattern(t, i, d) {
                        EditAction::Changed
                    } else {
                        EditAction::Refused
                    }
                } else if c == 'r' {
                    EditAction::Randomize(i)
                } else {
                    EditAction::Humanize(i)
                }
            },
        }
    } else {
        EditAction::Nothing
    }
}

} // verus!
