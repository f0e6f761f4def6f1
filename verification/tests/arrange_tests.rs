use dirty_daw::arrange::{arrange_char, ArrangeEditor, EditAction};
use dirty_daw::song::Song;

fn setup() -> (ArrangeEditor, Song) {
    let mut s = Song::empty();
    s.add_track("a");
    s.add_track("b");
    (ArrangeEditor { track: 0, cursor: 0, sel: None, clip: None }, s)
}

#[test]
fn arrange_keys_move_the_cursor_and_track() {
    let (mut ed, mut s) = setup();
    assert_eq!(arrange_char(&mut ed, &mut s, 'h'), EditAction::Nothing);
    assert_eq!(ed.cursor, 0);
    arrange_char(&mut ed, &mut s, 'L');
    assert_eq!(ed.cursor, 16);
    arrange_char(&mut ed, &mut s, 'G');
    assert_eq!(ed.cursor, 63);
    arrange_char(&mut ed, &mut s, 'l');
    assert_eq!(ed.cursor, 63);
    arrange_char(&mut ed, &mut s, 'j');
    arrange_char(&mut ed, &mut s, 'j');
    assert_eq!(ed.track, 1);
    arrange_char(&mut ed, &mut s, 'k');
    assert_eq!(ed.track, 0);
    assert_eq!(arrange_char(&mut ed, &mut s, 's'), EditAction::Seek(63));
    assert_eq!(arrange_char(&mut ed, &mut s, 'u'), EditAction::Undo);
    assert_eq!(arrange_char(&mut ed, &mut s, ':'), EditAction::Command);
}

#[test]
fn arrange_keys_edit_patterns() {
    let (mut ed, mut s) = setup();
    ed.cursor = 5;
    assert_eq!(arrange_char(&mut ed, &mut s, 'P'), EditAction::Changed);
    let p = &s.tracks[0].patterns[0];
    assert_eq!((p.start, p.len, p.reps), (0, 16, 1));
    assert_eq!(arrange_char(&mut ed, &mut s, 'P'), EditAction::Refused);
    assert_eq!(arrange_char(&mut ed, &mut s, 'R'), EditAction::Changed);
    assert_eq!(s.tracks[0].patterns[0].reps, 4);
    ed.cursor = 20;
    assert_eq!(arrange_char(&mut ed, &mut s, 'E'), EditAction::Changed);
    assert_eq!(s.tracks[0].patterns[0].reps, 2);
    assert_eq!(arrange_char(&mut ed, &mut s, 'D'), EditAction::Changed);
    assert_eq!(s.tracks[0].patterns.len(), 2);
    assert_eq!((s.tracks[0].patterns[1].start, s.tracks[0].patterns[1].reps), (16, 1));
    ed.cursor = 3;
    assert_eq!(arrange_char(&mut ed, &mut s, 'D'), EditAction::Refused);
    assert_eq!(arrange_char(&mut ed, &mut s, 'y'), EditAction::Yanked);
    assert_eq!(ed.clip.as_ref().map(|p| p.len), Some(16));
    ed.cursor = 40;
    assert_eq!(arrange_char(&mut ed, &mut s, 'p'), EditAction::Changed);
    assert_eq!(s.tracks[0].patterns[2].start, 40);
    ed.cursor = 50;
    assert_eq!(arrange_char(&mut ed, &mut s, 'p'), EditAction::Refused);
    ed.cursor = 41;
    assert_eq!(arrange_char(&mut ed, &mut s, '}'), EditAction::Changed);
    assert_eq!(s.tracks[0].patterns[2].start, 41);
    assert_eq!(arrange_char(&mut ed, &mut s, '.'), EditAction::Changed);
    assert_eq!(s.tracks[0].patterns[2].len, 17);
    assert_eq!(arrange_char(&mut ed, &mut s, 'r'), EditAction::Randomize(2));
    assert_eq!(arrange_char(&mut ed, &mut s, 'n'), EditAction::Humanize(2));
    assert_eq!(arrange_char(&mut ed, &mut s, 'x'), EditAction::Changed);
    assert_eq!(s.tracks[0].patterns.len(), 2);
    assert_eq!(arrange_char(&mut ed, &mut s, 'x'), EditAction::Nothing);
    assert_eq!(arrange_char(&mut ed, &mut s, 'm'), EditAction::Changed);
    assert!(s.tracks[0].mute);
}

#[test]
fn arrange_selection_makes_a_pattern() {
    let (mut ed, mut s) = setup();
    ed.cursor = 10;
    arrange_char(&mut ed, &mut s, 'v');
    assert_eq!(ed.sel, Some(10));
    ed.cursor = 4;
    assert_eq!(arrange_char(&mut ed, &mut s, 'P'), EditAction::Changed);
    assert_eq!(ed.sel, None);
    let p = &s.tracks[0].patterns[0];
    assert_eq!((p.start, p.len), (4, 7));
    assert!(s.arrange_ok());
}
