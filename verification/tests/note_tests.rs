use dirty_daw::note_edit::{note_char, NoteAction, NoteEditor};
use dirty_daw::song::Song;

fn ed() -> NoteEditor {
    NoteEditor { pcursor: 0, cpitch: 72, ins_len: 2, sel: None, pending: None }
}

#[test]
fn note_keys_move_and_pick_pitches() {
    let s = Song::empty();
    let mut e = ed();
    assert_eq!(note_char(&mut e, &s, 16, 'L'), NoteAction::Nothing);
    assert_eq!(e.pcursor, 15);
    note_char(&mut e, &s, 16, 'H');
    assert_eq!(e.pcursor, 0);
    note_char(&mut e, &s, 16, 'k');
    assert_eq!(e.cpitch, 74);
    note_char(&mut e, &s, 16, 'K');
    assert_eq!(e.cpitch, 86);
    e.cpitch = 120;
    note_char(&mut e, &s, 16, 'K');
    assert_eq!(e.cpitch, 127);
    e.cpitch = 60;
    assert_eq!(note_char(&mut e, &s, 16, '5'), NoteAction::Insert(0, vec![67]));
    assert_eq!((e.cpitch, e.pcursor), (67, 2));
    assert_eq!(note_char(&mut e, &s, 16, 'c'), NoteAction::Chord('c'));
    assert_eq!(note_char(&mut e, &s, 16, '1'), NoteAction::Insert(2, vec![60, 64, 67]));
    assert_eq!((e.cpitch, e.pcursor, e.pending), (60, 4, None));
    note_char(&mut e, &s, 16, 'C');
    assert_eq!(note_char(&mut e, &s, 16, '5'), NoteAction::Insert(4, vec![67, 71, 74, 77]));
}

#[test]
fn note_keys_cover_ranges() {
    let s = Song::empty();
    let mut e = ed();
    e.pcursor = 3;
    assert_eq!(note_char(&mut e, &s, 16, '='), NoteAction::Transpose(3, 4, 1));
    assert_eq!(note_char(&mut e, &s, 16, 'n'), NoteAction::Humanize(0, 16));
    note_char(&mut e, &s, 16, 'v');
    e.pcursor = 7;
    assert_eq!(note_char(&mut e, &s, 16, '-'), NoteAction::Transpose(3, 8, -1));
    assert_eq!(note_char(&mut e, &s, 16, 'r'), NoteAction::Randomize(3, 8, 5));
    assert_eq!(note_char(&mut e, &s, 16, 'X'), NoteAction::Clear(3, 8));
    assert_eq!(e.sel, None);
    note_char(&mut e, &s, 16, ',');
    assert_eq!(e.ins_len, 1);
    note_char(&mut e, &s, 16, ',');
    assert_eq!(e.ins_len, 1);
    for _ in 0..8 { note_char(&mut e, &s, 16, '.'); }
    assert_eq!(e.ins_len, 64);
    assert_eq!(note_char(&mut e, &s, 16, 's'), NoteAction::Seek(7));
    assert_eq!(note_char(&mut e, &s, 16, 'a'), NoteAction::Arpeggiate(7, 64));
}
