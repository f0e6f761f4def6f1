use dirty_daw::editor::{
    bar_span, cut_targets, cycle, nav, note_number, parse_int, parse_key, parse_prog, selection, splice_targets, step_cursor,
};
use dirty_daw::voices::pick_voice;

const HIDDEN: usize = usize::MAX;

#[test]
fn cursor_moves_between_columns_and_rows() {
    // columns: 0 = {a(row 0), b(row 1)}, 1 = {c(row 0)}, 2 = {d(row 0), e(row 1), f(row 2)}, g hidden
    let lay = vec![(0, 0), (0, 1), (1, 0), (2, 0), (2, 1), (2, 2), (HIDDEN, 0)];
    assert_eq!(nav(&lay, 0, 1, 0), Some(2));
    assert_eq!(nav(&lay, 1, 1, 0), Some(2));
    assert_eq!(nav(&lay, 2, 1, 0), Some(3));
    assert_eq!(nav(&lay, 5, -1, 0), Some(2));
    assert_eq!(nav(&lay, 5, 1, 0), None);
    assert_eq!(nav(&lay, 0, -1, 0), None);
    assert_eq!(nav(&lay, 3, 0, 1), Some(4));
    assert_eq!(nav(&lay, 4, 0, -5), Some(3));
    assert_eq!(nav(&lay, 5, 0, 1), None);
    assert_eq!(nav(&lay, 6, 1, 0), Some(0));
    // an empty column is skipped
    let gap = vec![(0, 3), (2, 0), (2, 4)];
    assert_eq!(nav(&gap, 0, 1, 0), Some(2));
}

#[test]
fn cycling_wraps_both_ways() {
    assert_eq!(cycle(0, -1, 3), 2);
    assert_eq!(cycle(2, 1, 3), 0);
    assert_eq!(cycle(1, 1, 9), 2);
    assert_eq!(cycle(0, -10, 4), 2);
}

#[test]
fn integers_parse_like_std() {
    for s in ["42", "-7", "+3", "0", "-0", "007", "2147483647", "-2147483648", "", "-", "+", "1a", " 1", "2147483648", "-2147483649", "99999999999999999999"] {
        assert_eq!(parse_int(s), s.parse::<i32>().ok(), "{s:?}");
    }
}

#[test]
fn progression_arguments() {
    assert_eq!(parse_prog(&["1", "5", "x", "8", "6", "0", "4"]), vec![1, 5, 6, 4]);
    assert_eq!(parse_prog(&[]), Vec::<i32>::new());
}

#[test]
fn key_arguments() {
    assert_eq!(parse_key("F#", Some("minor")), Some((6, true)));
    assert_eq!(parse_key("Bbm", None), Some((10, true)));
    assert_eq!(parse_key("C", None), Some((0, false)));
    // any second word starting with m means minor, "major" included
    assert_eq!(parse_key("a", Some("major")), Some((9, true)));
    assert_eq!(parse_key("a", Some("dorian")), Some((9, false)));
    assert_eq!(parse_key("H", Some("minor")), None);
}

#[test]
fn typed_note_names() {
    assert_eq!(note_number("D4"), Some(62));
    assert_eq!(note_number("C#-1"), Some(1));
    assert_eq!(note_number("A"), Some(69));
    assert_eq!(note_number("Bb3"), Some(58));
    assert_eq!(note_number("x4"), None);
}

#[test]
fn new_notes_take_idle_then_released_then_oldest_voices() {
    assert_eq!(pick_voice(&[false, true, true], &[true, false, false], &[5, 6, 7]), 1);
    assert_eq!(pick_voice(&[false, false, false], &[true, false, false], &[5, 6, 7]), 1);
    assert_eq!(pick_voice(&[false, false, false], &[true, true, true], &[5, 2, 2]), 1);
    assert_eq!(pick_voice(&[false], &[true], &[9]), 0);
}

#[test]
fn cursor_steps_stay_in_range() {
    assert_eq!(step_cursor(3, -5, 10), 0);
    assert_eq!(step_cursor(3, 16, 10), 9);
    assert_eq!(step_cursor(3, 4, 10), 7);
    assert_eq!(selection(9, 4), (4, 10));
    assert_eq!(selection(2, 4), (2, 5));
    assert_eq!(bar_span(21, 16), (16, 32));
    assert_eq!(bar_span(0, 12), (0, 12));
}

#[test]
fn chooser_rows_pick_connections() {
    let c = vec![(4, 0), (7, 1), (9, 2)];
    assert_eq!(splice_targets(&c, 0), c);
    assert_eq!(splice_targets(&c, 2), vec![(7, 1)]);
    assert_eq!(splice_targets(&c, 4), vec![]);
    assert_eq!(cut_targets(&c, 0), vec![(4, 0)]);
    assert_eq!(cut_targets(&c, 3), c);
}
