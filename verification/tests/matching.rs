use hilite::color::Color;
use hilite::matcher::{first_empty, Highlighter, Match, SetupError};
use hilite::table::ColorSpec;

fn highlighter(entries: &[(&str, Color)]) -> Highlighter {
    let table = ColorSpec::new(entries.iter().map(|(p, c)| (p.as_bytes().to_vec(), *c)).collect());
    match Highlighter::build(&table) {
        Ok(h) => h,
        Err(e) => panic!("no highlighter: {e:?}"),
    }
}

fn m(pattern_id: usize, start: usize, end: usize) -> Match {
    Match { pattern_id, start, end }
}

#[test]
fn shorter_pattern_registered_first_wins() {
    let h = highlighter(&[("err", Color::Red), ("error", Color::Blue)]);
    assert_eq!(h.find_all(b"error code"), vec![m(0, 0, 3)]);
}

#[test]
fn longer_pattern_registered_first_wins() {
    let h = highlighter(&[("error", Color::Blue), ("err", Color::Red)]);
    assert_eq!(h.find_all(b"error code"), vec![m(0, 0, 5)]);
}

#[test]
fn letter_case_is_ignored_in_the_line() {
    let h = highlighter(&[("WARN", Color::Yellow)]);
    assert_eq!(h.find_all(b"a warn b"), vec![m(0, 2, 6)]);
    assert_eq!(h.find_all(b"a Warn b"), vec![m(0, 2, 6)]);
    assert_eq!(h.find_all(b"a WARN b"), vec![m(0, 2, 6)]);
}

#[test]
fn letter_case_is_ignored_in_the_pattern() {
    let h = highlighter(&[("warn", Color::Yellow)]);
    assert_eq!(h.find_all(b"WaRn"), vec![m(0, 0, 4)]);
}

#[test]
fn only_ascii_letters_are_folded() {
    let h = highlighter(&[("é", Color::Red), ("[", Color::Blue)]);
    assert_eq!(h.find_all("É".as_bytes()), vec![]);
    assert_eq!(h.find_all(b"{"), vec![]);
    assert_eq!(h.find_all("é[".as_bytes()), vec![m(0, 0, 2), m(1, 2, 3)]);
}

#[test]
fn matches_go_left_to_right_without_overlap() {
    let h = highlighter(&[("aa", Color::Red), ("ab", Color::Blue), ("b", Color::Green)]);
    let found = h.find_all(b"aaab baab");
    assert_eq!(found, vec![m(0, 0, 2), m(1, 2, 4), m(2, 5, 6), m(0, 6, 8), m(2, 8, 9)]);
    for pair in found.windows(2) {
        assert!(pair[0].start < pair[0].end);
        assert!(pair[0].end <= pair[1].start);
        assert!(pair[0].start < pair[1].start);
    }
}

#[test]
fn leftmost_start_wins_over_registration_order() {
    let h = highlighter(&[("bc", Color::Red), ("abcd", Color::Blue)]);
    assert_eq!(h.find_all(b"xabcd"), vec![m(1, 1, 5)]);
}

#[test]
fn line_without_occurrence_has_no_match() {
    let h = highlighter(&[("needle", Color::Red)]);
    assert_eq!(h.find_all(b"hay"), vec![]);
    assert_eq!(h.find_all(b""), vec![]);
    assert_eq!(h.find_all(b"needl"), vec![]);
}

#[test]
fn empty_table_is_refused() {
    let table = ColorSpec::empty();
    assert_eq!(Highlighter::build(&table).err(), Some(SetupError::EmptySet));
}

#[test]
fn empty_pattern_is_refused_with_its_place() {
    let table = ColorSpec::new(vec![
        (b"a".to_vec(), Color::Red),
        (Vec::new(), Color::Blue),
        (b"b".to_vec(), Color::Green),
    ]);
    assert_eq!(Highlighter::build(&table).err(), Some(SetupError::EmptyPattern(1)));
    let only = ColorSpec::new(vec![(Vec::new(), Color::Blue)]);
    assert_eq!(Highlighter::build(&only).err(), Some(SetupError::EmptyPattern(0)));
}

#[test]
fn first_empty_finds_the_first() {
    assert_eq!(first_empty(&vec![]), None);
    assert_eq!(first_empty(&vec![b"a".to_vec(), b"b".to_vec()]), None);
    assert_eq!(first_empty(&vec![b"a".to_vec(), vec![], vec![]]), Some(1));
}
