use hilite::color::Color;
use hilite::table::{bytes_equal, parse_args, split_token, ColorSpec};

fn args(tokens: &[&str]) -> Vec<String> {
    tokens.iter().map(|t| t.to_string()).collect()
}

#[test]
fn tokens_become_an_ordered_table() {
    let table = parse_args(&args(&["err=red", "error=blue", "WARN=bright yellow"])).unwrap();
    assert_eq!(table.patterns(), &vec![b"err".to_vec(), b"error".to_vec(), b"WARN".to_vec()]);
    assert_eq!(table.values(), &vec![Color::Red, Color::Blue, Color::BrightYellow]);
    assert_eq!(table.len(), 3);
}

#[test]
fn no_token_gives_an_empty_table() {
    let table = parse_args(&args(&[])).unwrap();
    assert_eq!(table.len(), 0);
}

#[test]
fn token_without_separator_is_refused() {
    assert!(parse_args(&args(&["foo"])).is_none());
}

#[test]
fn token_with_unknown_color_is_refused() {
    assert!(parse_args(&args(&["foo=notacolor"])).is_none());
}

#[test]
fn token_with_two_separators_is_refused() {
    assert!(parse_args(&args(&["foo=red=blue"])).is_none());
    assert!(parse_args(&args(&["a==red"])).is_none());
}

#[test]
fn one_bad_token_refuses_all() {
    assert!(parse_args(&args(&["ok=red", "bad", "fine=blue"])).is_none());
    assert!(parse_args(&args(&["ok=red", "fine=blue", "oops=reddish"])).is_none());
}

#[test]
fn repeated_pattern_keeps_its_place_and_takes_the_last_color() {
    let table = parse_args(&args(&["a=red", "b=green", "a=blue"])).unwrap();
    assert_eq!(table.patterns(), &vec![b"a".to_vec(), b"b".to_vec()]);
    assert_eq!(table.values(), &vec![Color::Blue, Color::Green]);
}

#[test]
fn pattern_bytes_are_utf8() {
    let table = parse_args(&args(&["é=red"])).unwrap();
    assert_eq!(table.patterns(), &vec!["é".as_bytes().to_vec()]);
}

#[test]
fn empty_pattern_is_kept_by_the_table() {
    let table = parse_args(&args(&["=red"])).unwrap();
    assert_eq!(table.patterns(), &vec![Vec::<u8>::new()]);
}

#[test]
fn split_token_cuts_at_the_only_separator() {
    assert_eq!(split_token("foo=red"), Some(("foo", "red")));
    assert_eq!(split_token("=red"), Some(("", "red")));
    assert_eq!(split_token("foo="), Some(("foo", "")));
    assert_eq!(split_token("="), Some(("", "")));
    assert_eq!(split_token("naïve=bright red"), Some(("naïve", "bright red")));
    assert_eq!(split_token("foo"), None);
    assert_eq!(split_token(""), None);
    assert_eq!(split_token("a=b=c"), None);
}

#[test]
fn new_binds_entries_in_order() {
    let table = ColorSpec::new(vec![
        (b"x".to_vec(), Color::Red),
        (b"y".to_vec(), Color::Green),
        (b"x".to_vec(), Color::Cyan),
        (b"z".to_vec(), Color::White),
    ]);
    assert_eq!(table.patterns(), &vec![b"x".to_vec(), b"y".to_vec(), b"z".to_vec()]);
    assert_eq!(table.values(), &vec![Color::Cyan, Color::Green, Color::White]);
}

#[test]
fn insert_and_position() {
    let mut table = ColorSpec::empty();
    assert_eq!(table.len(), 0);
    table.insert(b"one".to_vec(), Color::Red);
    table.insert(b"two".to_vec(), Color::Blue);
    assert_eq!(table.position(b"one"), Some(0));
    assert_eq!(table.position(b"two"), Some(1));
    assert_eq!(table.position(b"One"), None);
    table.insert(b"one".to_vec(), Color::Yellow);
    assert_eq!(table.len(), 2);
    assert_eq!(table.values(), &vec![Color::Yellow, Color::Blue]);
}

#[test]
fn bytes_equal_compares_contents() {
    assert!(bytes_equal(b"", b""));
    assert!(bytes_equal(b"abc", b"abc"));
    assert!(!bytes_equal(b"abc", b"abd"));
    assert!(!bytes_equal(b"abc", b"ab"));
    assert!(!bytes_equal(b"", b"a"));
}
