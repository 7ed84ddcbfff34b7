use hilite::color::Color;
use hilite::matcher::{Highlighter, Match};
use hilite::segment::{copy_range, segment_line, Segment};
use hilite::table::ColorSpec;

fn highlighter(entries: &[(&str, Color)]) -> Highlighter {
    let table = ColorSpec::new(entries.iter().map(|(p, c)| (p.as_bytes().to_vec(), *c)).collect());
    match Highlighter::build(&table) {
        Ok(h) => h,
        Err(e) => panic!("no highlighter: {e:?}"),
    }
}

fn plain(text: &str) -> Segment {
    Segment::Plain(text.as_bytes().to_vec())
}

fn colored(text: &str, color: Color) -> Segment {
    Segment::Colored(text.as_bytes().to_vec(), color)
}

fn join(segments: &[Segment]) -> Vec<u8> {
    let mut out = Vec::new();
    for s in segments {
        out.extend_from_slice(s.text());
    }
    out
}

#[test]
fn segments_join_back_to_the_line() {
    let h = highlighter(&[("err", Color::Red), ("warn", Color::Yellow), ("o", Color::Blue)]);
    for line in ["", "x", "error: WARNing, no error", "errerrerr", "ooo", "plain text", "wárn ërr"] {
        let segments = h.highlight(line.as_bytes());
        assert_eq!(join(&segments), line.as_bytes(), "{line:?}");
    }
}

#[test]
fn text_between_matches_is_plain() {
    let h = highlighter(&[("err", Color::Red), ("warn", Color::Yellow)]);
    assert_eq!(
        h.highlight(b"an ERR and a Warn here"),
        vec![
            plain("an "),
            colored("ERR", Color::Red),
            plain(" and a "),
            colored("Warn", Color::Yellow),
            plain(" here"),
        ]
    );
}

#[test]
fn matched_text_keeps_its_letter_case() {
    let h = highlighter(&[("WARN", Color::Yellow)]);
    assert_eq!(h.highlight(b"warn"), vec![colored("warn", Color::Yellow)]);
    assert_eq!(h.highlight(b"Warn"), vec![colored("Warn", Color::Yellow)]);
    assert_eq!(h.highlight(b"WARN"), vec![colored("WARN", Color::Yellow)]);
}

#[test]
fn tie_goes_to_the_pattern_registered_first() {
    let h = highlighter(&[("err", Color::Red), ("error", Color::Blue)]);
    assert_eq!(h.highlight(b"error code"), vec![colored("err", Color::Red), plain("or code")]);
    let h = highlighter(&[("error", Color::Blue), ("err", Color::Red)]);
    assert_eq!(h.highlight(b"error code"), vec![colored("error", Color::Blue), plain(" code")]);
}

#[test]
fn empty_line_has_no_segment() {
    let h = highlighter(&[("a", Color::Red)]);
    assert_eq!(h.highlight(b""), vec![]);
    assert_eq!(segment_line(b"", &vec![], &vec![Color::Red]), vec![]);
}

#[test]
fn line_without_match_is_one_plain_segment() {
    let h = highlighter(&[("zzz", Color::Red)]);
    assert_eq!(h.highlight(b"nothing here"), vec![plain("nothing here")]);
    assert_eq!(segment_line(b"abc", &vec![], &vec![]), vec![plain("abc")]);
}

#[test]
fn adjacent_matches_have_no_plain_segment_between() {
    let h = highlighter(&[("ab", Color::Red), ("cd", Color::Green)]);
    assert_eq!(h.highlight(b"abcd"), vec![colored("ab", Color::Red), colored("cd", Color::Green)]);
}

#[test]
fn segment_line_follows_the_given_matches() {
    let found = vec![
        Match { pattern_id: 1, start: 0, end: 2 },
        Match { pattern_id: 0, start: 2, end: 3 },
        Match { pattern_id: 1, start: 5, end: 6 },
    ];
    let colors = vec![Color::Cyan, Color::Magenta];
    assert_eq!(
        segment_line(b"abcdefg", &found, &colors),
        vec![
            colored("ab", Color::Magenta),
            colored("c", Color::Cyan),
            plain("de"),
            colored("f", Color::Magenta),
            plain("g"),
        ]
    );
}

#[test]
fn match_at_the_end_leaves_no_trailing_segment() {
    let found = vec![Match { pattern_id: 0, start: 1, end: 3 }];
    assert_eq!(
        segment_line(b"abc", &found, &vec![Color::Red]),
        vec![plain("a"), colored("bc", Color::Red)]
    );
}

#[test]
fn segment_accessors() {
    let p = plain("ab");
    let c = colored("cd", Color::Blue);
    assert_eq!(p.text(), &b"ab".to_vec());
    assert_eq!(p.color(), None);
    assert_eq!(c.text(), &b"cd".to_vec());
    assert_eq!(c.color(), Some(Color::Blue));
}

#[test]
fn copy_range_copies_the_bytes() {
    assert_eq!(copy_range(b"abcdef", 2, 5), b"cde".to_vec());
    assert_eq!(copy_range(b"abcdef", 3, 3), Vec::<u8>::new());
    assert_eq!(copy_range(b"abcdef", 0, 6), b"abcdef".to_vec());
}
