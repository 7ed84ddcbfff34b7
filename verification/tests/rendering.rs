use hilite::color::Color;
use hilite::matcher::Highlighter;
use hilite::render::{assemble, paint_all, render_line};
use hilite::segment::Segment;
use hilite::table::ColorSpec;

fn highlighter(entries: &[(&str, Color)]) -> Highlighter {
    let table = ColorSpec::new(entries.iter().map(|(p, c)| (p.as_bytes().to_vec(), *c)).collect());
    match Highlighter::build(&table) {
        Ok(h) => h,
        Err(e) => panic!("no highlighter: {e:?}"),
    }
}

#[test]
fn empty_line_renders_as_nothing() {
    colored::control::set_override(true);
    let h = highlighter(&[("a", Color::Red)]);
    assert_eq!(render_line(&h.highlight(b"")), Vec::<u8>::new());
}

#[test]
fn line_without_match_renders_unchanged() {
    colored::control::set_override(true);
    let h = highlighter(&[("zzz", Color::Red)]);
    assert_eq!(render_line(&h.highlight(b"nothing to see")), b"nothing to see".to_vec());
}

#[test]
fn matched_text_is_wrapped_in_its_color() {
    colored::control::set_override(true);
    let h = highlighter(&[("err", Color::Red), ("warn", Color::BrightYellow)]);
    assert_eq!(
        render_line(&h.highlight(b"an Err, a WARN.")),
        b"an \x1b[31mErr\x1b[0m, a \x1b[93mWARN\x1b[0m.".to_vec()
    );
}

#[test]
fn every_color_is_painted_with_its_code() {
    colored::control::set_override(true);
    for c in [Color::Black, Color::Green, Color::White, Color::BrightBlack, Color::BrightMagenta] {
        let segments = vec![Segment::Colored(b"x".to_vec(), c)];
        let expected = format!("\x1b[{}mx\x1b[0m", c.fg_code());
        assert_eq!(render_line(&segments), expected.into_bytes());
    }
}

#[test]
fn assemble_takes_painted_text_for_colored_segments() {
    let segments = vec![
        Segment::Plain(b"a".to_vec()),
        Segment::Colored(b"b".to_vec(), Color::Red),
        Segment::Plain(b"c".to_vec()),
    ];
    let painted = vec![b"ignored".to_vec(), b"<B>".to_vec(), Vec::new()];
    assert_eq!(assemble(&segments, &painted), b"a<B>c".to_vec());
}

#[test]
fn paint_all_has_one_place_per_segment() {
    colored::control::set_override(true);
    let segments = vec![Segment::Plain(b"a".to_vec()), Segment::Colored(b"b".to_vec(), Color::Blue)];
    let painted = paint_all(&segments);
    assert_eq!(painted, vec![Vec::new(), b"\x1b[34mb\x1b[0m".to_vec()]);
}

#[test]
fn render_goes_from_line_to_output() {
    colored::control::set_override(true);
    let h = highlighter(&[("ab", Color::Cyan), ("cd", Color::BrightRed)]);
    assert_eq!(h.render(b"xabcdx"), b"x\x1b[36mab\x1b[0m\x1b[91mcd\x1b[0mx".to_vec());
    assert_eq!(h.render(b"ABba"), b"\x1b[36mAB\x1b[0mba".to_vec());
}

#[test]
fn render_leaves_an_unmatched_line_alone() {
    colored::control::set_override(true);
    let h = highlighter(&[("ab", Color::Cyan)]);
    assert_eq!(h.render(b"a b a b"), b"a b a b".to_vec());
    assert_eq!(h.render(b""), Vec::<u8>::new());
    assert_eq!(h.render("trailing space  ".as_bytes()), b"trailing space  ".to_vec());
}
