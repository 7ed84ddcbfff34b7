use hilite::color::Color;
use hilite::matcher::Highlighter;
use hilite::render::render_line;
use hilite::table::ColorSpec;

#[test]
fn without_colors_the_line_comes_back() {
    colored::control::set_override(false);
    let table = ColorSpec::new(vec![(b"err".to_vec(), Color::Red)]);
    let h = match Highlighter::build(&table) {
        Ok(h) => h,
        Err(e) => panic!("no highlighter: {e:?}"),
    };
    assert_eq!(render_line(&h.highlight(b"an err here")), b"an err here".to_vec());
    assert_eq!(h.render(b"an err here"), b"an err here".to_vec());
}
