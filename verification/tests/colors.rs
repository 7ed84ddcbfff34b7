use hilite::color::Color;

const ALL: [Color; 16] = [
    Color::Black,
    Color::Red,
    Color::Green,
    Color::Yellow,
    Color::Blue,
    Color::Magenta,
    Color::Cyan,
    Color::White,
    Color::BrightBlack,
    Color::BrightRed,
    Color::BrightGreen,
    Color::BrightYellow,
    Color::BrightBlue,
    Color::BrightMagenta,
    Color::BrightCyan,
    Color::BrightWhite,
];

#[test]
fn fg_codes_are_the_ansi_numbers() {
    let codes: Vec<u8> = ALL.iter().map(|c| c.fg_code()).collect();
    assert_eq!(codes, vec![30, 31, 32, 33, 34, 35, 36, 37, 90, 91, 92, 93, 94, 95, 96, 97]);
}

#[test]
fn fg_code_text_is_read_back() {
    for c in ALL {
        let text = format!("{}", c.fg_code());
        assert_eq!(Color::from_fg_code(&text), Some(c));
    }
}

#[test]
fn other_code_text_is_no_color() {
    for text in ["", "3", "38", "39", "98", "130", "31 ", "x1", "41", "38;2;1;2;3"] {
        assert_eq!(Color::from_fg_code(text), None, "{text:?}");
    }
}

#[test]
fn from_index_covers_both_brightnesses() {
    assert_eq!(Color::from_index(false, 0), Some(Color::Black));
    assert_eq!(Color::from_index(false, 7), Some(Color::White));
    assert_eq!(Color::from_index(true, 3), Some(Color::BrightYellow));
    assert_eq!(Color::from_index(true, 8), None);
    assert_eq!(Color::from_index(false, 255), None);
}

#[test]
fn every_name_resolves_to_its_color() {
    for c in ALL {
        assert_eq!(Color::from_name(c.name()), Some(c), "{}", c.name());
    }
}

#[test]
fn names_are_spelled_out() {
    assert_eq!(Color::Red.name(), "red");
    assert_eq!(Color::BrightCyan.name(), "bright cyan");
    assert_eq!(Color::from_name("red"), Some(Color::Red));
    assert_eq!(Color::from_name("bright blue"), Some(Color::BrightBlue));
}

#[test]
fn names_ignore_letter_case() {
    assert_eq!(Color::from_name("RED"), Some(Color::Red));
    assert_eq!(Color::from_name("Bright Green"), Some(Color::BrightGreen));
}

#[test]
fn purple_is_magenta() {
    assert_eq!(Color::from_name("purple"), Some(Color::Magenta));
}

#[test]
fn unknown_names_resolve_to_nothing() {
    for name in ["", "notacolor", "redd", " red", "brightred", "31", "#ff0000"] {
        assert_eq!(Color::from_name(name), None, "{name:?}");
    }
}
