//! The sixteen named terminal colours.

use std::str::FromStr;
use vstd::prelude::*;
use vstd::string::StrSliceExecFns;

verus! {

/// A named terminal colour: the eight standard ones and their bright
/// variants.
#[derive(Clone, Copy, Debug, PartialEq, Eq, Structural)]
pub enum Color {
    Black,
    Red,
    Green,
    Yellow,
    Blue,
    Magenta,
    Cyan,
    White,
    BrightBlack,
    BrightRed,
    BrightGreen,
    BrightYellow,
    BrightBlue,
    BrightMagenta,
    BrightCyan,
    BrightWhite,
}

/// The colour at position `index` among the eight of one brightness.
pub open spec fn color_at(bright: bool, index: int) -> Color {
    if index == 0 {
        if bright { Color::BrightBlack } else { Color::Black }
    } else if index == 1 {
        if bright { Color::BrightRed } else { Color::Red }
    } else if index == 2 {
        if bright { Color::BrightGreen } else { Color::Green }
    } else if index == 3 {
        if bright { Color::BrightYellow } else { Color::Yellow }
    } else if index == 4 {
        if bright { Color::BrightBlue } else { Color::Blue }
    } else if index == 5 {
        if bright { Color::BrightMagenta } else { Color::Magenta }
    } else if index == 6 {
        if bright { Color::BrightCyan } else { Color::Cyan }
    } else {
        if bright { Color::BrightWhite } else { Color::White }
    }
}

/// The colour that a foreground parameter of a "select graphic rendition"
/// sequence stands for: `30` to `37` the standard colours, `90` to `97`
/// the bright ones, written as two decimal digits. Any other text stands
/// for none.
pub open spec fn color_of_code(code: Seq<char>) -> Option<Color> {
    if code.len() == 2 && (code[0] == '3' || code[0] == '9') && '0' <= code[1] <= '7' {
        Some(color_at(code[0] == '9', code[1] as int - '0' as int))
    } else {
        None
    }
}

/// The foreground parameter that `colored` gives the colour it knows
/// under `name`, or `None` where it knows no colour of that name. The
/// name stands for two calls of `colored`, one after the other: the name
/// is parsed to a colour, and the colour gives its parameter.
pub uninterp spec fn named_fg_code(name: Seq<char>) -> Option<Seq<char>>;

/// The colour that the name resolves to: the one whose foreground
/// parameter `colored` gives for the name.
pub open spec fn color_of_name(name: Seq<char>) -> Option<Color> {
    match named_fg_code(name) {
        Some(code) => color_of_code(code),
        None => None,
    }
}

/// Calls `colored::Color::from_str` and, on the colour it returns,
/// `colored::Color::to_fg_str`: two calls, whose composition
/// `named_fg_code` names. The name is parsed without regard to letter
/// case against a fixed list, and a colour of that list has a fixed
/// foreground parameter, so the result depends on `name` alone; the
/// contract names it and says no more.
#[verifier::external_body]
fn fg_code_of_name(name: &str) -> (code: Option<String>)
    ensures
        code.is_some() == named_fg_code(name@).is_some(),
        code.is_some() ==> code.unwrap()@ == named_fg_code(name@).unwrap(),
{
    match colored::Color::from_str(name) {
        Ok(c) => Some(c.to_fg_str().into_owned()),
        Err(_) => None,
    }
}

impl Color {
    /// The position of the colour among the eight of its brightness.
    pub open spec fn index(self) -> int {
        match self {
            Color::Black | Color::BrightBlack => 0,
            Color::Red | Color::BrightRed => 1,
            Color::Green | Color::BrightGreen => 2,
            Color::Yellow | Color::BrightYellow => 3,
            Color::Blue | Color::BrightBlue => 4,
            Color::Magenta | Color::BrightMagenta => 5,
            Color::Cyan | Color::BrightCyan => 6,
            Color::White | Color::BrightWhite => 7,
        }
    }

    /// Whether the colour is one of the eight bright variants.
    pub open spec fn bright(self) -> bool {
        match self {
            Color::BrightBlack
            | Color::BrightRed
            | Color::BrightGreen
            | Color::BrightYellow
            | Color::BrightBlue
            | Color::BrightMagenta
            | Color::BrightCyan
            | Color::BrightWhite => true,
            _ => false,
        }
    }

    /// The colour's name.
    pub open spec fn spec_name(self) -> Seq<char> {
        match self {
            Color::Black => "black"@,
            Color::Red => "red"@,
            Color::Green => "green"@,
            Color::Yellow => "yellow"@,
            Color::Blue => "blue"@,
            Color::Magenta => "magenta"@,
            Color::Cyan => "cyan"@,
            Color::White => "white"@,
            Color::BrightBlack => "bright black"@,
            Color::BrightRed => "bright red"@,
            Color::BrightGreen => "bright green"@,
            Color::BrightYellow => "bright yellow"@,
            Color::BrightBlue => "bright blue"@,
            Color::BrightMagenta => "bright magenta"@,
            Color::BrightCyan => "bright cyan"@,
            Color::BrightWhite => "bright white"@,
        }
    }

    /// The number of the colour's foreground parameter.
    pub open spec fn spec_fg_code(self) -> int {
        (if self.bright() { 90int } else { 30int }) + self.index()
    }

    /// The number that selects the colour as foreground in an escape
    /// sequence: 30 to 37 for the standard colours, 90 to 97 for the
    /// bright ones.
    pub fn fg_code(self) -> (code: u8)
        ensures
            code == self.spec_fg_code(),
    {
        match self {
            Color::Black => 30,
            Color::Red => 31,
            Color::Green => 32,
            Color::Yellow => 33,
            Color::Blue => 34,
            Color::Magenta => 35,
            Color::Cyan => 36,
            Color::White => 37,
            Color::BrightBlack => 90,
            Color::BrightRed => 91,
            Color::BrightGreen => 92,
            Color::BrightYellow => 93,
            Color::BrightBlue => 94,
            Color::BrightMagenta => 95,
            Color::BrightCyan => 96,
            Color::BrightWhite => 97,
        }
    }

    /// The name of the colour, in small letters, the bright variants with
    /// `bright` and a space before the name.
    pub fn name(self) -> (name: &'static str)
        ensures
            name@ == self.spec_name(),
    {
        match self {
            Color::Black => "black",
            Color::Red => "red",
            Color::Green => "green",
            Color::Yellow => "yellow",
            Color::Blue => "blue",
            Color::Magenta => "magenta",
            Color::Cyan => "cyan",
            Color::White => "white",
            Color::BrightBlack => "bright black",
            Color::BrightRed => "bright red",
            Color::BrightGreen => "bright green",
            Color::BrightYellow => "bright yellow",
            Color::BrightBlue => "bright blue",
            Color::BrightMagenta => "bright magenta",
            Color::BrightCyan => "bright cyan",
            Color::BrightWhite => "bright white",
        }
    }

    /// The colour with the given brightness and position, `None` for a
    /// position past the eighth.
    pub fn from_index(bright: bool, index: u8) -> (color: Option<Color>)
        ensures
            color == (if index < 8 { Some(color_at(bright, index as int)) } else { None }),
            index < 8 ==> color.unwrap().index() == index && color.unwrap().bright() == bright,
    {
        match (bright, index) {
            (false, 0) => Some(Color::Black),
            (false, 1) => Some(Color::Red),
            (false, 2) => Some(Color::Green),
            (false, 3) => Some(Color::Yellow),
            (false, 4) => Some(Color::Blue),
            (false, 5) => Some(Color::Magenta),
            (false, 6) => Some(Color::Cyan),
            (false, 7) => Some(Color::White),
            (true, 0) => Some(Color::BrightBlack),
            (true, 1) => Some(Color::BrightRed),
            (true, 2) => Some(Color::BrightGreen),
            (true, 3) => Some(Color::BrightYellow),
            (true, 4) => Some(Color::BrightBlue),
            (true, 5) => Some(Color::BrightMagenta),
            (true, 6) => Some(Color::BrightCyan),
            (true, 7) => Some(Color::BrightWhite),
            _ => None,
        }
    }

    /// Reads a foreground parameter written as text.
    pub fn from_fg_code(code: &str) -> (color: Option<Color>)
        ensures
            color == color_of_code(code@),
    {
        if code.unicode_len() != 2 {
            return None;
        }
        let tens: char = code.get_char(0);
        let units: char = code.get_char(1);
        if tens != '3' && tens != '9' {
            return None;
        }
        let index: u8 = if units == '0' {
            0
        } else if units == '1' {
            1
        } else if units == '2' {
            2
        } else if units == '3' {
            3
        } else if units == '4' {
            4
        } else if units == '5' {
            5
        } else if units == '6' {
            6
        } else if units == '7' {
            7
        } else {
            8
        };
        Color::from_index(tens == '9', index)
    }

    /// Resolves a colour name. The names are those that `colored` knows;
    /// a name that it does not know, or whose colour is none of the
    /// sixteen, resolves to `None`.
    pub fn from_name(name: &str) -> (color: Option<Color>)
        ensures
            color == color_of_name(name@),
    {
        match fg_code_of_name(name) {
            Some(code) => Color::from_fg_code(code.as_str()),
            None => None,
        }
    }
}

/// Every colour is the one at its own brightness and position, and no two
/// colours share a foreground parameter.
pub proof fn lemma_fg_code_identifies(a: Color, b: Color)
    ensures
        color_at(a.bright(), a.index()) == a,
        30 <= a.spec_fg_code() <= 37 || 90 <= a.spec_fg_code() <= 97,
        a.spec_fg_code() == b.spec_fg_code() ==> a == b,
{
}

} // verus!
