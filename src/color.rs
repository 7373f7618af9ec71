//! The palette of cell colors.

use vstd::prelude::*;

verus! {

/// Number of colors in the palette.
pub const PALETTE_SIZE: u8 = 6;

/// One color of the fixed palette.
#[derive(Clone, Copy, Debug, PartialEq, Eq, Structural)]
pub enum Color {
    Blue,
    Green,
    Purple,
    Red,
    White,
    Yellow,
}

/// The color that palette position `n` stands for; every position past the
/// fifth is the last color.
pub open spec fn color_of_index(n: u8) -> Color {
    if n == 0 {
        Color::Blue
    } else if n == 1 {
        Color::Green
    } else if n == 2 {
        Color::Purple
    } else if n == 3 {
        Color::Red
    } else if n == 4 {
        Color::White
    } else {
        Color::Yellow
    }
}

/// The color that the key `k` selects, if any.
pub open spec fn color_of_key(k: char) -> Option<Color> {
    if k == 'b' {
        Some(Color::Blue)
    } else if k == 'g' {
        Some(Color::Green)
    } else if k == 'p' {
        Some(Color::Purple)
    } else if k == 'r' {
        Some(Color::Red)
    } else if k == 'w' {
        Some(Color::White)
    } else if k == 'y' {
        Some(Color::Yellow)
    } else {
        None
    }
}

/// The move that an input line asks for: one key followed by a newline.
pub open spec fn move_of_line(line: Seq<char>) -> Option<Color> {
    if line.len() == 2 && line[1] == '\n' {
        color_of_key(line[0])
    } else {
        None
    }
}

impl Color {
    /// Maps a palette position, as drawn uniformly from `0..PALETTE_SIZE`, to its color.
    pub fn from_index(n: u8) -> (c: Color)
        ensures
            c == color_of_index(n),
    {
        match n {
            0 => Color::Blue,
            1 => Color::Green,
            2 => Color::Purple,
            3 => Color::Red,
            4 => Color::White,
            _ => Color::Yellow,
        }
    }

    /// Reads a move from one line of input: `b`, `g`, `p`, `r`, `w` or `y`,
    /// then a newline. Any other line asks for no move.
    pub fn from_line(line: &str) -> (r: Option<Color>)
        ensures
            r == move_of_line(line@),
    {
        if line.unicode_len() != 2 || line.get_char(1) != '\n' {
            return None;
        }
        match line.get_char(0) {
            'b' => Some(Color::Blue),
            'g' => Some(Color::Green),
            'p' => Some(Color::Purple),
            'r' => Some(Color::Red),
            'w' => Some(Color::White),
            'y' => Some(Color::Yellow),
            _ => None,
        }
    }
}

} // verus!
