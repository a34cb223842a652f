//! The game domain: piece colors, the board, and board rendering.

pub mod board;
pub mod display;
pub mod field;

use vstd::prelude::*;

verus! {

/// The color of a piece, and of the player who owns it.
#[derive(Debug, Eq, PartialEq, Clone, Copy, PartialOrd, Ord, Hash, Structural)]
pub enum Color {
    Black,
    White,
}

impl Color {
    /// The opposing color.
    pub open spec fn other_spec(self) -> Color {
        match self {
            Color::Black => Color::White,
            Color::White => Color::Black,
        }
    }

    /// The opposing color.
    #[must_use]
    #[verifier::when_used_as_spec(other_spec)]
    pub fn other(self) -> (r: Color)
        ensures
            r == self.other_spec(),
    {
        match self {
            Color::Black => Color::White,
            Color::White => Color::Black,
        }
    }

    /// The single character that renders a piece of this color.
    pub open spec fn symbol_spec(self) -> char {
        match self {
            Color::Black => '\u{26ab}',
            Color::White => '\u{26aa}',
        }
    }

    /// The one-character string that renders a piece of this color:
    /// a white or a black circle.
    pub fn symbol(self) -> (r: &'static str)
        ensures
            r@ == seq![self.symbol_spec()],
    {
        match self {
            Color::Black => {
                let s = "\u{26ab}";
                proof {
                    reveal_strlit("\u{26ab}");
                }
                s
            },
            Color::White => {
                let s = "\u{26aa}";
                proof {
                    reveal_strlit("\u{26aa}");
                }
                s
            },
        }
    }
}

/// A color's one-letter tag.
impl From<Color> for char {
    fn from(color: Color) -> (r: char) {
        match color {
            Color::Black => 'B',
            Color::White => 'W',
        }
    }
}

impl vstd::std_specs::convert::FromSpecImpl<Color> for char {
    open spec fn obeys_from_spec() -> bool {
        true
    }

    open spec fn from_spec(color: Color) -> char {
        match color {
            Color::Black => 'B',
            Color::White => 'W',
        }
    }
}

pub broadcast proof fn lemma_other_involution(c: Color)
    ensures
        #[trigger] c.other_spec().other_spec() == c,
        c.other_spec() != c,
{
}

} // verus!
