use vstd::prelude::*;

verus! {

/// The value held by one cell of the board.
///
/// `Shadow` is a marker used only for display hints; it never takes part in
/// play and has no opposite.
#[derive(Copy, Clone, PartialEq, Eq, Structural, Debug)]
pub enum Color {
    Empty,
    Black,
    White,
    Shadow,
}

impl Color {
    /// A color that a player places: Black or White.
    pub open spec fn is_disc(self) -> bool {
        self == Color::Black || self == Color::White
    }

    pub open spec fn opp(self) -> Color {
        match self {
            Color::Black => Color::White,
            Color::White => Color::Black,
            _ => self,
        }
    }

    pub fn is_empty(&self) -> (r: bool)
        ensures
            r == (*self == Color::Empty),
    {
        match self {
            Color::Empty => true,
            _ => false,
        }
    }

    pub fn opposite(&self) -> (r: Color)
        requires
            self.is_disc(),
        ensures
            r == self.opp(),
            r.is_disc(),
    {
        match self {
            Color::Black => Color::White,
            _ => Color::Black,
        }
    }
}

/// One-character name used when drawing the board.
pub fn color_short_name(color: Color) -> (r: String)
    ensures
        r@ == short_name(color),
{
    match color {
        Color::Empty => {
            proof { reveal_strlit(" "); }
            String::from_str(" ")
        },
        Color::Black => {
            proof { reveal_strlit("B"); }
            String::from_str("B")
        },
        Color::White => {
            proof { reveal_strlit("W"); }
            String::from_str("W")
        },
        Color::Shadow => {
            proof { reveal_strlit("."); }
            String::from_str(".")
        },
    }
}

/// The name of a color in words.
pub fn color_full_name(color: Color) -> (r: String)
    ensures
        r@ == full_name(color),
{
    match color {
        Color::Empty => {
            proof { reveal_strlit("Empty"); }
            String::from_str("Empty")
        },
        Color::Black => {
            proof { reveal_strlit("Black"); }
            String::from_str("Black")
        },
        Color::White => {
            proof { reveal_strlit("White"); }
            String::from_str("White")
        },
        Color::Shadow => {
            proof { reveal_strlit("Shadow"); }
            String::from_str("Shadow")
        },
    }
}

pub open spec fn full_name(color: Color) -> Seq<char> {
    match color {
        Color::Empty => seq!['E', 'm', 'p', 't', 'y'],
        Color::Black => seq!['B', 'l', 'a', 'c', 'k'],
        Color::White => seq!['W', 'h', 'i', 't', 'e'],
        Color::Shadow => seq!['S', 'h', 'a', 'd', 'o', 'w'],
    }
}

pub open spec fn short_name(color: Color) -> Seq<char> {
    match color {
        Color::Empty => seq![' '],
        Color::Black => seq!['B'],
        Color::White => seq!['W'],
        Color::Shadow => seq!['.'],
    }
}

} // verus!
