use vstd::prelude::*;

verus! {

/// The color of a stone, and of the player who owns it.
#[derive(Clone, Copy, Debug, PartialEq, Eq, Structural, Hash)]
pub enum Color {
    Black,
    White,
}

impl Color {
    /// The other player's color.
    pub open spec fn other(self) -> Color {
        match self {
            Color::Black => Color::White,
            Color::White => Color::Black,
        }
    }

    /// Returns the other player's color.
    pub fn opponent(self) -> (r: Color)
        ensures
            r == self.other(),
    {
        match self {
            Color::Black => Color::White,
            Color::White => Color::Black,
        }
    }
}

} // verus!
