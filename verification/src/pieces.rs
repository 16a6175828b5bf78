//! Sides, piece kinds, and the occupant of a square.

use vstd::prelude::*;

verus! {

/// One of the two sides of the game.
#[derive(Clone, Copy, Debug, PartialEq, Eq, Structural)]
pub enum Color {
    Black,
    White,
}

impl Color {
    /// The side opposite to `self`.
    pub open spec fn spec_other(self) -> Color {
        match self {
            Color::Black => Color::White,
            Color::White => Color::Black,
        }
    }

    /// Returns the opposite side.
    pub fn other(&self) -> (r: Color)
        ensures
            r == self.spec_other(),
    {
        match *self {
            Color::Black => Color::White,
            Color::White => Color::Black,
        }
    }
}

/// A piece kind; `Empty` stands for a vacant square.
#[derive(Clone, Copy, Debug, PartialEq, Eq, Structural)]
pub enum Piece {
    Bishop,
    Empty,
    King,
    Knight,
    Pawn,
    Queen,
    Rook,
}

impl Piece {
    /// The material value of the piece. The king is worth nothing because
    /// its capture ends the game rather than adding to a score.
    pub open spec fn spec_value(self) -> nat {
        match self {
            Piece::Empty => 0,
            Piece::King => 0,
            Piece::Pawn => 1,
            Piece::Bishop => 3,
            Piece::Knight => 3,
            Piece::Rook => 5,
            Piece::Queen => 9,
        }
    }

    /// Returns the material value of the piece.
    pub fn value(&self) -> (r: usize)
        ensures
            r == self.spec_value(),
    {
        match *self {
            Piece::Empty => 0,
            Piece::King => 0,
            Piece::Pawn => 1,
            Piece::Bishop => 3,
            Piece::Knight => 3,
            Piece::Rook => 5,
            Piece::Queen => 9,
        }
    }
}

/// What sits on a square: a side together with a piece kind.
pub type ColorPiece = (Color, Piece);

/// The canonical empty occupant. The color of an empty occupant is a
/// leftover default and carries no meaning.
pub open spec fn empty_occ() -> ColorPiece {
    (Color::White, Piece::Empty)
}

} // verus!
