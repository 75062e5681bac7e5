//! Piece kinds and the two sides.

use vstd::prelude::*;

verus! {

/// The six kinds of chess piece.
#[derive(PartialEq, Eq, Structural, Copy, Clone, Debug)]
pub enum Piece {
    Pawn,
    Knight,
    Bishop,
    Rook,
    Queen,
    King,
}

/// The two sides.
#[derive(PartialEq, Eq, Structural, Copy, Clone, Debug)]
pub enum Color {
    Black,
    White,
}

impl Piece {
    /// The letter that stands for this kind in move notation.
    pub open spec fn letter(self) -> char {
        match self {
            Piece::Pawn => 'P',
            Piece::Knight => 'N',
            Piece::Bishop => 'B',
            Piece::Rook => 'R',
            Piece::Queen => 'Q',
            Piece::King => 'K',
        }
    }

    /// The place of this kind in `Piece::list()`.
    pub open spec fn ordinal(self) -> int {
        match self {
            Piece::Pawn => 0,
            Piece::Knight => 1,
            Piece::Bishop => 2,
            Piece::Rook => 3,
            Piece::Queen => 4,
            Piece::King => 5,
        }
    }

    /// The letter that stands for this kind in move notation.
    pub fn algebraic(self) -> (r: char)
        ensures
            r == self.letter(),
    {
        match self {
            Piece::Pawn => 'P',
            Piece::Knight => 'N',
            Piece::Bishop => 'B',
            Piece::Rook => 'R',
            Piece::Queen => 'Q',
            Piece::King => 'K',
        }
    }

    /// The kind that an upper-case letter of move notation stands for.
    pub fn from_algebraic(alg: char) -> (r: Option<Piece>)
        ensures
            r matches Some(p) ==> p.letter() == alg,
            r.is_none() ==> forall|p: Piece| p.letter() != alg,
    {
        match alg {
            'P' => Some(Piece::Pawn),
            'N' => Some(Piece::Knight),
            'B' => Some(Piece::Bishop),
            'R' => Some(Piece::Rook),
            'Q' => Some(Piece::Queen),
            'K' => Some(Piece::King),
            _ => None,
        }
    }

    /// All six kinds, from pawn to king.
    pub fn list() -> (r: [Piece; 6])
        ensures
            forall|p: Piece| r[p.ordinal()] == p,
    {
        [Piece::Pawn, Piece::Knight, Piece::Bishop, Piece::Rook, Piece::Queen, Piece::King]
    }
}

impl Color {
    /// The other side.
    pub open spec fn other(self) -> Color {
        match self {
            Color::White => Color::Black,
            Color::Black => Color::White,
        }
    }

    /// The change of rank when a pawn of this side advances one square.
    pub open spec fn forward(self) -> int {
        match self {
            Color::White => 1,
            Color::Black => -1,
        }
    }

    /// Both sides, Black first.
    pub fn list() -> (r: [Color; 2])
        ensures
            r[0] == Color::Black,
            r[1] == Color::White,
    {
        [Color::Black, Color::White]
    }

    /// The other side.
    pub fn opponent(self) -> (r: Color)
        ensures
            r == self.other(),
    {
        match self {
            Color::White => Color::Black,
            Color::Black => Color::White,
        }
    }

    /// The change of rank when a pawn of this side advances one square.
    pub fn advance_direction(self) -> (r: i32)
        ensures
            r == self.forward(),
    {
        match self {
            Color::White => 1,
            Color::Black => -1,
        }
    }
}

} // verus!
