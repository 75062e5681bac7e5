//! Squares of the board, and how they are numbered inside a 64-bit set.
//!
//! A square is a file `x` (0 is the a-file) and a rank `y` (0 is White's
//! back rank). Inside a set it is bit `63 - x - 8 * y`, so a1 is bit 63 and
//! h8 is bit 0.

use vstd::prelude::*;

verus! {

/// File `x` and rank `y` both lie on the board.
pub open spec fn on_board(x: int, y: int) -> bool {
    0 <= x < 8 && 0 <= y < 8
}

/// The bit that stands for the square on file `x` and rank `y`.
pub open spec fn square_at(x: int, y: int) -> int {
    63 - x - 8 * y
}

/// The file of the square that bit `i` stands for.
pub open spec fn file_of(i: int) -> int {
    7 - i % 8
}

/// The rank of the square that bit `i` stands for.
pub open spec fn rank_of(i: int) -> int {
    7 - i / 8
}

/// Bits and squares correspond one to one.
pub proof fn lemma_square_numbering()
    ensures
        forall|i: int|
            0 <= i < 64 ==> on_board(#[trigger] file_of(i), rank_of(i)) && square_at(
                file_of(i),
                rank_of(i),
            ) == i,
        forall|x: int, y: int|
            on_board(x, y) ==> 0 <= #[trigger] square_at(x, y) < 64 && file_of(square_at(x, y))
                == x && rank_of(square_at(x, y)) == y,
{
}

/// A square of the board.
#[derive(Copy, Clone, PartialEq, Eq, Structural, Debug)]
pub struct Square {
    pub x: u8,
    pub y: u8,
}

/// A whole file (`AtX`) or a whole rank (`AtY`).
#[derive(Copy, Clone, PartialEq, Eq, Structural, Debug)]
pub enum Line {
    AtX(u8),
    AtY(u8),
}

impl Square {
    /// The square lies on the board.
    pub open spec fn valid(self) -> bool {
        self.x < 8 && self.y < 8
    }

    /// The bit that stands for this square.
    pub open spec fn spec_index(self) -> int {
        square_at(self.x as int, self.y as int)
    }

    /// The square on file `x` and rank `y`, if there is one.
    pub fn xy_checked(x: i32, y: i32) -> (r: Option<Square>)
        ensures
            r.is_some() <==> on_board(x as int, y as int),
            r matches Some(sq) ==> sq.x == x && sq.y == y,
    {
        if x < 0 || y < 0 || x >= 8 || y >= 8 {
            None
        } else {
            Some(Square { x: x as u8, y: y as u8 })
        }
    }

    /// The square on file `x` and rank `y`.
    pub fn xy(x: i32, y: i32) -> (r: Square)
        requires
            on_board(x as int, y as int),
        ensures
            r.x == x,
            r.y == y,
            r.valid(),
    {
        Square { x: x as u8, y: y as u8 }
    }

    /// The square named by a file letter `a` to `h` and a rank counted from 0.
    pub fn algebraic(file: char, rank: u8) -> (r: Option<Square>)
        ensures
            r.is_some() <==> ('a' <= file <= 'h' && rank < 8),
            r matches Some(sq) ==> sq.x == file as u32 - 'a' as u32 && sq.y == rank,
    {
        let code: u32 = file as u32;
        if code < 97 || code > 104 {
            None
        } else {
            Square::xy_checked((code - 97) as i32, rank as i32)
        }
    }

    /// The bit that stands for this square.
    pub fn index(self) -> (r: u64)
        requires
            self.valid(),
        ensures
            r == self.spec_index(),
            r < 64,
    {
        (63 - self.x - self.y * 8) as u64
    }
}

/// One step east: towards the h-file.
pub const E: (i32, i32) = (1, 0);

/// One step north-east.
pub const NE: (i32, i32) = (1, 1);

/// One step north: towards Black's back rank.
pub const N: (i32, i32) = (0, 1);

/// One step north-west.
pub const NW: (i32, i32) = (-1, 1);

/// One step west: towards the a-file.
pub const W: (i32, i32) = (-1, 0);

/// One step south-west.
pub const SW: (i32, i32) = (-1, -1);

/// One step south: towards White's back rank.
pub const S: (i32, i32) = (0, -1);

/// One step south-east.
pub const SE: (i32, i32) = (1, -1);

} // verus!
