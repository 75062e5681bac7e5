//! Scoring a position without looking ahead.

use crate::board::Board;
use crate::piece::{Color, Piece};
use crate::utils::group_bits;
use vstd::prelude::*;

verus! {

broadcast use group_bits;

/// Gives every position a score: the higher, the better for White.
pub trait Evaluator {
    /// The score of `board`.
    spec fn score(&self, board: Board) -> i64;

    /// The score of `board`. Whatever else the evaluator does, it goes on
    /// giving every position the same score.
    fn evaluate(&mut self, board: &Board) -> (r: i64)
        ensures
            r == old(self).score(*board),
            forall|b: Board| #[trigger] final(self).score(b) == old(self).score(b),
    ;
}

/// The scores of an evaluator, as a function of the position.
pub open spec fn scores_of<Ev: Evaluator>(ev: Ev) -> spec_fn(Board) -> i64 {
    |b: Board| ev.score(b)
}

/// Scores a position by the pieces on it.
pub struct MaterialCount();

/// What a piece of kind `p` is worth. The king is worth more than all
/// the other pieces of a board together.
pub open spec fn value_of(p: Piece) -> int {
    match p {
        Piece::Pawn => 100,
        Piece::Knight => 320,
        Piece::Bishop => 330,
        Piece::Rook => 500,
        Piece::Queen => 900,
        Piece::King => 0xffff_ffff,
    }
}

/// The kind of piece in place `n` of `Piece::list()`.
pub open spec fn kind_at(n: int) -> Piece {
    if n == 0 {
        Piece::Pawn
    } else if n == 1 {
        Piece::Knight
    } else if n == 2 {
        Piece::Bishop
    } else if n == 3 {
        Piece::Rook
    } else if n == 4 {
        Piece::Queen
    } else {
        Piece::King
    }
}

/// How many more pieces of kind `p` White has than Black, times the
/// worth of the kind.
pub open spec fn balance(board: Board, p: Piece) -> int {
    value_of(p) * (board.men(Color::White, p).len() - board.men(Color::Black, p).len())
}

/// The balance of the first `n` kinds of piece, added up.
pub open spec fn material_upto(board: Board, n: int) -> int
    decreases n,
{
    if n <= 0 {
        0
    } else {
        material_upto(board, n - 1) + balance(board, kind_at(n - 1))
    }
}

/// For each kind of piece, how many more White has than Black, times the
/// worth of the kind; all six added up.
pub open spec fn material(board: Board) -> int {
    material_upto(board, 6)
}

fn piece_value(p: Piece) -> (r: i64)
    ensures
        r == value_of(p),
        0 < r <= 0xffff_ffff,
{
    match p {
        Piece::Pawn => 100,
        Piece::Knight => 320,
        Piece::Bishop => 330,
        Piece::Rook => 500,
        Piece::Queen => 900,
        Piece::King => 0xffff_ffff,
    }
}

proof fn lemma_balance_bound(v: int, d: int)
    by (nonlinear_arith)
    requires
        0 < v <= 0xffff_ffff,
        -64 <= d <= 64,
    ensures
        -274877906880 <= v * d <= 274877906880,
{
}

impl Evaluator for MaterialCount {
    open spec fn score(&self, board: Board) -> i64 {
        material(board) as i64
    }

    fn evaluate(&mut self, board: &Board) -> (r: i64)
        ensures
            r == material(*board),
    {
        let mut count: i64 = 0;
        let kinds = Piece::list();
        let mut n: usize = 0;
        while n < 6
            invariant
                n <= 6,
                forall|p: Piece| #[trigger] kinds[p.ordinal()] == p,
                count == material_upto(*board, n as int),
                -274877906880 * n <= count <= 274877906880 * n,
            decreases 6 - n,
        {
            let piece = kinds[n];
            assert(piece == kind_at(n as int)) by {
                assert(kinds[Piece::Pawn.ordinal()] == Piece::Pawn);
                assert(kinds[Piece::Knight.ordinal()] == Piece::Knight);
                assert(kinds[Piece::Bishop.ordinal()] == Piece::Bishop);
                assert(kinds[Piece::Rook.ordinal()] == Piece::Rook);
                assert(kinds[Piece::Queen.ordinal()] == Piece::Queen);
                assert(kinds[Piece::King.ordinal()] == Piece::King);
            }
            let v = piece_value(piece);
            let white = (board.piece_set(piece) & board.color_set(Color::White)).popcnt();
            let black = (board.piece_set(piece) & board.color_set(Color::Black)).popcnt();
            let diff: i32 = white - black;
            proof {
                assert(board.kind(piece)@.intersect(board.side(Color::White)@) =~= board.men(
                    Color::White,
                    piece,
                ));
                assert(board.kind(piece)@.intersect(board.side(Color::Black)@) =~= board.men(
                    Color::Black,
                    piece,
                ));
                assert(-274877906880 <= v * diff <= 274877906880) by {
                    lemma_balance_bound(v as int, diff as int);
                }
                assert(v * diff == balance(*board, piece));
            }
            let term: i64 = v * (diff as i64);
            count = count + term;
            n += 1;
        }
        count
    }
}

} // verus!
