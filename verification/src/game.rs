//! A game: the position reached, and the moves that led to it.

use crate::board::{initial_board, Board};
use crate::move_log::MoveLog;
use crate::moves::{AlgebraicMove, Move};
use crate::patterns::Tables;
use vstd::prelude::*;

verus! {

/// A game in progress.
pub struct Game {
    pub board: Board,
    pub log: MoveLog,
}

/// The position that the moves of `moves` from place `i` on lead to from
/// `board`, each taken as the move it means there; `None` where one of
/// them is not legal.
pub open spec fn replay(board: Board, moves: Seq<AlgebraicMove>, i: int) -> Option<Board>
    decreases moves.len() - i,
{
    if i < 0 || i >= moves.len() {
        Some(board)
    } else {
        match board.legal(moves[i]) {
            Ok(mv) => replay(board.apply_spec(mv), moves, i + 1),
            Err(_) => None,
        }
    }
}

/// The moves of `moves` but for the last; none where there is none.
pub open spec fn earlier(moves: Seq<AlgebraicMove>) -> Seq<AlgebraicMove> {
    if moves.len() == 0 {
        moves
    } else {
        moves.drop_last()
    }
}

impl Game {
    /// A game at its first move.
    pub fn new() -> (r: Game)
        ensures
            r.board == initial_board(),
            r.log.ply == 0,
            r.log.moves@ == Seq::<AlgebraicMove>::empty(),
    {
        Game { board: Board::initial(), log: MoveLog::new() }
    }

    /// Makes the move `mv` and writes it down as `alg`.
    pub fn make_move(&mut self, alg: &AlgebraicMove, mv: &Move)
        requires
            old(self).log.ply < i64::MAX,
        ensures
            final(self).board == old(self).board.apply_spec(*mv),
            final(self).log.ply == old(self).log.ply + 1,
            final(self).log.moves@ == old(self).log.moves@.push(*alg),
    {
        self.log.append(*alg);
        self.board = self.board.apply(mv);
    }

    /// The position that the first `n` moves of `moves` lead to from the
    /// start of a game; `None` where one of them is not legal.
    pub fn replayed(tables: &Tables, moves: &Vec<AlgebraicMove>, n: usize) -> (r: Option<Board>)
        requires
            n <= moves.len(),
            forall|i: int| 0 <= i < n ==> (#[trigger] moves[i]).valid(),
        ensures
            r == replay(initial_board(), moves@.take(n as int), 0),
    {
        let mut board = Board::initial();
        let mut i: usize = 0;
        let ghost played = moves@.take(n as int);
        while i < n
            invariant
                i <= n <= moves.len(),
                played == moves@.take(n as int),
                forall|i: int| 0 <= i < n ==> (#[trigger] moves[i]).valid(),
                replay(initial_board(), played, 0) == replay(board, played, i as int),
            decreases n - i,
        {
            assert(played[i as int] == moves[i as int]);
            match board.is_legal(tables, &moves[i]) {
                Ok(mv) => {
                    board = board.apply(&mv);
                },
                Err(_) => {
                    return None;
                },
            }
            i += 1;
        }
        Some(board)
    }

    /// Takes back the last move: the position becomes the one that the
    /// moves before it lead to from the start of a game.
    pub fn undo_last_move(&mut self, tables: &Tables)
        requires
            old(self).log.ply > 0,
            forall|i: int|
                0 <= i < old(self).log.moves.len() ==> (#[trigger] old(self).log.moves[i]).valid(),
            replay(initial_board(), earlier(old(self).log.moves@), 0) is Some,
        ensures
            final(self).log.ply == old(self).log.ply - 1,
            final(self).log.moves@ == earlier(old(self).log.moves@),
            Some(final(self).board) == replay(initial_board(), final(self).log.moves@, 0),
    {
        self.log.ply = self.log.ply - 1;
        self.log.moves.pop();
        proof {
            assert(self.log.moves@ =~= earlier(old(self).log.moves@));
            assert(self.log.moves@.take(self.log.moves.len() as int) =~= self.log.moves@);
        }
        match Game::replayed(tables, &self.log.moves, self.log.moves.len()) {
            Some(board) => {
                self.board = board;
            },
            None => {},
        }
    }
}

} // verus!
