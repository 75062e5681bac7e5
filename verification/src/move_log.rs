//! The moves of a game, as the players wrote them.

use crate::moves::AlgebraicMove;
use vstd::prelude::*;

verus! {

/// The moves made so far, and the number of the half-move that comes next.
pub struct MoveLog {
    pub ply: i64,
    pub moves: Vec<AlgebraicMove>,
}

impl MoveLog {
    /// The log of a game in which no move has been made.
    pub fn new() -> (r: MoveLog)
        ensures
            r.ply == 0,
            r.moves@ == Seq::<AlgebraicMove>::empty(),
    {
        MoveLog { ply: 0, moves: Vec::new() }
    }

    /// Writes down one more move.
    pub fn append(&mut self, mv: AlgebraicMove)
        requires
            old(self).ply < i64::MAX,
        ensures
            final(self).ply == old(self).ply + 1,
            final(self).moves@ == old(self).moves@.push(mv),
    {
        self.ply = self.ply + 1;
        self.moves.push(mv);
    }
}

} // verus!
