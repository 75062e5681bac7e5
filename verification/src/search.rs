//! Looking ahead: the best score a side can force within a number of
//! moves, found without looking at lines that cannot matter.

use crate::board::Board;
use crate::eval::{scores_of, Evaluator};
use crate::moves::Move;
use crate::patterns::Tables;
use crate::piece::Color;
use vstd::prelude::*;
use vstd::wrapping::i64_specs::wrapping_add;

verus! {

/// The larger of two scores.
pub open spec fn max_score(a: i64, b: i64) -> i64 {
    if a >= b {
        a
    } else {
        b
    }
}

/// The smaller of two scores.
pub open spec fn min_score(a: i64, b: i64) -> i64 {
    if a <= b {
        a
    } else {
        b
    }
}

/// The score that is worst for side `c`: any other is at least as good.
pub open spec fn worst_for(c: Color) -> i64 {
    match c {
        Color::White => i64::MIN,
        Color::Black => i64::MAX,
    }
}

/// The better of two scores for side `c`.
pub open spec fn better_for(c: Color, a: i64, b: i64) -> i64 {
    match c {
        Color::White => max_score(a, b),
        Color::Black => min_score(a, b),
    }
}

/// The score of a position in which the side to move has no move at all:
/// the worst score for that side where its king is attacked, else 0.
pub open spec fn stuck_score(pos: Board) -> i64 {
    if pos.in_check_spec(pos.player) {
        worst_for(pos.player)
    } else {
        0
    }
}

/// The score of `pos` when both sides look `depth` moves ahead and each
/// picks what is best for it: `player` at this position, the other side
/// at the next, and so on. At depth 0 it is the score that `f` gives.
pub open spec fn minimax(f: spec_fn(Board) -> i64, pos: Board, player: Color, depth: nat) -> i64
    decreases depth, 1nat, 0nat,
{
    if depth == 0 {
        f(pos)
    } else {
        let moves = pos.pre_legal_moves_spec();
        if moves.len() == 0 {
            stuck_score(pos)
        } else {
            best_reply(f, pos, player, depth, moves, 0)
        }
    }
}

/// The best score for `player` among the moves of `moves` from place `i` on.
pub open spec fn best_reply(
    f: spec_fn(Board) -> i64,
    pos: Board,
    player: Color,
    depth: nat,
    moves: Seq<Move>,
    i: int,
) -> i64
    decreases depth, 0nat, moves.len() - i,
{
    if depth == 0 || i < 0 || i >= moves.len() {
        worst_for(player)
    } else {
        better_for(
            player,
            minimax(f, pos.apply_spec(moves[i]), player.other(), (depth - 1) as nat),
            best_reply(f, pos, player, depth, moves, i + 1),
        )
    }
}

/// What the search returns for `pos` within the window from `alpha` to
/// `beta`. At depth 0 it is the score that `f` gives. Else the moves are
/// tried in order; after each, the search stops as soon as the best score
/// found for White is at least `beta`, or for Black at most `alpha`, and
/// otherwise narrows the window by the score of the move.
pub open spec fn alphabeta(
    f: spec_fn(Board) -> i64,
    pos: Board,
    player: Color,
    depth: nat,
    alpha: i64,
    beta: i64,
) -> i64
    decreases depth, 1nat, 0nat,
{
    if depth == 0 {
        f(pos)
    } else {
        let moves = pos.pre_legal_moves_spec();
        if moves.len() == 0 {
            stuck_score(pos)
        } else {
            alphabeta_from(f, pos, player, depth, moves, 0, worst_for(player), alpha, beta)
        }
    }
}

/// What the search returns once it has tried the moves before place `i`
/// with `best` as the best score so far and the window narrowed to
/// `alpha` and `beta`.
pub open spec fn alphabeta_from(
    f: spec_fn(Board) -> i64,
    pos: Board,
    player: Color,
    depth: nat,
    moves: Seq<Move>,
    i: int,
    best: i64,
    alpha: i64,
    beta: i64,
) -> i64
    decreases depth, 0nat, moves.len() - i,
{
    if depth == 0 || i < 0 || i >= moves.len() {
        best
    } else {
        let score = alphabeta(
            f,
            pos.apply_spec(moves[i]),
            player.other(),
            (depth - 1) as nat,
            alpha,
            beta,
        );
        let now = better_for(player, score, best);
        match player {
            Color::White => if now >= beta {
                now
            } else {
                alphabeta_from(
                    f,
                    pos,
                    player,
                    depth,
                    moves,
                    i + 1,
                    now,
                    max_score(alpha, score),
                    beta,
                )
            },
            Color::Black => if now <= alpha {
                now
            } else {
                alphabeta_from(
                    f,
                    pos,
                    player,
                    depth,
                    moves,
                    i + 1,
                    now,
                    alpha,
                    min_score(beta, score),
                )
            },
        }
    }
}

/// The number of positions the search looks at for `pos`: the position
/// itself and, below depth 0, those looked at for each move it tries.
pub open spec fn searched(
    f: spec_fn(Board) -> i64,
    pos: Board,
    player: Color,
    depth: nat,
    alpha: i64,
    beta: i64,
) -> nat
    decreases depth, 1nat, 0nat,
{
    if depth == 0 {
        1
    } else {
        let moves = pos.pre_legal_moves_spec();
        1 + searched_from(f, pos, player, depth, moves, 0, worst_for(player), alpha, beta)
    }
}

/// The number of positions the search looks at for the moves from place
/// `i` on.
pub open spec fn searched_from(
    f: spec_fn(Board) -> i64,
    pos: Board,
    player: Color,
    depth: nat,
    moves: Seq<Move>,
    i: int,
    best: i64,
    alpha: i64,
    beta: i64,
) -> nat
    decreases depth, 0nat, moves.len() - i,
{
    if depth == 0 || i < 0 || i >= moves.len() {
        0
    } else {
        let next = pos.apply_spec(moves[i]);
        let here = searched(f, next, player.other(), (depth - 1) as nat, alpha, beta);
        let score = alphabeta(f, next, player.other(), (depth - 1) as nat, alpha, beta);
        let now = better_for(player, score, best);
        match player {
            Color::White => if now >= beta {
                here
            } else {
                here + searched_from(
                    f,
                    pos,
                    player,
                    depth,
                    moves,
                    i + 1,
                    now,
                    max_score(alpha, score),
                    beta,
                )
            },
            Color::Black => if now <= alpha {
                here
            } else {
                here + searched_from(
                    f,
                    pos,
                    player,
                    depth,
                    moves,
                    i + 1,
                    now,
                    alpha,
                    min_score(beta, score),
                )
            },
        }
    }
}

/// The number of positions that the search without a window looks at
/// for `pos`: the position itself, and below depth 0 those it looks at
/// for each move, and those that the search with the widest window
/// looks at for `pos`, which it runs to hold its result against.
pub open spec fn searched_naive(f: spec_fn(Board) -> i64, pos: Board, player: Color, depth: nat) -> nat
    decreases depth, 1nat, 0nat,
{
    if depth == 0 {
        1
    } else {
        let moves = pos.pre_legal_moves_spec();
        1 + searched_naive_from(f, pos, player, depth, moves, 0) + searched(
            f,
            pos,
            player,
            depth,
            i64::MIN,
            i64::MAX,
        )
    }
}

/// The number of positions that the search without a window looks at
/// for the moves from place `i` on.
pub open spec fn searched_naive_from(
    f: spec_fn(Board) -> i64,
    pos: Board,
    player: Color,
    depth: nat,
    moves: Seq<Move>,
    i: int,
) -> nat
    decreases depth, 0nat, moves.len() - i,
{
    if depth == 0 || i < 0 || i >= moves.len() {
        0
    } else {
        searched_naive(f, pos.apply_spec(moves[i]), player.other(), (depth - 1) as nat)
            + searched_naive_from(f, pos, player, depth, moves, i + 1)
    }
}

/// The best score for `player` among `best` and the moves of `moves`
/// from place `i` on.
pub open spec fn best_with(
    f: spec_fn(Board) -> i64,
    pos: Board,
    player: Color,
    depth: nat,
    moves: Seq<Move>,
    i: int,
    best: i64,
) -> i64 {
    better_for(player, best, best_reply(f, pos, player, depth, moves, i))
}

/// A counter that stood at `c` after `n` more steps of one, each
/// wrapping round from the largest value to the smallest.
pub open spec fn count_after(c: i64, n: nat) -> i64
    decreases n,
{
    if n == 0 {
        c
    } else {
        wrapping_add(count_after(c, (n - 1) as nat), 1)
    }
}

proof fn lemma_count_after(c: i64, m: nat, n: nat)
    ensures
        count_after(count_after(c, m), n) == count_after(c, m + n),
    decreases n,
{
    if n > 0 {
        lemma_count_after(c, m, (n - 1) as nat);
    }
}

/// Within a window that is not empty, the search is as good as looking
/// at every line: a result inside the window is the score that looking at
/// every line gives, and a result at or beyond an edge of the window says
/// that this score lies at or beyond the same edge.
pub proof fn lemma_alphabeta_bounds(
    f: spec_fn(Board) -> i64,
    pos: Board,
    player: Color,
    depth: nat,
    alpha: i64,
    beta: i64,
)
    requires
        alpha < beta,
    ensures
        ({
            let r = alphabeta(f, pos, player, depth, alpha, beta);
            let v = minimax(f, pos, player, depth);
            &&& alpha < r < beta ==> r == v
            &&& r <= alpha ==> v <= alpha
            &&& r >= beta ==> v >= beta
        }),
    decreases depth, 1nat, 0nat,
{
    if depth > 0 {
        let moves = pos.pre_legal_moves_spec();
        if moves.len() > 0 {
            lemma_alphabeta_from(f, pos, player, depth, moves, 0, worst_for(player), alpha, beta);
        }
    }
}

/// The same, part way through the moves of a position: `best` is the
/// best score so far and lies at or beyond the edge of the window that
/// `player` has been moving.
proof fn lemma_alphabeta_from(
    f: spec_fn(Board) -> i64,
    pos: Board,
    player: Color,
    depth: nat,
    moves: Seq<Move>,
    i: int,
    best: i64,
    alpha: i64,
    beta: i64,
)
    requires
        depth > 0,
        0 <= i <= moves.len(),
        alpha < beta,
        player == Color::White ==> best <= alpha,
        player == Color::Black ==> best >= beta,
    ensures
        ({
            let r = alphabeta_from(f, pos, player, depth, moves, i, best, alpha, beta);
            let v = best_reply(f, pos, player, depth, moves, i);
            &&& player == Color::White ==> r >= best
            &&& player == Color::Black ==> r <= best
            &&& alpha < r < beta ==> r == v
            &&& r <= alpha ==> v <= alpha
            &&& r >= beta ==> v >= beta
        }),
    decreases depth, 0nat, moves.len() - i,
{
    if i < moves.len() {
        let next = pos.apply_spec(moves[i]);
        let d = (depth - 1) as nat;
        let score = alphabeta(f, next, player.other(), d, alpha, beta);
        let now = better_for(player, score, best);
        lemma_alphabeta_bounds(f, next, player.other(), d, alpha, beta);
        match player {
            Color::White => {
                if now < beta {
                    lemma_alphabeta_from(
                        f,
                        pos,
                        player,
                        depth,
                        moves,
                        i + 1,
                        now,
                        max_score(alpha, score),
                        beta,
                    );
                }
            },
            Color::Black => {
                if now > alpha {
                    lemma_alphabeta_from(
                        f,
                        pos,
                        player,
                        depth,
                        moves,
                        i + 1,
                        now,
                        alpha,
                        min_score(beta, score),
                    );
                }
            },
        }
    }
}

/// A side to move that has no move at all is scored as mated where its
/// king is attacked, and else as drawn, at every depth above 0 and
/// within every window.
pub proof fn lemma_stuck_position(
    f: spec_fn(Board) -> i64,
    pos: Board,
    player: Color,
    depth: nat,
    alpha: i64,
    beta: i64,
)
    requires
        depth > 0,
        pos.pre_legal_moves_spec().len() == 0,
    ensures
        alphabeta(f, pos, player, depth, alpha, beta) == stuck_score(pos),
        minimax(f, pos, player, depth) == stuck_score(pos),
        pos.in_check_spec(pos.player) ==> stuck_score(pos) == worst_for(pos.player),
        !pos.in_check_spec(pos.player) ==> stuck_score(pos) == 0,
{
}

/// With the widest window the search returns the score that looking at
/// every line gives.
pub proof fn lemma_full_window(f: spec_fn(Board) -> i64, pos: Board, player: Color, depth: nat)
    ensures
        alphabeta(f, pos, player, depth, i64::MIN, i64::MAX) == minimax(f, pos, player, depth),
{
    lemma_alphabeta_bounds(f, pos, player, depth, i64::MIN, i64::MAX);
}

/// A search to a fixed depth with the evaluator `evaluator`.
/// `searched_positions` counts the positions looked at.
pub struct IDAB<Ev: Evaluator> {
    pub evaluator: Ev,
    pub searched_positions: i64,
}

impl<Ev: Evaluator> IDAB<Ev> {
    /// A search that has not yet looked at any position.
    pub fn new(evaluator: Ev) -> (r: IDAB<Ev>)
        ensures
            r.evaluator == evaluator,
            r.searched_positions == 0,
    {
        IDAB { evaluator, searched_positions: 0 }
    }

    /// The score of `pos` for `player` to move, looking `depth` moves
    /// ahead within the window from `alpha` to `beta`. The search calls
    /// itself once for each move it looks ahead, so never more than
    /// `depth` calls deep.
    pub fn evaluate(
        &mut self,
        tables: &Tables,
        pos: Board,
        player: Color,
        depth: u64,
        alpha: i64,
        beta: i64,
    ) -> (r: i64)
        ensures
            r == alphabeta(scores_of(old(self).evaluator), pos, player, depth as nat, alpha, beta),
            scores_of(final(self).evaluator) == scores_of(old(self).evaluator),
            final(self).searched_positions == count_after(
                old(self).searched_positions,
                searched(scores_of(old(self).evaluator), pos, player, depth as nat, alpha, beta),
            ),
        decreases depth,
    {
        let ghost f = scores_of(old(self).evaluator);
        let ghost start = old(self).searched_positions;
        self.searched_positions = self.searched_positions.wrapping_add(1);
        proof {
            assert(count_after(start, 0) == start);
            assert(count_after(start, 1) == wrapping_add(start, 1));
        }
        if depth == 0 {
            let r = self.evaluator.evaluate(&pos);
            proof {
                assert(scores_of(self.evaluator) =~= f);
            }
            return r;
        }
        let mut moves: Vec<Move> = Vec::with_capacity(32);
        pos.pre_legal_moves(tables, &mut moves);
        assert(moves@ =~= pos.pre_legal_moves_spec());
        if moves.len() == 0 {
            return if pos.in_check(tables, pos.player) {
                match pos.player {
                    Color::White => i64::MIN,
                    Color::Black => i64::MAX,
                }
            } else {
                0
            };
        }
        let mut best = match player {
            Color::Black => i64::MAX,
            Color::White => i64::MIN,
        };
        let mut alpha = alpha;
        let mut beta = beta;
        let mut i: usize = 0;
        let mut cut = false;
        let ghost goal = alphabeta(f, pos, player, depth as nat, alpha, beta);
        let ghost total = searched(f, pos, player, depth as nat, alpha, beta);
        let ghost mut seen: nat = 1;
        while i < moves.len() && !cut
            invariant
                depth > 0,
                i <= moves.len(),
                scores_of(self.evaluator) == f,
                self.searched_positions == count_after(start, seen),
                !cut ==> goal == alphabeta_from(
                    f,
                    pos,
                    player,
                    depth as nat,
                    moves@,
                    i as int,
                    best,
                    alpha,
                    beta,
                ),
                !cut ==> total == seen + searched_from(
                    f,
                    pos,
                    player,
                    depth as nat,
                    moves@,
                    i as int,
                    best,
                    alpha,
                    beta,
                ),
                cut ==> goal == best && total == seen,
            decreases moves.len() - i + (if cut { 0int } else { 1int }),
        {
            let new_pos = pos.apply(&moves[i]);
            let score = self.evaluate(tables, new_pos, player.opponent(), depth - 1, alpha, beta);
            proof {
                let here = searched(f, new_pos, player.other(), (depth - 1) as nat, alpha, beta);
                lemma_count_after(start, seen, here);
                seen = seen + here;
            }
            match player {
                Color::White => {
                    if score > best {
                        best = score;
                    }
                    if best >= beta {
                        cut = true;
                    } else if score > alpha {
                        alpha = score;
                    }
                },
                Color::Black => {
                    if score < best {
                        best = score;
                    }
                    if best <= alpha {
                        cut = true;
                    } else if score < beta {
                        beta = score;
                    }
                },
            }
            i += 1;
        }
        best
    }

    /// The score of `pos` for `player` to move, looking `depth` moves
    /// ahead at every line. The search with the widest window is run
    /// beside it at every position; the two always agree.
    pub fn evaluate_naive(&mut self, tables: &Tables, pos: Board, player: Color, depth: u64) -> (r:
        i64)
        ensures
            r == minimax(scores_of(old(self).evaluator), pos, player, depth as nat),
            r == alphabeta(
                scores_of(old(self).evaluator),
                pos,
                player,
                depth as nat,
                i64::MIN,
                i64::MAX,
            ),
            scores_of(final(self).evaluator) == scores_of(old(self).evaluator),
            final(self).searched_positions == count_after(
                old(self).searched_positions,
                searched_naive(scores_of(old(self).evaluator), pos, player, depth as nat),
            ),
        decreases depth,
    {
        let ghost f = scores_of(old(self).evaluator);
        let ghost start = old(self).searched_positions;
        proof {
            lemma_full_window(f, pos, player, depth as nat);
            assert(count_after(start, 0) == start);
            assert(count_after(start, 1) == wrapping_add(start, 1));
        }
        self.searched_positions = self.searched_positions.wrapping_add(1);
        if depth == 0 {
            let r = self.evaluator.evaluate(&pos);
            proof {
                assert(scores_of(self.evaluator) =~= f);
            }
            return r;
        }
        let mut best = match player {
            Color::Black => i64::MAX,
            Color::White => i64::MIN,
        };
        let mut moves: Vec<Move> = Vec::with_capacity(32);
        pos.pre_legal_moves(tables, &mut moves);
        assert(moves@ =~= pos.pre_legal_moves_spec());
        let mut i: usize = 0;
        let ghost mut seen: nat = 1;
        let ghost total = searched_naive_from(f, pos, player, depth as nat, moves@, 0);
        while i < moves.len()
            invariant
                depth > 0,
                i <= moves.len(),
                scores_of(self.evaluator) == f,
                self.searched_positions == count_after(start, seen),
                seen + searched_naive_from(f, pos, player, depth as nat, moves@, i as int) == 1
                    + total,
                best_with(f, pos, player, depth as nat, moves@, i as int, best) == best_reply(
                    f,
                    pos,
                    player,
                    depth as nat,
                    moves@,
                    0,
                ),
            decreases moves.len() - i,
        {
            let new_pos = pos.apply(&moves[i]);
            let score = self.evaluate_naive(tables, new_pos, player.opponent(), depth - 1);
            proof {
                let here = searched_naive(f, new_pos, player.other(), (depth - 1) as nat);
                lemma_count_after(start, seen, here);
                seen = seen + here;
            }
            match player {
                Color::White => {
                    if score > best {
                        best = score;
                    }
                },
                Color::Black => {
                    if score < best {
                        best = score;
                    }
                },
            }
            i += 1;
        }
        let with_window = self.evaluate(tables, pos, player, depth, i64::MIN, i64::MAX);
        proof {
            lemma_count_after(
                start,
                seen,
                searched(f, pos, player, depth as nat, i64::MIN, i64::MAX),
            );
        }
        if moves.len() == 0 {
            with_window
        } else {
            best
        }
    }
}

} // verus!
