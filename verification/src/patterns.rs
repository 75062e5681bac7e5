//! Where each kind of piece can go from each square, worked out once and
//! kept in tables.

use crate::bitboard::Bitboard;
use crate::coords::{file_of, rank_of, square_at, Line, Square};
use crate::piece::Color;
use crate::utils::{bit, group_bits, lemma_bits_injective, lemma_bits_zero};
use vstd::prelude::*;

verus! {

broadcast use group_bits;

/// The square, if any, that lies `dx` files and `dy` ranks from square `s`.
pub open spec fn offset_squares(s: int, dx: int, dy: int) -> Set<int> {
    Set::new(
        |t: int| 0 <= t < 64 && file_of(t) == file_of(s) + dx && rank_of(t) == rank_of(s) + dy,
    )
}

/// `t` is a knight's jump away from `s`.
pub open spec fn knight_step(s: int, t: int) -> bool {
    let dx = file_of(t) - file_of(s);
    let dy = rank_of(t) - rank_of(s);
    ((dx == 1 || dx == -1) && (dy == 2 || dy == -2)) || ((dx == 2 || dx == -2) && (dy == 1 || dy
        == -1))
}

/// `t` is next to `s`, along a line or a diagonal.
pub open spec fn king_step(s: int, t: int) -> bool {
    let dx = file_of(t) - file_of(s);
    let dy = rank_of(t) - rank_of(s);
    -1 <= dx <= 1 && -1 <= dy <= 1 && (dx != 0 || dy != 0)
}

/// The squares a knight on `s` attacks.
pub open spec fn knight_squares(s: int) -> Set<int> {
    Set::new(|t: int| 0 <= t < 64 && knight_step(s, t))
}

/// The squares a king on `s` attacks.
pub open spec fn king_squares(s: int) -> Set<int> {
    Set::new(|t: int| 0 <= t < 64 && king_step(s, t))
}

/// The rank on which the pawns of a side start.
pub open spec fn home_rank(c: Color) -> int {
    match c {
        Color::White => 1,
        Color::Black => 6,
    }
}

/// The rank on which the pawns of a side promote.
pub open spec fn last_rank(c: Color) -> int {
    match c {
        Color::White => 7,
        Color::Black => 0,
    }
}

/// The square in front of a pawn of side `c` on `s`.
pub open spec fn pawn_push_squares(c: Color, s: int) -> Set<int> {
    offset_squares(s, 0, c.forward())
}

/// The square two ranks in front of a pawn of side `c` that stands on its
/// home rank; nothing from any other rank.
pub open spec fn pawn_double_squares(c: Color, s: int) -> Set<int> {
    if rank_of(s) == home_rank(c) {
        offset_squares(s, 0, 2 * c.forward())
    } else {
        Set::empty()
    }
}

/// The squares a pawn of side `c` on `s` attacks.
pub open spec fn pawn_attack_squares(c: Color, s: int) -> Set<int> {
    offset_squares(s, -1, c.forward()).union(offset_squares(s, 1, c.forward()))
}

/// The squares from which a pawn of side `c` advances one square onto `t`.
pub open spec fn pawn_push_sources(c: Color, t: int) -> Set<int> {
    offset_squares(t, 0, -c.forward())
}

/// The squares from which a pawn of side `c` advances two squares onto `t`.
pub open spec fn pawn_double_sources(c: Color, t: int) -> Set<int> {
    if rank_of(t) == home_rank(c) + 2 * c.forward() {
        offset_squares(t, 0, -2 * c.forward())
    } else {
        Set::empty()
    }
}

/// The squares from which a pawn of side `c` attacks `t`.
pub open spec fn pawn_attack_sources(c: Color, t: int) -> Set<int> {
    offset_squares(t, -1, -c.forward()).union(offset_squares(t, 1, -c.forward()))
}

/// The squares on the file of `s`.
pub open spec fn file_squares(s: int) -> Set<int> {
    Set::new(|t: int| 0 <= t < 64 && file_of(t) == file_of(s))
}

/// The squares on the rank of `s`.
pub open spec fn rank_squares(s: int) -> Set<int> {
    Set::new(|t: int| 0 <= t < 64 && rank_of(t) == rank_of(s))
}

/// The squares on the line through `s` on which the rank changes by
/// `delta` for each file towards the h-file; `delta` is 1 or -1.
pub open spec fn diagonal_squares(s: int, delta: int) -> Set<int> {
    Set::new(
        |t: int|
            0 <= t < 64 && rank_of(t) - rank_of(s) == if delta == 1 {
                file_of(t) - file_of(s)
            } else {
                file_of(s) - file_of(t)
            },
    )
}

/// `c` lies strictly between `a` and `b`.
pub open spec fn between_1d(a: int, b: int, c: int) -> bool {
    (a < c && c < b) || (b < c && c < a)
}

/// Square `c` lies strictly between the squares `s` and `t`, on the rank,
/// file or diagonal that holds both.
pub open spec fn between(s: int, t: int, c: int) -> bool {
    let sx = file_of(s);
    let sy = rank_of(s);
    let tx = file_of(t);
    let ty = rank_of(t);
    let cx = file_of(c);
    let cy = rank_of(c);
    if sx == tx {
        cx == sx && between_1d(sy, ty, cy)
    } else if sy == ty {
        cy == sy && between_1d(sx, tx, cx)
    } else if tx - sx == ty - sy {
        cx - sx == cy - sy && between_1d(sx, tx, cx)
    } else if tx - sx == sy - ty {
        cx - sx == sy - cy && between_1d(sx, tx, cx)
    } else {
        false
    }
}

/// No square strictly between `s` and `t` is occupied.
pub open spec fn clear_between(occ: Set<int>, s: int, t: int) -> bool {
    forall|c: int| 0 <= c < 64 && between(s, t, c) ==> !#[trigger] occ.contains(c)
}

/// `s` and `t` are two squares of one rank or file.
pub open spec fn rook_line(s: int, t: int) -> bool {
    s != t && (file_of(s) == file_of(t) || rank_of(s) == rank_of(t))
}

/// `s` and `t` are two squares of one diagonal.
pub open spec fn bishop_line(s: int, t: int) -> bool {
    let dx = file_of(t) - file_of(s);
    let dy = rank_of(t) - rank_of(s);
    s != t && (dx == dy || dx == -dy)
}

/// The squares a rook on `s` attacks when the squares of `occ` are
/// occupied: along rank and file, each way up to and with the first
/// occupied square.
pub open spec fn rook_squares(occ: Set<int>, s: int) -> Set<int> {
    Set::new(|t: int| 0 <= t < 64 && rook_line(s, t) && clear_between(occ, s, t))
}

/// The squares a bishop on `s` attacks when the squares of `occ` are
/// occupied: along both diagonals, each way up to and with the first
/// occupied square.
pub open spec fn bishop_squares(occ: Set<int>, s: int) -> Set<int> {
    Set::new(|t: int| 0 <= t < 64 && bishop_line(s, t) && clear_between(occ, s, t))
}

/// The squares a queen on `s` attacks: those of a rook and those of a bishop.
pub open spec fn queen_squares(occ: Set<int>, s: int) -> Set<int> {
    rook_squares(occ, s).union(bishop_squares(occ, s))
}

/// The place of a side in the tables that hold one entry for each side.
pub open spec fn color_index(c: Color) -> int {
    match c {
        Color::Black => 0,
        Color::White => 1,
    }
}

/// The place of a side in the tables that hold one entry for each side.
pub fn color_slot(c: Color) -> (r: usize)
    ensures
        r == color_index(c),
{
    match c {
        Color::Black => 0,
        Color::White => 1,
    }
}

/// One value for each square of the board.
pub struct SquareIndex<T>(pub [T; 64]);

impl SquareIndex<Bitboard> {
    /// The table in which every square has the empty set.
    pub fn new() -> (r: SquareIndex<Bitboard>)
        ensures
            forall|i: int| 0 <= i < 64 ==> r.entry(i).0 == 0,
    {
        SquareIndex([Bitboard(0);64])
    }
}

impl<T> SquareIndex<T> {
    /// The value kept for the square of bit `i`.
    pub open spec fn entry(self, i: int) -> T {
        self.0[i]
    }

    /// The value kept for the highest-numbered square of `bb`.
    pub fn get(&self, bb: Bitboard) -> (r: &T)
        requires
            bb.0 != 0,
        ensures
            *r == self.entry(bb.spec_index()),
    {
        &self.0[bb.to_index()]
    }

    /// Puts `value` in the place of the highest-numbered square of `bb`.
    pub fn set(&mut self, bb: Bitboard, value: T)
        requires
            bb.0 != 0,
        ensures
            final(self).entry(bb.spec_index()) == value,
            forall|j: int|
                0 <= j < 64 && j != bb.spec_index() ==> final(self).entry(j) == old(self).entry(j),
    {
        let i = bb.to_index();
        self.put(i, value);
    }

    /// Puts `value` in the place of the square of bit `i`.
    pub fn put(&mut self, i: usize, value: T)
        requires
            i < 64,
        ensures
            final(self).entry(i as int) == value,
            forall|j: int| 0 <= j < 64 && j != i ==> final(self).entry(j) == old(self).entry(j),
    {
        self.0[i] = value;
        assert(self.0@ == old(self).0@.update(i as int, value));
    }
}

/// The file of the square of bit `i`.
fn file_at(i: usize) -> (r: i32)
    requires
        i < 64,
    ensures
        r == file_of(i as int),
        0 <= r < 8,
{
    7 - (i % 8) as i32
}

/// The rank of the square of bit `i`.
fn rank_at(i: usize) -> (r: i32)
    requires
        i < 64,
    ensures
        r == rank_of(i as int),
        0 <= r < 8,
{
    7 - (i / 8) as i32
}

/// The set that holds the square on file `x` and rank `y`, or nothing
/// where the board has no such square.
fn square_if_any(x: i32, y: i32) -> (r: Bitboard)
    ensures
        r@ == Set::new(|t: int| 0 <= t < 64 && file_of(t) == x && rank_of(t) == y),
{
    match Square::xy_checked(x, y) {
        Some(sq) => {
            let r = Bitboard::at(sq);
            assert(r@ =~= Set::new(|t: int| 0 <= t < 64 && file_of(t) == x && rank_of(t) == y));
            r
        },
        None => {
            let r = Bitboard::empty();
            assert(r@ =~= Set::new(|t: int| 0 <= t < 64 && file_of(t) == x && rank_of(t) == y));
            r
        },
    }
}

fn precompute_ranks() -> (r: SquareIndex<Bitboard>)
    ensures
        forall|s: int| 0 <= s < 64 ==> (#[trigger] r.entry(s))@ == rank_squares(s),
{
    let mut ranks = SquareIndex::new();
    let mut i: usize = 0;
    while i < 64
        invariant
            i <= 64,
            forall|s: int| 0 <= s < i ==> (#[trigger] ranks.entry(s))@ == rank_squares(s),
        decreases 64 - i,
    {
        let line = Bitboard::line(Line::AtY(rank_at(i) as u8));
        assert(line@ =~= rank_squares(i as int));
        ranks.put(i, line);
        i += 1;
    }
    ranks
}

fn precompute_files() -> (r: SquareIndex<Bitboard>)
    ensures
        forall|s: int| 0 <= s < 64 ==> (#[trigger] r.entry(s))@ == file_squares(s),
{
    let mut files = SquareIndex::new();
    let mut i: usize = 0;
    while i < 64
        invariant
            i <= 64,
            forall|s: int| 0 <= s < i ==> (#[trigger] files.entry(s))@ == file_squares(s),
        decreases 64 - i,
    {
        let line = Bitboard::line(Line::AtX(file_at(i) as u8));
        assert(line@ =~= file_squares(i as int));
        files.put(i, line);
        i += 1;
    }
    files
}

fn precompute_diagonals(delta: i32) -> (r: SquareIndex<Bitboard>)
    requires
        delta == 1 || delta == -1,
    ensures
        forall|s: int|
            0 <= s < 64 ==> (#[trigger] r.entry(s))@ == diagonal_squares(s, delta as int),
{
    let mut diagonals = SquareIndex::new();
    let mut i: usize = 0;
    while i < 64
        invariant
            i <= 64,
            delta == 1 || delta == -1,
            forall|s: int|
                0 <= s < i ==> (#[trigger] diagonals.entry(s))@ == diagonal_squares(
                    s,
                    delta as int,
                ),
        decreases 64 - i,
    {
        let x0 = file_at(i);
        let y0 = rank_at(i);
        let mut line = Bitboard::empty();
        let mut x1: i32 = 0;
        while x1 < 8
            invariant
                0 <= x1 <= 8,
                i < 64,
                x0 == file_of(i as int),
                y0 == rank_of(i as int),
                delta == 1 || delta == -1,
                line@ == diagonal_squares(i as int, delta as int).filter(
                    |t: int| file_of(t) < x1,
                ),
            decreases 8 - x1,
        {
            let y1 = if delta == 1 {
                y0 + (x1 - x0)
            } else {
                y0 - (x1 - x0)
            };
            let next = line | square_if_any(x1, y1);
            assert(next@ =~= diagonal_squares(i as int, delta as int).filter(
                |t: int| file_of(t) < x1 + 1,
            ));
            line = next;
            x1 += 1;
        }
        assert(line@ =~= diagonal_squares(i as int, delta as int));
        diagonals.put(i, line);
        i += 1;
    }
    diagonals
}

/// Jump `k` of the list `d` leads from `s` to `t`.
pub open spec fn jump_hits(d: Seq<(i32, i32)>, k: int, s: int, t: int) -> bool {
    file_of(t) == file_of(s) + d[k].0 && rank_of(t) == rank_of(s) + d[k].1
}

/// The squares that one of the jumps of `d` reaches from `s`.
pub open spec fn jump_squares(d: Seq<(i32, i32)>, s: int) -> Set<int> {
    Set::new(
        |t: int| 0 <= t < 64 && exists|k: int| 0 <= k < d.len() && #[trigger] jump_hits(d, k, s, t),
    )
}

/// The eight jumps of a knight, as changes of file and rank.
pub const KNIGHT_JUMPS: [(i32, i32); 8] = [
    (-1, 2),
    (1, 2),
    (-2, 1),
    (2, 1),
    (-2, -1),
    (2, -1),
    (-1, -2),
    (1, -2),
];

/// The eight steps of a king, as changes of file and rank.
pub const KING_JUMPS: [(i32, i32); 8] = [
    (-1, 1),
    (0, 1),
    (1, 1),
    (-1, 0),
    (1, 0),
    (-1, -1),
    (0, -1),
    (1, -1),
];

fn precompute_jump_attacks<const N: usize>(d: &[(i32, i32); N]) -> (r: SquareIndex<Bitboard>)
    requires
        forall|k: int| 0 <= k < N ==> -8 <= (#[trigger] d[k]).0 <= 8 && -8 <= d[k].1 <= 8,
    ensures
        forall|s: int| 0 <= s < 64 ==> (#[trigger] r.entry(s))@ == jump_squares(d@, s),
{
    let mut attacks = SquareIndex::new();
    let mut i: usize = 0;
    while i < 64
        invariant
            i <= 64,
            forall|k: int| 0 <= k < N ==> -8 <= (#[trigger] d[k]).0 <= 8 && -8 <= d[k].1 <= 8,
            forall|s: int| 0 <= s < i ==> (#[trigger] attacks.entry(s))@ == jump_squares(d@, s),
        decreases 64 - i,
    {
        let x = file_at(i);
        let y = rank_at(i);
        let mut pat = Bitboard::empty();
        let mut n: usize = 0;
        while n < N
            invariant
                n <= N,
                i < 64,
                x == file_of(i as int),
                y == rank_of(i as int),
                forall|k: int| 0 <= k < N ==> -8 <= (#[trigger] d[k]).0 <= 8 && -8 <= d[k].1 <= 8,
                forall|t: int|
                    pat@.contains(t) <==> (0 <= t < 64 && exists|k: int|
                        0 <= k < n && #[trigger] jump_hits(d@, k, i as int, t)),
            decreases N - n,
        {
            let (dx, dy) = d[n];
            let ghost before = pat;
            let hit = square_if_any(x + dx, y + dy);
            pat = pat | hit;
            proof {
                assert forall|t: int| pat@.contains(t) <==> (0 <= t < 64 && exists|k: int|
                    0 <= k < n + 1 && #[trigger] jump_hits(d@, k, i as int, t)) by {
                    if before@.contains(t) {
                        let k = choose|k: int| 0 <= k < n && #[trigger] jump_hits(d@, k, i as int, t);
                        assert(0 <= k < n + 1 && jump_hits(d@, k, i as int, t));
                    }
                    if hit@.contains(t) {
                        assert(jump_hits(d@, n as int, i as int, t));
                    }
                }
            }
            n += 1;
        }
        assert(pat@ =~= jump_squares(d@, i as int));
        attacks.put(i, pat);
        i += 1;
    }
    attacks
}

/// The jumps of `KNIGHT_JUMPS` are the knight's moves.
proof fn lemma_knight_jumps(s: int)
    ensures
        jump_squares(KNIGHT_JUMPS@, s) == knight_squares(s),
{
    let d = KNIGHT_JUMPS@;
    assert forall|t: int| knight_squares(s).contains(t) implies jump_squares(d, s).contains(t) by {
        let dx = file_of(t) - file_of(s);
        let dy = rank_of(t) - rank_of(s);
        if dx == -1 && dy == 2 {
            assert(jump_hits(d, 0, s, t));
        } else if dx == 1 && dy == 2 {
            assert(jump_hits(d, 1, s, t));
        } else if dx == -2 && dy == 1 {
            assert(jump_hits(d, 2, s, t));
        } else if dx == 2 && dy == 1 {
            assert(jump_hits(d, 3, s, t));
        } else if dx == -2 && dy == -1 {
            assert(jump_hits(d, 4, s, t));
        } else if dx == 2 && dy == -1 {
            assert(jump_hits(d, 5, s, t));
        } else if dx == -1 && dy == -2 {
            assert(jump_hits(d, 6, s, t));
        } else {
            assert(jump_hits(d, 7, s, t));
        }
    }
    assert(jump_squares(d, s) =~= knight_squares(s));
}

/// The jumps of `KING_JUMPS` are the king's moves.
proof fn lemma_king_jumps(s: int)
    ensures
        jump_squares(KING_JUMPS@, s) == king_squares(s),
{
    let d = KING_JUMPS@;
    assert forall|t: int| king_squares(s).contains(t) implies jump_squares(d, s).contains(t) by {
        let dx = file_of(t) - file_of(s);
        let dy = rank_of(t) - rank_of(s);
        if dx == -1 && dy == 1 {
            assert(jump_hits(d, 0, s, t));
        } else if dx == 0 && dy == 1 {
            assert(jump_hits(d, 1, s, t));
        } else if dx == 1 && dy == 1 {
            assert(jump_hits(d, 2, s, t));
        } else if dx == -1 && dy == 0 {
            assert(jump_hits(d, 3, s, t));
        } else if dx == 1 && dy == 0 {
            assert(jump_hits(d, 4, s, t));
        } else if dx == -1 && dy == -1 {
            assert(jump_hits(d, 5, s, t));
        } else if dx == 0 && dy == -1 {
            assert(jump_hits(d, 6, s, t));
        } else {
            assert(jump_hits(d, 7, s, t));
        }
    }
    assert(jump_squares(d, s) =~= king_squares(s));
}

fn precompute_pawn_single_moves() -> (r: [SquareIndex<Bitboard>; 2])
    ensures
        forall|c: Color, s: int|
            0 <= s < 64 ==> (#[trigger] r[color_index(c)].entry(s))@ == pawn_push_squares(c, s),
{
    let mut white = SquareIndex::new();
    let mut black = SquareIndex::new();
    let mut i: usize = 0;
    while i < 64
        invariant
            i <= 64,
            forall|s: int|
                0 <= s < i ==> (#[trigger] white.entry(s))@ == pawn_push_squares(Color::White, s),
            forall|s: int|
                0 <= s < i ==> (#[trigger] black.entry(s))@ == pawn_push_squares(Color::Black, s),
        decreases 64 - i,
    {
        let x = file_at(i);
        let y = rank_at(i);
        let up = square_if_any(x, y + 1);
        let down = square_if_any(x, y - 1);
        assert(up@ =~= pawn_push_squares(Color::White, i as int));
        assert(down@ =~= pawn_push_squares(Color::Black, i as int));
        white.put(i, up);
        black.put(i, down);
        i += 1;
    }
    [black, white]
}

fn precompute_pawn_double_moves() -> (r: [SquareIndex<Bitboard>; 2])
    ensures
        forall|c: Color, s: int|
            0 <= s < 64 ==> (#[trigger] r[color_index(c)].entry(s))@ == pawn_double_squares(c, s),
{
    let mut white = SquareIndex::new();
    let mut black = SquareIndex::new();
    let mut i: usize = 0;
    proof {
        lemma_bits_zero();
    }
    while i < 64
        invariant
            i <= 64,
            forall|s: int| 0 <= s < 64 ==> (#[trigger] white.entry(s)).0 == 0 || s < i,
            forall|s: int| 0 <= s < 64 ==> (#[trigger] black.entry(s)).0 == 0 || s < i,
            forall|s: int|
                0 <= s < i ==> (#[trigger] white.entry(s))@ == pawn_double_squares(Color::White, s),
            forall|s: int|
                0 <= s < i ==> (#[trigger] black.entry(s))@ == pawn_double_squares(Color::Black, s),
        decreases 64 - i,
    {
        let x = file_at(i);
        let y = rank_at(i);
        if y == 1 {
            let up = square_if_any(x, 3);
            assert(up@ =~= pawn_double_squares(Color::White, i as int));
            white.put(i, up);
        }
        if y == 6 {
            let down = square_if_any(x, 4);
            assert(down@ =~= pawn_double_squares(Color::Black, i as int));
            black.put(i, down);
        }
        proof {
            lemma_bits_zero();
        }
        i += 1;
    }
    [black, white]
}

fn precompute_pawn_attacks() -> (r: [SquareIndex<Bitboard>; 2])
    ensures
        forall|c: Color, s: int|
            0 <= s < 64 ==> (#[trigger] r[color_index(c)].entry(s))@ == pawn_attack_squares(c, s),
{
    let mut white = SquareIndex::new();
    let mut black = SquareIndex::new();
    let mut i: usize = 0;
    while i < 64
        invariant
            i <= 64,
            forall|s: int|
                0 <= s < i ==> (#[trigger] white.entry(s))@ == pawn_attack_squares(Color::White, s),
            forall|s: int|
                0 <= s < i ==> (#[trigger] black.entry(s))@ == pawn_attack_squares(Color::Black, s),
        decreases 64 - i,
    {
        let x = file_at(i);
        let y = rank_at(i);
        let up = square_if_any(x - 1, y + 1) | square_if_any(x + 1, y + 1);
        let down = square_if_any(x - 1, y - 1) | square_if_any(x + 1, y - 1);
        assert(up@ =~= pawn_attack_squares(Color::White, i as int));
        assert(down@ =~= pawn_attack_squares(Color::Black, i as int));
        white.put(i, up);
        black.put(i, down);
        i += 1;
    }
    [black, white]
}

fn precompute_rev_pawn_moves() -> (r: [SquareIndex<Bitboard>; 2])
    ensures
        forall|c: Color, t: int|
            0 <= t < 64 ==> (#[trigger] r[color_index(c)].entry(t))@ == pawn_push_sources(c, t),
{
    let mut white = SquareIndex::new();
    let mut black = SquareIndex::new();
    let mut i: usize = 0;
    while i < 64
        invariant
            i <= 64,
            forall|t: int|
                0 <= t < i ==> (#[trigger] white.entry(t))@ == pawn_push_sources(Color::White, t),
            forall|t: int|
                0 <= t < i ==> (#[trigger] black.entry(t))@ == pawn_push_sources(Color::Black, t),
        decreases 64 - i,
    {
        let x = file_at(i);
        let y = rank_at(i);
        let below = square_if_any(x, y - 1);
        let above = square_if_any(x, y + 1);
        assert(below@ =~= pawn_push_sources(Color::White, i as int));
        assert(above@ =~= pawn_push_sources(Color::Black, i as int));
        white.put(i, below);
        black.put(i, above);
        i += 1;
    }
    [black, white]
}

fn precompute_rev_pawn_dbl_moves() -> (r: [SquareIndex<Bitboard>; 2])
    ensures
        forall|c: Color, t: int|
            0 <= t < 64 ==> (#[trigger] r[color_index(c)].entry(t))@ == pawn_double_sources(c, t),
{
    let mut white = SquareIndex::new();
    let mut black = SquareIndex::new();
    let mut i: usize = 0;
    proof {
        lemma_bits_zero();
    }
    while i < 64
        invariant
            i <= 64,
            forall|s: int| 0 <= s < 64 ==> (#[trigger] white.entry(s)).0 == 0 || s < i,
            forall|s: int| 0 <= s < 64 ==> (#[trigger] black.entry(s)).0 == 0 || s < i,
            forall|t: int|
                0 <= t < i ==> (#[trigger] white.entry(t))@ == pawn_double_sources(Color::White, t),
            forall|t: int|
                0 <= t < i ==> (#[trigger] black.entry(t))@ == pawn_double_sources(Color::Black, t),
        decreases 64 - i,
    {
        let x = file_at(i);
        let y = rank_at(i);
        if y == 3 {
            let from = square_if_any(x, 1);
            assert(from@ =~= pawn_double_sources(Color::White, i as int));
            white.put(i, from);
        }
        if y == 4 {
            let from = square_if_any(x, 6);
            assert(from@ =~= pawn_double_sources(Color::Black, i as int));
            black.put(i, from);
        }
        proof {
            lemma_bits_zero();
        }
        i += 1;
    }
    [black, white]
}

fn precompute_rev_pawn_attacks() -> (r: [SquareIndex<Bitboard>; 2])
    ensures
        forall|c: Color, t: int|
            0 <= t < 64 ==> (#[trigger] r[color_index(c)].entry(t))@ == pawn_attack_sources(c, t),
{
    let mut white = SquareIndex::new();
    let mut black = SquareIndex::new();
    let mut i: usize = 0;
    while i < 64
        invariant
            i <= 64,
            forall|t: int|
                0 <= t < i ==> (#[trigger] white.entry(t))@ == pawn_attack_sources(Color::White, t),
            forall|t: int|
                0 <= t < i ==> (#[trigger] black.entry(t))@ == pawn_attack_sources(Color::Black, t),
        decreases 64 - i,
    {
        let x = file_at(i);
        let y = rank_at(i);
        let below = square_if_any(x - 1, y - 1) | square_if_any(x + 1, y - 1);
        let above = square_if_any(x - 1, y + 1) | square_if_any(x + 1, y + 1);
        assert(below@ =~= pawn_attack_sources(Color::White, i as int));
        assert(above@ =~= pawn_attack_sources(Color::Black, i as int));
        white.put(i, below);
        black.put(i, above);
        i += 1;
    }
    [black, white]
}

/// The rank on which a pawn of side `c` stands after its two-square advance.
pub open spec fn double_push_rank(c: Color) -> int {
    home_rank(c) + 2 * c.forward()
}

/// The rank of the square that a pawn of side `c` passes over in its
/// two-square advance.
pub open spec fn passed_rank(c: Color) -> int {
    home_rank(c) + c.forward()
}

/// The square of the pawn that side `c` takes en passant, when the code of
/// the en passant file is `k`: 0 for none, else the file plus one.
pub open spec fn ep_kill_squares(c: Color, k: int) -> Set<int> {
    if 1 <= k <= 8 {
        set![square_at(k - 1, double_push_rank(c.other()))]
    } else {
        Set::empty()
    }
}

/// The square on which a pawn of side `c` lands when it takes en passant.
pub open spec fn ep_target_squares(c: Color, k: int) -> Set<int> {
    if 1 <= k <= 8 {
        set![square_at(k - 1, passed_rank(c.other()))]
    } else {
        Set::empty()
    }
}

/// The squares from which a pawn of side `c` can take en passant: beside
/// the pawn that just advanced.
pub open spec fn ep_source_squares(c: Color, k: int) -> Set<int> {
    if 1 <= k <= 8 {
        Set::new(
            |s: int|
                0 <= s < 64 && rank_of(s) == double_push_rank(c.other()) && (file_of(s) == k - 2
                    || file_of(s) == k),
        )
    } else {
        Set::empty()
    }
}

/// The squares that matter for one en passant capture.
#[derive(Copy, Clone)]
pub struct EPInfo {
    pub source_squares: Bitboard,
    pub target_square: Bitboard,
    pub kill_square: Bitboard,
}

impl EPInfo {
    /// The entry is the one for side `c` and en passant code `k`.
    pub open spec fn describes(self, c: Color, k: int) -> bool {
        &&& self.source_squares@ == ep_source_squares(c, k)
        &&& self.target_square@ == ep_target_squares(c, k)
        &&& self.kill_square@ == ep_kill_squares(c, k)
    }
}

fn precompute_pawn_ep_info() -> (r: [[EPInfo; 9]; 2])
    ensures
        forall|c: Color, k: int|
            0 <= k < 9 ==> (#[trigger] r[color_index(c)][k]).describes(c, k),
{
    let nothing = EPInfo {
        source_squares: Bitboard::empty(),
        target_square: Bitboard::empty(),
        kill_square: Bitboard::empty(),
    };
    let mut white = [nothing;9];
    let mut black = [nothing;9];
    let mut x: i32 = 0;
    assert(nothing.describes(Color::White, 0) && nothing.describes(Color::Black, 0));
    while x < 8
        invariant
            0 <= x <= 8,
            forall|k: int| 0 <= k <= x ==> (#[trigger] white[k]).describes(Color::White, k),
            forall|k: int| 0 <= k <= x ==> (#[trigger] black[k]).describes(Color::Black, k),
        decreases 8 - x,
    {
        let w = EPInfo {
            source_squares: square_if_any(x - 1, 4) | square_if_any(x + 1, 4),
            target_square: square_if_any(x, 5),
            kill_square: square_if_any(x, 4),
        };
        let b = EPInfo {
            source_squares: square_if_any(x - 1, 3) | square_if_any(x + 1, 3),
            target_square: square_if_any(x, 2),
            kill_square: square_if_any(x, 3),
        };
        proof {
            let k = x + 1;
            assert(w.source_squares@ =~= ep_source_squares(Color::White, k));
            assert(w.target_square@ =~= ep_target_squares(Color::White, k));
            assert(w.kill_square@ =~= ep_kill_squares(Color::White, k));
            assert(b.source_squares@ =~= ep_source_squares(Color::Black, k));
            assert(b.target_square@ =~= ep_target_squares(Color::Black, k));
            assert(b.kill_square@ =~= ep_kill_squares(Color::Black, k));
        }
        let ghost white_before = white;
        let ghost black_before = black;
        white[(x + 1) as usize] = w;
        black[(x + 1) as usize] = b;
        assert(white@ == white_before@.update(x + 1, w));
        assert(black@ == black_before@.update(x + 1, b));
        x += 1;
    }
    [black, white]
}

/// In the six-bit pattern `p` of the files b to g of a rank, file `x` is
/// occupied.
pub open spec fn rank_blocked(p: int, x: int) -> bool {
    1 <= x <= 6 && bit(p as u64, 6 - x)
}

/// No file strictly between `f` and `x` is occupied in the pattern `p`.
pub open spec fn rank_clear(p: int, f: int, x: int) -> bool {
    forall|m: int| ((f < m < x) || (x < m < f)) ==> !#[trigger] rank_blocked(p, m)
}

/// The files that a rook on file `f` reaches along its rank, up to and
/// with the first occupied file on each side; file `x` is given as the
/// bit `7 - x`.
pub open spec fn rank_reach(f: int, p: int) -> Set<int> {
    Set::new(|b: int| 0 <= b < 8 && 7 - b != f && rank_clear(p, f, 7 - b))
}

fn rank_blocked_at(p: usize, x: i32) -> (r: bool)
    ensures
        r == rank_blocked(p as int, x as int),
{
    if x < 1 || x > 6 {
        false
    } else {
        ((p as u64) >> ((6 - x) as u64)) & 1 == 1
    }
}

fn precompute_rank_attacks() -> (r: [[Bitboard; 64]; 8])
    ensures
        forall|f: int, p: int|
            0 <= f < 8 && 0 <= p < 64 ==> (#[trigger] r[f][p])@ == rank_reach(f, p),
{
    let mut attacks: [[Bitboard; 64]; 8] = [[Bitboard(0);64];8];
    let mut rook_file: i32 = 0;
    while rook_file < 8
        invariant
            0 <= rook_file <= 8,
            forall|f: int, p: int|
                0 <= f < rook_file && 0 <= p < 64 ==> (#[trigger] attacks[f][p])@ == rank_reach(
                    f,
                    p,
                ),
        decreases 8 - rook_file,
    {
        let mut row: [Bitboard; 64] = [Bitboard(0);64];
        let mut pattern: usize = 0;
        while pattern < 64
            invariant
                0 <= rook_file < 8,
                pattern <= 64,
                forall|p: int|
                    0 <= p < pattern ==> (#[trigger] row[p])@ == rank_reach(rook_file as int, p),
            decreases 64 - pattern,
        {
            let mut attack_bb = Bitboard::empty();
            let mut i: i32 = rook_file + 1;
            let mut stop = false;
            while i < 8 && !stop
                invariant
                    0 <= rook_file < i <= 8,
                    pattern < 64,
                    forall|b: int|
                        attack_bb@.contains(b) <==> (0 <= b < 8 && rook_file < 7 - b < i
                            && rank_clear(pattern as int, rook_file as int, 7 - b)),
                    !stop ==> rank_clear(pattern as int, rook_file as int, i as int),
                    stop ==> rank_blocked(pattern as int, i - 1) && rook_file < i - 1,
                decreases 8 - i + (if stop { 0int } else { 1int }),
            {
                let sq = Bitboard(1u64 << ((7 - i) as u64));
                proof {
                    crate::utils::lemma_bits_one((7 - i) as int);
                }
                let ghost before = attack_bb;
                attack_bb = attack_bb | sq;
                proof {
                    assert forall|b: int|
                        attack_bb@.contains(b) <==> (0 <= b < 8 && rook_file < 7 - b < i + 1
                            && rank_clear(pattern as int, rook_file as int, 7 - b)) by {
                        assert(attack_bb@.contains(b) <==> (before@.contains(b) || b == 7 - i));
                        if b == 7 - i {
                            assert(7 - b == i);
                        }
                    }
                }
                if rank_blocked_at(pattern, i) {
                    stop = true;
                }
                i += 1;
            }
            let ghost upward = attack_bb;
            let mut j: i32 = rook_file - 1;
            stop = false;
            while j >= 0 && !stop
                invariant
                    -1 <= j < rook_file < 8,
                    pattern < 64,
                    forall|b: int|
                        attack_bb@.contains(b) <==> (upward@.contains(b) || (0 <= b < 8 && j < 7
                            - b < rook_file && rank_clear(
                            pattern as int,
                            rook_file as int,
                            7 - b,
                        ))),
                    !stop ==> rank_clear(pattern as int, rook_file as int, j as int),
                    stop ==> rank_blocked(pattern as int, j + 1) && j + 1 < rook_file,
                decreases j + 1 + (if stop { 0int } else { 1int }),
            {
                let sq = Bitboard(1u64 << ((7 - j) as u64));
                proof {
                    crate::utils::lemma_bits_one((7 - j) as int);
                }
                let ghost before = attack_bb;
                attack_bb = attack_bb | sq;
                proof {
                    assert forall|b: int|
                        attack_bb@.contains(b) <==> (upward@.contains(b) || (0 <= b < 8 && j - 1 < 7
                            - b < rook_file && rank_clear(
                            pattern as int,
                            rook_file as int,
                            7 - b,
                        ))) by {
                        assert(attack_bb@.contains(b) <==> (before@.contains(b) || b == 7 - j));
                        if b == 7 - j {
                            assert(7 - b == j);
                        }
                    }
                }
                if rank_blocked_at(pattern, j) {
                    stop = true;
                }
                j -= 1;
            }
            assert(attack_bb@ =~= rank_reach(rook_file as int, pattern as int));
            let ghost row_before = row;
            row[pattern] = attack_bb;
            assert(row@ == row_before@.update(pattern as int, attack_bb));
            pattern += 1;
        }
        let ghost before = attacks;
        attacks[rook_file as usize] = row;
        assert(attacks@ == before@.update(rook_file as int, row));
        rook_file += 1;
    }
    attacks
}

/// The rank on which the king and rooks of a side start.
pub open spec fn back_rank(c: Color) -> int {
    match c {
        Color::White => 0,
        Color::Black => 7,
    }
}

/// The squares between king and rook that must be empty to castle on the
/// queen's side.
pub open spec fn long_castle_path_squares(c: Color) -> Set<int> {
    set![square_at(1, back_rank(c)), square_at(2, back_rank(c)), square_at(3, back_rank(c))]
}

/// The squares between king and rook that must be empty to castle on the
/// king's side.
pub open spec fn short_castle_path_squares(c: Color) -> Set<int> {
    set![square_at(5, back_rank(c)), square_at(6, back_rank(c))]
}

fn back_rank_of(c: Color) -> (r: i32)
    ensures
        r == back_rank(c),
{
    match c {
        Color::White => 0,
        Color::Black => 7,
    }
}

/// The squares between king and rook that must be empty to castle on the
/// queen's side.
pub fn long_castle_path(c: Color) -> (r: Bitboard)
    ensures
        r@ == long_castle_path_squares(c),
{
    let y = back_rank_of(c);
    let r = square_if_any(1, y) | square_if_any(2, y) | square_if_any(3, y);
    assert(r@ =~= long_castle_path_squares(c));
    r
}

/// The squares between king and rook that must be empty to castle on the
/// king's side.
pub fn short_castle_path(c: Color) -> (r: Bitboard)
    ensures
        r@ == short_castle_path_squares(c),
{
    let y = back_rank_of(c);
    let r = square_if_any(5, y) | square_if_any(6, y);
    assert(r@ =~= short_castle_path_squares(c));
    r
}

/// The square that the king passes over when it castles on the queen's side.
pub fn long_castle_mid_square(c: Color) -> (r: Bitboard)
    ensures
        r@ == set![square_at(3, back_rank(c))],
        r.is_square(),
        r.spec_index() == square_at(3, back_rank(c)),
{
    Bitboard::at(Square::xy(3, back_rank_of(c)))
}

/// The square that the king passes over when it castles on the king's side.
pub fn short_castle_mid_square(c: Color) -> (r: Bitboard)
    ensures
        r@ == set![square_at(5, back_rank(c))],
        r.is_square(),
        r.spec_index() == square_at(5, back_rank(c)),
{
    Bitboard::at(Square::xy(5, back_rank_of(c)))
}

/// All the tables. A value of this type always holds exactly what
/// `Tables::new` puts in it.
pub struct Tables {
    ranks: SquareIndex<Bitboard>,
    files: SquareIndex<Bitboard>,
    rank_attacks: [[Bitboard; 64]; 8],
    nw_diagonals: SquareIndex<Bitboard>,
    sw_diagonals: SquareIndex<Bitboard>,
    knight_attacks: SquareIndex<Bitboard>,
    king_attacks: SquareIndex<Bitboard>,
    pawn_single_moves: [SquareIndex<Bitboard>; 2],
    pawn_double_moves: [SquareIndex<Bitboard>; 2],
    pawn_attacks: [SquareIndex<Bitboard>; 2],
    pawn_ep_info: [[EPInfo; 9]; 2],
    rev_pawn_moves: [SquareIndex<Bitboard>; 2],
    rev_pawn_dbl_moves: [SquareIndex<Bitboard>; 2],
    rev_pawn_attacks: [SquareIndex<Bitboard>; 2],
}

/// Two tables whose entries hold the same squares are the same table.
proof fn lemma_same_boards(a: SquareIndex<Bitboard>, b: SquareIndex<Bitboard>)
    requires
        forall|s: int| 0 <= s < 64 ==> a.entry(s)@ == b.entry(s)@,
    ensures
        a == b,
{
    assert forall|i: int| 0 <= i < 64 implies a.0[i] == b.0[i] by {
        assert(a.entry(i)@ == b.entry(i)@);
        lemma_bits_injective(a.0[i].0, b.0[i].0);
    }
    assert(a.0 =~= b.0);
}

/// Two tables for the two sides whose entries hold the same squares are
/// the same.
proof fn lemma_same_sides(a: [SquareIndex<Bitboard>; 2], b: [SquareIndex<Bitboard>; 2])
    requires
        forall|c: Color, s: int|
            0 <= s < 64 ==> (#[trigger] a[color_index(c)].entry(s))@ == b[color_index(
                c,
            )].entry(s)@,
    ensures
        a == b,
{
    assert forall|i: int| 0 <= i < 2 implies a[i] == b[i] by {
        let c = if i == 0 {
            Color::Black
        } else {
            Color::White
        };
        assert forall|s: int| 0 <= s < 64 implies a[i].entry(s)@ == b[i].entry(s)@ by {
            assert(a[color_index(c)].entry(s)@ == b[color_index(c)].entry(s)@);
        }
        lemma_same_boards(a[i], b[i]);
    }
    assert(a =~= b);
}

impl Tables {
    /// Every entry of every table holds the squares that its table is for.
    #[verifier::type_invariant]
    pub closed spec fn wf(self) -> bool {
        &&& forall|s: int| 0 <= s < 64 ==> (#[trigger] self.ranks.entry(s))@ == rank_squares(s)
        &&& forall|s: int| 0 <= s < 64 ==> (#[trigger] self.files.entry(s))@ == file_squares(s)
        &&& forall|f: int, p: int|
            0 <= f < 8 && 0 <= p < 64 ==> (#[trigger] self.rank_attacks[f][p])@ == rank_reach(f, p)
        &&& forall|s: int|
            0 <= s < 64 ==> (#[trigger] self.nw_diagonals.entry(s))@ == diagonal_squares(s, 1)
        &&& forall|s: int|
            0 <= s < 64 ==> (#[trigger] self.sw_diagonals.entry(s))@ == diagonal_squares(s, -1)
        &&& forall|s: int|
            0 <= s < 64 ==> (#[trigger] self.knight_attacks.entry(s))@ == knight_squares(s)
        &&& forall|s: int|
            0 <= s < 64 ==> (#[trigger] self.king_attacks.entry(s))@ == king_squares(s)
        &&& forall|c: Color, s: int|
            0 <= s < 64 ==> (#[trigger] self.pawn_single_moves[color_index(c)].entry(s))@
                == pawn_push_squares(c, s)
        &&& forall|c: Color, s: int|
            0 <= s < 64 ==> (#[trigger] self.pawn_double_moves[color_index(c)].entry(s))@
                == pawn_double_squares(c, s)
        &&& forall|c: Color, s: int|
            0 <= s < 64 ==> (#[trigger] self.pawn_attacks[color_index(c)].entry(s))@
                == pawn_attack_squares(c, s)
        &&& forall|c: Color, k: int|
            0 <= k < 9 ==> (#[trigger] self.pawn_ep_info[color_index(c)][k]).describes(c, k)
        &&& forall|c: Color, s: int|
            0 <= s < 64 ==> (#[trigger] self.rev_pawn_moves[color_index(c)].entry(s))@
                == pawn_push_sources(c, s)
        &&& forall|c: Color, s: int|
            0 <= s < 64 ==> (#[trigger] self.rev_pawn_dbl_moves[color_index(c)].entry(s))@
                == pawn_double_sources(c, s)
        &&& forall|c: Color, s: int|
            0 <= s < 64 ==> (#[trigger] self.rev_pawn_attacks[color_index(c)].entry(s))@
                == pawn_attack_sources(c, s)
    }

    /// Works out all the tables.
    pub fn new() -> (r: Tables)
        ensures
            r.wf(),
    {
        let knight_attacks = precompute_jump_attacks(&KNIGHT_JUMPS);
        let king_attacks = precompute_jump_attacks(&KING_JUMPS);
        proof {
            assert forall|s: int| 0 <= s < 64 implies (#[trigger] knight_attacks.entry(s))@
                == knight_squares(s) by {
                lemma_knight_jumps(s);
            }
            assert forall|s: int| 0 <= s < 64 implies (#[trigger] king_attacks.entry(s))@
                == king_squares(s) by {
                lemma_king_jumps(s);
            }
        }
        Tables {
            ranks: precompute_ranks(),
            files: precompute_files(),
            rank_attacks: precompute_rank_attacks(),
            nw_diagonals: precompute_diagonals(1),
            sw_diagonals: precompute_diagonals(-1),
            knight_attacks,
            king_attacks,
            pawn_single_moves: precompute_pawn_single_moves(),
            pawn_double_moves: precompute_pawn_double_moves(),
            pawn_attacks: precompute_pawn_attacks(),
            pawn_ep_info: precompute_pawn_ep_info(),
            rev_pawn_moves: precompute_rev_pawn_moves(),
            rev_pawn_dbl_moves: precompute_rev_pawn_dbl_moves(),
            rev_pawn_attacks: precompute_rev_pawn_attacks(),
        }
    }

    /// Building the tables always gives the same tables: any two values
    /// that `Tables::new` can return are equal, entry by entry and bit by bit.
    pub proof fn lemma_tables_unique(a: Tables, b: Tables)
        requires
            a.wf(),
            b.wf(),
        ensures
            a == b,
    {
        lemma_same_boards(a.ranks, b.ranks);
        lemma_same_boards(a.files, b.files);
        lemma_same_boards(a.nw_diagonals, b.nw_diagonals);
        lemma_same_boards(a.sw_diagonals, b.sw_diagonals);
        lemma_same_boards(a.knight_attacks, b.knight_attacks);
        lemma_same_boards(a.king_attacks, b.king_attacks);
        lemma_same_sides(a.pawn_single_moves, b.pawn_single_moves);
        lemma_same_sides(a.pawn_double_moves, b.pawn_double_moves);
        lemma_same_sides(a.pawn_attacks, b.pawn_attacks);
        lemma_same_sides(a.rev_pawn_moves, b.rev_pawn_moves);
        lemma_same_sides(a.rev_pawn_dbl_moves, b.rev_pawn_dbl_moves);
        lemma_same_sides(a.rev_pawn_attacks, b.rev_pawn_attacks);
        assert forall|f: int| 0 <= f < 8 implies a.rank_attacks[f] == b.rank_attacks[f] by {
            assert forall|p: int| 0 <= p < 64 implies a.rank_attacks[f][p] == b.rank_attacks[f][p] by {
                assert(a.rank_attacks[f][p]@ == rank_reach(f, p));
                assert(b.rank_attacks[f][p]@ == rank_reach(f, p));
                lemma_bits_injective(a.rank_attacks[f][p].0, b.rank_attacks[f][p].0);
            }
            assert(a.rank_attacks[f] =~= b.rank_attacks[f]);
        }
        assert(a.rank_attacks =~= b.rank_attacks);
        assert forall|i: int| 0 <= i < 2 implies a.pawn_ep_info[i] == b.pawn_ep_info[i] by {
            let c = if i == 0 {
                Color::Black
            } else {
                Color::White
            };
            assert forall|k: int| 0 <= k < 9 implies a.pawn_ep_info[i][k] == b.pawn_ep_info[i][k] by {
                let x = a.pawn_ep_info[color_index(c)][k];
                let y = b.pawn_ep_info[color_index(c)][k];
                assert(x.describes(c, k) && y.describes(c, k));
                lemma_bits_injective(x.source_squares.0, y.source_squares.0);
                lemma_bits_injective(x.target_square.0, y.target_square.0);
                lemma_bits_injective(x.kill_square.0, y.kill_square.0);
            }
            assert(a.pawn_ep_info[i] =~= b.pawn_ep_info[i]);
        }
        assert(a.pawn_ep_info =~= b.pawn_ep_info);
    }

    /// The squares on the rank of the highest-numbered square of `pos`.
    pub fn ranks(&self, pos: Bitboard) -> (r: Bitboard)
        requires
            pos.0 != 0,
        ensures
            r@ == rank_squares(pos.spec_index()),
    {
        proof {
            use_type_invariant(self);
        }
        let i = pos.to_index();
        assert(self.ranks.entry(i as int)@ == rank_squares(i as int));
        *self.ranks.get(pos)
    }

    /// The squares on the file of the highest-numbered square of `pos`.
    pub fn files(&self, pos: Bitboard) -> (r: Bitboard)
        requires
            pos.0 != 0,
        ensures
            r@ == file_squares(pos.spec_index()),
    {
        proof {
            use_type_invariant(self);
        }
        let i = pos.to_index();
        assert(self.files.entry(i as int)@ == file_squares(i as int));
        *self.files.get(pos)
    }

    /// The files that a rook on file `file` reaches along its rank when
    /// the files b to g of the rank are occupied as the six bits of
    /// `pattern` say; file `x` is bit `7 - x` of the result.
    pub fn rank_attacks(&self, file: usize, pattern: usize) -> (r: Bitboard)
        requires
            file < 8,
            pattern < 64,
        ensures
            r@ == rank_reach(file as int, pattern as int),
    {
        proof {
            use_type_invariant(self);
        }
        assert(self.rank_attacks[file as int][pattern as int]@ == rank_reach(
            file as int,
            pattern as int,
        ));
        self.rank_attacks[file][pattern]
    }

    /// The squares on the diagonal through the highest-numbered square of
    /// `pos` that rises towards the h-file.
    pub fn nw_diagonals(&self, pos: Bitboard) -> (r: Bitboard)
        requires
            pos.0 != 0,
        ensures
            r@ == diagonal_squares(pos.spec_index(), 1),
    {
        proof {
            use_type_invariant(self);
        }
        let i = pos.to_index();
        assert(self.nw_diagonals.entry(i as int)@ == diagonal_squares(i as int, 1));
        *self.nw_diagonals.get(pos)
    }

    /// The squares on the diagonal through the highest-numbered square of
    /// `pos` that falls towards the h-file.
    pub fn sw_diagonals(&self, pos: Bitboard) -> (r: Bitboard)
        requires
            pos.0 != 0,
        ensures
            r@ == diagonal_squares(pos.spec_index(), -1),
    {
        proof {
            use_type_invariant(self);
        }
        let i = pos.to_index();
        assert(self.sw_diagonals.entry(i as int)@ == diagonal_squares(i as int, -1));
        *self.sw_diagonals.get(pos)
    }

    /// The squares a knight attacks from the highest-numbered square of `pos`.
    pub fn knight_attacks(&self, pos: Bitboard) -> (r: Bitboard)
        requires
            pos.0 != 0,
        ensures
            r@ == knight_squares(pos.spec_index()),
    {
        proof {
            use_type_invariant(self);
        }
        let i = pos.to_index();
        assert(self.knight_attacks.entry(i as int)@ == knight_squares(i as int));
        *self.knight_attacks.get(pos)
    }

    /// The squares a king attacks from the highest-numbered square of `pos`.
    pub fn king_attacks(&self, pos: Bitboard) -> (r: Bitboard)
        requires
            pos.0 != 0,
        ensures
            r@ == king_squares(pos.spec_index()),
    {
        proof {
            use_type_invariant(self);
        }
        let i = pos.to_index();
        assert(self.king_attacks.entry(i as int)@ == king_squares(i as int));
        *self.king_attacks.get(pos)
    }

    /// The square in front of a pawn of side `c` on the highest-numbered
    /// square of `pos`.
    pub fn pawn_single_moves(&self, c: Color, pos: Bitboard) -> (r: Bitboard)
        requires
            pos.0 != 0,
        ensures
            r@ == pawn_push_squares(c, pos.spec_index()),
    {
        proof {
            use_type_invariant(self);
        }
        let i = pos.to_index();
        assert(self.pawn_single_moves[color_index(c)].entry(i as int)@ == pawn_push_squares(
            c,
            i as int,
        ));
        *self.pawn_single_moves[color_slot(c)].get(pos)
    }

    /// The square two ranks in front of a pawn of side `c` on its home rank.
    pub fn pawn_double_moves(&self, c: Color, pos: Bitboard) -> (r: Bitboard)
        requires
            pos.0 != 0,
        ensures
            r@ == pawn_double_squares(c, pos.spec_index()),
    {
        proof {
            use_type_invariant(self);
        }
        let i = pos.to_index();
        assert(self.pawn_double_moves[color_index(c)].entry(i as int)@ == pawn_double_squares(
            c,
            i as int,
        ));
        *self.pawn_double_moves[color_slot(c)].get(pos)
    }

    /// The squares a pawn of side `c` attacks from the highest-numbered
    /// square of `pos`.
    pub fn pawn_attacks(&self, c: Color, pos: Bitboard) -> (r: Bitboard)
        requires
            pos.0 != 0,
        ensures
            r@ == pawn_attack_squares(c, pos.spec_index()),
    {
        proof {
            use_type_invariant(self);
        }
        let i = pos.to_index();
        assert(self.pawn_attacks[color_index(c)].entry(i as int)@ == pawn_attack_squares(
            c,
            i as int,
        ));
        *self.pawn_attacks[color_slot(c)].get(pos)
    }

    /// The squares of the en passant capture that side `c` has when the
    /// code of the en passant file is `k`: 0 for none, else the file plus one.
    pub fn pawn_ep_info(&self, c: Color, k: usize) -> (r: EPInfo)
        requires
            k < 9,
        ensures
            r.describes(c, k as int),
    {
        proof {
            use_type_invariant(self);
        }
        assert(self.pawn_ep_info[color_index(c)][k as int].describes(c, k as int));
        self.pawn_ep_info[color_slot(c)][k]
    }

    /// The squares from which a pawn of side `c` advances one square onto
    /// the highest-numbered square of `target`.
    pub fn rev_pawn_moves(&self, c: Color, target: Bitboard) -> (r: Bitboard)
        requires
            target.0 != 0,
        ensures
            r@ == pawn_push_sources(c, target.spec_index()),
    {
        proof {
            use_type_invariant(self);
        }
        let i = target.to_index();
        assert(self.rev_pawn_moves[color_index(c)].entry(i as int)@ == pawn_push_sources(
            c,
            i as int,
        ));
        *self.rev_pawn_moves[color_slot(c)].get(target)
    }

    /// The squares from which a pawn of side `c` advances two squares onto
    /// the highest-numbered square of `target`.
    pub fn rev_pawn_dbl_moves(&self, c: Color, target: Bitboard) -> (r: Bitboard)
        requires
            target.0 != 0,
        ensures
            r@ == pawn_double_sources(c, target.spec_index()),
    {
        proof {
            use_type_invariant(self);
        }
        let i = target.to_index();
        assert(self.rev_pawn_dbl_moves[color_index(c)].entry(i as int)@ == pawn_double_sources(
            c,
            i as int,
        ));
        *self.rev_pawn_dbl_moves[color_slot(c)].get(target)
    }

    /// The squares from which a pawn of side `c` attacks the
    /// highest-numbered square of `target`.
    pub fn rev_pawn_attacks(&self, c: Color, target: Bitboard) -> (r: Bitboard)
        requires
            target.0 != 0,
        ensures
            r@ == pawn_attack_sources(c, target.spec_index()),
    {
        proof {
            use_type_invariant(self);
        }
        let i = target.to_index();
        assert(self.rev_pawn_attacks[color_index(c)].entry(i as int)@ == pawn_attack_sources(
            c,
            i as int,
        ));
        *self.rev_pawn_attacks[color_slot(c)].get(target)
    }
}

} // verus!
