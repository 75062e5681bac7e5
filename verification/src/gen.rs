//! Move generation: the squares each piece reaches, and the moves of the
//! side to move before the safety of its king is looked at.

use crate::bitboard::Bitboard;
use crate::board::Board;
use crate::coords::{file_of, rank_of};
use crate::moves::{Move, SimpleMove};
use crate::patterns::{
    between,
    bishop_squares,
    clear_between,
    diagonal_squares,
    ep_kill_squares,
    ep_source_squares,
    ep_target_squares,
    file_squares,
    king_squares,
    knight_squares,
    pawn_attack_squares,
    pawn_double_squares,
    pawn_push_squares,
    queen_squares,
    rank_blocked,
    rank_clear,
    rook_squares,
    Tables,
};
use crate::piece::{Color, Piece};
use crate::utils::{
    bit,
    bit_at,
    bits_of,
    byte_swapped,
    group_bits,
    lemma_bits_bounded,
    lemma_lanes,
    lemma_lowest_bit,
    lemma_shifts,
    lemma_zero_iff_empty,
    lowest_bit,
};
use vstd::prelude::*;
use vstd::wrapping::u64_specs::wrapping_sub;

verus! {

broadcast use group_bits;

/// The squares of the line `line` that a sliding piece on `s` attacks when
/// the squares of `occ` are occupied: each way up to and with the first
/// occupied square of the line.
pub open spec fn line_reach(occ: Set<int>, line: Set<int>, s: int) -> Set<int> {
    Set::new(
        |t: int|
            line.contains(t) && t != s && forall|c: int|
                ((s < c && c < t) || (t < c && c < s)) && line.contains(c) ==> !#[trigger] occ.contains(
                    c,
                ),
    )
}

/// The word that the subtraction trick leaves for the piece `piece` (one
/// bit) on the line `mask` with the occupied squares `occ`.
pub open spec fn slide_word(occ: u64, piece: u64, mask: u64) -> u64 {
    let relevant = mask & occ;
    let fwd = wrapping_sub(relevant, piece << 1);
    let rev = byte_swapped(
        wrapping_sub(wrapping_sub(byte_swapped(relevant), byte_swapped(piece)), byte_swapped(piece)),
    );
    mask & (fwd ^ rev)
}

/// At most one bit is set in the byte of `m` that starts at bit `k`.
pub open spec fn lane_thin(m: u64, k: u64) -> bool {
    let b = m & (0xffu64 << k);
    b & wrapping_sub(b, 1) == 0
}

/// At most one bit is set in each byte of `m`.
pub open spec fn thin(m: u64) -> bool {
    lane_thin(m, 0) && lane_thin(m, 8) && lane_thin(m, 16) && lane_thin(m, 24) && lane_thin(m, 32)
        && lane_thin(m, 40) && lane_thin(m, 48) && lane_thin(m, 56)
}

/// The bits strictly between bit `s` and bit `t`.
pub open spec fn span_word(s: u64, t: u64) -> u64 {
    if s < t {
        wrapping_sub(1u64 << t, 1) & !wrapping_sub(1u64 << s, 1) & !(1u64 << s)
    } else {
        wrapping_sub(1u64 << s, 1) & !wrapping_sub(1u64 << t, 1) & !(1u64 << t)
    }
}

proof fn lemma_slide_word(occ: u64, m: u64, s: u64, t: u64)
    by (bit_vector)
    requires
        s < 64,
        t < 64,
        thin(m),
        bit_at(m, s),
        bit_at(m, t),
    ensures
        bit_at(slide_word(occ, 1u64 << s, m), t) <==> (t != s && occ & m & span_word(s, t) == 0),
        forall|c: u64|
            c < 64 ==> #[trigger] bit_at(span_word(s, t), c) == ((s < c && c < t) || (t < c && c
                < s)),
{
}

/// The squares of a set, handed out one at a time from the lowest bit up.
#[derive(Copy, Clone)]
pub struct OccupancyIterator(pub Bitboard);

impl OccupancyIterator {
    /// Takes the square of the lowest bit out of the set and returns it;
    /// `None` once the set is empty.
    pub fn next(&mut self) -> (r: Option<Bitboard>)
        ensures
            old(self).0.0 == 0 ==> r.is_none() && final(self).0 == old(self).0,
            old(self).0.0 != 0 ==> r.is_some(),
            r matches Some(b) ==> b.is_square() && b.spec_index() == lowest_bit(old(self).0.0)
                && old(self).0@.contains(b.spec_index()) && final(self).0@ == old(self).0@.remove(
                b.spec_index(),
            ) && forall|i: int| old(self).0@.contains(i) ==> b.spec_index() <= i,
    {
        let word = self.0.0;
        let next = word & (!word).wrapping_add(1);
        if word != 0 {
            proof {
                lemma_lowest_bit(word);
                let l = lowest_bit(word);
                crate::utils::lemma_bits_one(l);
                Bitboard(next).lemma_square(l);
                lemma_bits_bounded(word);
                assert(bits_of(word & !next) =~= bits_of(word).remove(l));
            }
            self.0 = Bitboard(word & !next);
            Some(Bitboard(next))
        } else {
            None
        }
    }
}

impl Bitboard {
    /// The squares of the set, to be handed out from the lowest bit up.
    pub fn occupied(&self) -> (r: OccupancyIterator)
        ensures
            r.0 == *self,
    {
        OccupancyIterator(*self)
    }
}

proof fn lemma_rank_pattern(occ: u64, sh: u64)
    by (bit_vector)
    requires
        sh <= 56,
    ensures
        (((occ >> sh) & 0x7e) >> 1) < 64,
        forall|j: u64|
            j < 6 ==> #[trigger] bit_at(((occ >> sh) & 0x7e) >> 1, j) == bit_at(
                occ,
                (sh + j + 1) as u64,
            ),
{
}

/// A word with at most one set bit in each group of eight has at most
/// one set bit in the byte that starts at bit `8 * k`.
proof fn lemma_lane_thin(m: u64, k: u64)
    requires
        k < 8,
        forall|i: int, j: int|
            bits_of(m).contains(i) && bits_of(m).contains(j) && i / 8 == j / 8 ==> i == j,
    ensures
        lane_thin(m, (8 * k) as u64),
{
    let lane = 0xffu64 << ((8 * k) as u64);
    let b = m & lane;
    let c = b & wrapping_sub(b, 1);
    lemma_lanes(0, k);
    if c != 0 {
        lemma_lowest_bit(c);
        let j = lowest_bit(c);
        assert(bits_of(b).contains(j));
        lemma_zero_iff_empty(b);
        lemma_lowest_bit(b);
        let i = lowest_bit(b);
        assert(bits_of(b).contains(i) && bits_of(b).contains(j) && i != j);
        assert(bit_at(lane, i as u64) && bit_at(lane, j as u64));
        assert(i / 8 == k && j / 8 == k);
        assert(bits_of(m).contains(i) && bits_of(m).contains(j));
    }
}

/// A word with at most one set bit in each group of eight is thin.
proof fn lemma_thin(m: u64)
    requires
        forall|i: int, j: int|
            bits_of(m).contains(i) && bits_of(m).contains(j) && i / 8 == j / 8 ==> i == j,
    ensures
        thin(m),
{
    lemma_lane_thin(m, 0);
    lemma_lane_thin(m, 1);
    lemma_lane_thin(m, 2);
    lemma_lane_thin(m, 3);
    lemma_lane_thin(m, 4);
    lemma_lane_thin(m, 5);
    lemma_lane_thin(m, 6);
    lemma_lane_thin(m, 7);
}

/// Along a file, the squares between two squares are those whose bits
/// lie between their bits.
proof fn lemma_file_reach(occ: Set<int>, s: int)
    requires
        0 <= s < 64,
    ensures
        line_reach(occ, file_squares(s), s) == Set::new(
            |t: int|
                0 <= t < 64 && t != s && file_of(t) == file_of(s) && clear_between(occ, s, t),
        ),
{
    let line = file_squares(s);
    assert forall|t: int| line.contains(t) && t != s implies (clear_between(occ, s, t) <==> (forall|
        c: int,
    |
        ((s < c && c < t) || (t < c && c < s)) && line.contains(c) ==> !#[trigger] occ.contains(
            c,
        ))) by {
        assert forall|c: int| 0 <= c < 64 implies (between(s, t, c) <==> (((s < c && c < t) || (t
            < c && c < s)) && line.contains(c))) by {}
    }
    assert(line_reach(occ, line, s) =~= Set::new(
        |t: int| 0 <= t < 64 && t != s && file_of(t) == file_of(s) && clear_between(occ, s, t),
    ));
}

/// Along a diagonal, the squares between two squares are those whose
/// bits lie between their bits.
proof fn lemma_diagonal_reach(occ: Set<int>, s: int, delta: int)
    requires
        0 <= s < 64,
        delta == 1 || delta == -1,
    ensures
        line_reach(occ, diagonal_squares(s, delta), s) == Set::new(
            |t: int|
                0 <= t < 64 && t != s && diagonal_squares(s, delta).contains(t) && clear_between(
                    occ,
                    s,
                    t,
                ),
        ),
{
    let line = diagonal_squares(s, delta);
    assert forall|t: int| line.contains(t) && t != s implies (clear_between(occ, s, t) <==> (forall|
        c: int,
    |
        ((s < c && c < t) || (t < c && c < s)) && line.contains(c) ==> !#[trigger] occ.contains(
            c,
        ))) by {
        assert forall|c: int| 0 <= c < 64 implies (between(s, t, c) <==> (((s < c && c < t) || (t
            < c && c < s)) && line.contains(c))) by {}
    }
    assert(line_reach(occ, line, s) =~= Set::new(
        |t: int|
            0 <= t < 64 && t != s && diagonal_squares(s, delta).contains(t) && clear_between(
                occ,
                s,
                t,
            ),
    ));
}

impl Board {
    /// The squares of the line `mask` that a sliding piece on the one
    /// square of `attacker` attacks, found by subtracting the piece from
    /// the occupied squares of the line in both directions.
    fn hyperbola_quintessence(occupancy: Bitboard, attacker: Bitboard, mask: Bitboard) -> (r:
        Bitboard)
        requires
            attacker.is_square(),
            mask@.contains(attacker.spec_index()),
            forall|i: int, j: int|
                mask@.contains(i) && mask@.contains(j) && i / 8 == j / 8 ==> i == j,
        ensures
            r@ == line_reach(occupancy@, mask@, attacker.spec_index()),
    {
        let relevant = mask & occupancy;
        let fwd = relevant - Bitboard(attacker.0 << 1);
        let rev = (relevant.flip() - attacker.flip() - attacker.flip()).flip();
        let r = mask & (fwd ^ rev);
        proof {
            let s = attacker.spec_index();
            attacker.lemma_square(s);
            assert(r.0 == slide_word(occupancy.0, attacker.0, mask.0));
            lemma_thin(mask.0);
            lemma_bits_bounded(mask.0);
            assert forall|t: int|
                r@.contains(t) <==> line_reach(occupancy@, mask@, s).contains(t) by {
                if mask@.contains(t) {
                    lemma_slide_word(occupancy.0, mask.0, s as u64, t as u64);
                    let z = occupancy.0 & mask.0 & span_word(s as u64, t as u64);
                    assert(forall|c: int|
                        bits_of(z).contains(c) <==> (occupancy@.contains(c) && mask@.contains(c)
                            && bit(span_word(s as u64, t as u64), c)));
                    if t != s {
                        if z == 0 {
                            lemma_zero_iff_empty(z);
                            assert forall|c: int|
                                ((s < c && c < t) || (t < c && c < s)) && mask@.contains(
                                    c,
                                ) implies !#[trigger] occupancy@.contains(c) by {
                                if occupancy@.contains(c) {
                                    assert(bit_at(span_word(s as u64, t as u64), c as u64));
                                    assert(bits_of(z).contains(c));
                                }
                            }
                        } else {
                            lemma_lowest_bit(z);
                            let c = lowest_bit(z);
                            assert(bits_of(z).contains(c));
                            assert(bit_at(span_word(s as u64, t as u64), c as u64));
                            assert(occupancy@.contains(c) && mask@.contains(c));
                        }
                    }
                }
            }
            assert(r@ =~= line_reach(occupancy@, mask@, s));
        }
        r
    }

    /// The squares a rook on the one square of `rook_position` attacks in
    /// this position.
    pub fn rook_reach(&self, tables: &Tables, rook_position: Bitboard) -> (r: Bitboard)
        requires
            rook_position.is_square(),
        ensures
            r@ == rook_squares(self.occupied(), rook_position.spec_index()),
    {
        let occupancy = self.occupancy();
        let (rook_file, rook_rank) = rook_position.coords();
        let rank_shift: u64 = 8 * (7 - rook_rank as u64);
        let reduced: u64 = ((occupancy.0 >> rank_shift) & 0x7e) >> 1;
        proof {
            lemma_rank_pattern(occupancy.0, rank_shift);
        }
        let pattern = tables.rank_attacks(rook_file, reduced as usize);
        let rank_attacks = Bitboard(pattern.0 << rank_shift);
        let file_mask = tables.files(rook_position);
        proof {
            rook_position.lemma_square(rook_position.spec_index());
        }
        let file_attacks = Board::hyperbola_quintessence(occupancy, rook_position, file_mask);
        let r = rank_attacks | file_attacks;
        proof {
            let s = rook_position.spec_index();
            let occ = self.occupied();
            lemma_file_reach(occ, s);
            lemma_shifts(pattern.0, rank_shift);
            lemma_bits_bounded(pattern.0);
            assert forall|t: int| 0 <= t < 64 && rank_of(t) == rank_of(s) implies (
            rank_attacks@.contains(t) <==> (t != s && clear_between(occ, s, t))) by {
                let x = file_of(t);
                let b = t - rank_shift;
                assert(rank_attacks@.contains(t) <==> pattern@.contains(b));
                assert(7 - b == x);
                if t != s {
                    assert forall|m: int| ((rook_file < m < x) || (x < m < rook_file)) implies (
                    rank_blocked(reduced as int, m) <==> occ.contains(
                        crate::coords::square_at(m, rank_of(s)),
                    )) by {
                        assert(bit_at(reduced, (6 - m) as u64) == bit_at(
                            occupancy.0,
                            (rank_shift + (6 - m) as u64 + 1) as u64,
                        ));
                    }
                    if rank_clear(reduced as int, rook_file as int, x) {
                        assert forall|c: int| 0 <= c < 64 && between(s, t, c) implies !occ.contains(
                            c,
                        ) by {
                            let m = file_of(c);
                            assert(c == crate::coords::square_at(m, rank_of(s)));
                            assert(!rank_blocked(reduced as int, m));
                        }
                    }
                    if clear_between(occ, s, t) {
                        assert forall|m: int|
                            ((rook_file < m < x) || (x < m < rook_file)) implies !rank_blocked(
                            reduced as int,
                            m,
                        ) by {
                            let c = crate::coords::square_at(m, rank_of(s));
                            assert(between(s, t, c));
                        }
                    }
                }
            }
            assert forall|t: int| 0 <= t < 64 && rank_of(t) != rank_of(s) implies !
            rank_attacks@.contains(t) by {
                let b = t - rank_shift;
                if rank_attacks@.contains(t) {
                    assert(pattern@.contains(b));
                }
            }
            assert(r@ =~= rook_squares(occ, s));
        }
        r
    }

    /// The squares a bishop on the one square of `bishop_position` attacks
    /// in this position.
    pub fn bishop_reach(&self, tables: &Tables, bishop_position: Bitboard) -> (r: Bitboard)
        requires
            bishop_position.is_square(),
        ensures
            r@ == bishop_squares(self.occupied(), bishop_position.spec_index()),
    {
        let occupancy = self.occupancy();
        proof {
            bishop_position.lemma_square(bishop_position.spec_index());
        }
        let mask_nw = tables.nw_diagonals(bishop_position);
        let nw_attacks = Board::hyperbola_quintessence(occupancy, bishop_position, mask_nw);
        let mask_sw = tables.sw_diagonals(bishop_position);
        let sw_attacks = Board::hyperbola_quintessence(occupancy, bishop_position, mask_sw);
        let r = nw_attacks | sw_attacks;
        proof {
            let s = bishop_position.spec_index();
            lemma_diagonal_reach(self.occupied(), s, 1);
            lemma_diagonal_reach(self.occupied(), s, -1);
            assert(r@ =~= bishop_squares(self.occupied(), s));
        }
        r
    }

    /// The squares a knight on the one square of `knight_position` attacks.
    pub fn knight_reach(&self, tables: &Tables, knight_position: Bitboard) -> (r: Bitboard)
        requires
            knight_position.is_square(),
        ensures
            r@ == knight_squares(knight_position.spec_index()),
    {
        tables.knight_attacks(knight_position)
    }

    /// The squares a king on the one square of `king_position` attacks.
    pub fn king_reach(&self, tables: &Tables, king_position: Bitboard) -> (r: Bitboard)
        requires
            king_position.is_square(),
        ensures
            r@ == king_squares(king_position.spec_index()),
    {
        tables.king_attacks(king_position)
    }

    /// The squares a queen on the one square of `queen_position` attacks
    /// in this position.
    pub fn queen_reach(&self, tables: &Tables, queen_position: Bitboard) -> (r: Bitboard)
        requires
            queen_position.is_square(),
        ensures
            r@ == queen_squares(self.occupied(), queen_position.spec_index()),
    {
        self.bishop_reach(tables, queen_position) | self.rook_reach(tables, queen_position)
    }
}

/// The move that takes a piece from `s` to `t`, where it stands as a
/// piece of kind `p`.
pub open spec fn step(p: Piece, s: int, t: int) -> Move {
    Move::Simple(slide(p, s, t))
}

/// The change that taking a piece from `s` to `t` makes, where it
/// stands as a piece of kind `p`: both squares are emptied, and `t` filled.
pub open spec fn slide(p: Piece, s: int, t: int) -> SimpleMove {
    SimpleMove { delete: Bitboard::of(set![s, t]), piece: p, add: Bitboard::of(set![t]) }
}

/// The moves that take a piece of kind `p` from `s` to `t`: one move, but
/// for a pawn that arrives on the first or last rank one move for each
/// kind it can become: knight, bishop, rook, queen.
pub open spec fn arrival(p: Piece, s: int, t: int) -> Seq<Move> {
    if p == Piece::Pawn && (rank_of(t) == 0 || rank_of(t) == 7) {
        seq![
            step(Piece::Knight, s, t),
            step(Piece::Bishop, s, t),
            step(Piece::Rook, s, t),
            step(Piece::Queen, s, t),
        ]
    } else {
        seq![step(p, s, t)]
    }
}

/// The moves of a piece of kind `p` from `s` to the squares of `targets`
/// whose bit is `k` or more, from the lowest bit up.
pub open spec fn steps_from(p: Piece, s: int, targets: Set<int>, k: int) -> Seq<Move>
    decreases 64 - k,
{
    if k >= 64 || k < 0 {
        Seq::empty()
    } else if targets.contains(k) {
        arrival(p, s, k) + steps_from(p, s, targets, k + 1)
    } else {
        steps_from(p, s, targets, k + 1)
    }
}

/// The move of a pawn of side `c` from `s` that takes en passant, when
/// the code of the en passant file is `k`: it empties `s` and the square
/// of the pawn taken, and fills the square that pawn passed over.
pub open spec fn ep_step(c: Color, s: int, k: int) -> Move {
    Move::Simple(
        SimpleMove {
            delete: Bitboard::of(set![s].union(ep_kill_squares(c, k))),
            piece: Piece::Pawn,
            add: Bitboard::of(ep_target_squares(c, k)),
        },
    )
}

/// A move is among the moves of a piece from `s` to the squares of
/// `targets` exactly when it is one of those that take it to one of them.
pub proof fn lemma_steps_contain(p: Piece, s: int, targets: Set<int>, k: int, m: Move)
    requires
        0 <= k <= 64,
    ensures
        steps_from(p, s, targets, k).contains(m) <==> exists|t: int|
            k <= t < 64 && targets.contains(t) && #[trigger] arrival(p, s, t).contains(m),
    decreases 64 - k,
{
    broadcast use vstd::seq_lib::lemma_seq_concat_contains_all_elements;

    if k < 64 {
        lemma_steps_contain(p, s, targets, k + 1, m);
        if steps_from(p, s, targets, k).contains(m) {
            if targets.contains(k) && arrival(p, s, k).contains(m) {
            } else {
                let t = choose|t: int|
                    k + 1 <= t < 64 && targets.contains(t) && #[trigger] arrival(p, s, t).contains(
                        m,
                    );
                assert(k <= t < 64 && targets.contains(t) && arrival(p, s, t).contains(m));
            }
        }
        if exists|t: int|
            k <= t < 64 && targets.contains(t) && #[trigger] arrival(p, s, t).contains(m) {
            let t = choose|t: int|
                k <= t < 64 && targets.contains(t) && #[trigger] arrival(p, s, t).contains(m);
            if t != k {
                assert(k + 1 <= t < 64 && targets.contains(t) && arrival(p, s, t).contains(m));
            }
        }
    } else {
        assert(steps_from(p, s, targets, k) =~= Seq::<Move>::empty());
    }
}

proof fn lemma_steps_skip(p: Piece, s: int, targets: Set<int>, k: int, l: int)
    requires
        0 <= k <= l <= 64,
        forall|i: int| k <= i < l ==> !targets.contains(i),
    ensures
        steps_from(p, s, targets, k) == steps_from(p, s, targets, l),
    decreases l - k,
{
    if k < l {
        lemma_steps_skip(p, s, targets, k + 1, l);
    }
}

/// Adds to `buffer` the moves of a piece of kind `piece` from the one
/// square of `pos` to each square of `targets`, from the lowest bit up.
fn push_steps(piece: Piece, pos: Bitboard, targets: Bitboard, buffer: &mut Vec<Move>)
    requires
        pos.is_square(),
    ensures
        final(buffer)@ == old(buffer)@ + steps_from(piece, pos.spec_index(), targets@, 0),
{
    let ghost s = pos.spec_index();
    let ghost all = old(buffer)@ + steps_from(piece, s, targets@, 0);
    let ghost mut k: int = 0;
    let mut rest = targets.occupied();
    proof {
        pos.lemma_square(s);
    }
    while rest.0.0 != 0
        invariant
            0 <= k <= 64,
            pos.is_square(),
            s == pos.spec_index(),
            pos@ == set![s],
            forall|i: int|
                #![trigger rest.0@.contains(i)]
                #![trigger targets@.contains(i)]
                rest.0@.contains(i) <==> (targets@.contains(i) && k <= i),
            buffer@ + steps_from(piece, s, targets@, k) == all,
        decreases rest.0@.len(),
    {
        proof {
            lemma_bits_bounded(rest.0.0);
        }
        let ghost before = buffer@;
        let ghost rest_before = rest.0@;
        match rest.next() {
            Some(tgt) => {
                let ghost t = tgt.spec_index();
                proof {
                    tgt.lemma_square(t);
                    assert(rest_before.contains(t));
                    assert forall|i: int| k <= i < t implies !targets@.contains(i) by {
                        if targets@.contains(i) {
                            assert(rest_before.contains(i));
                        }
                    }
                    lemma_steps_skip(piece, s, targets@, k, t);
                    Bitboard(pos.0 | tgt.0).lemma_of();
                    tgt.lemma_of();
                    assert(Bitboard(pos.0 | tgt.0)@ =~= set![s, t]);
                }
                let promotes = match piece {
                    Piece::Pawn => {
                        let y = tgt.rank();
                        y == 0 || y == 7
                    },
                    _ => false,
                };
                if promotes {
                    buffer.push(
                        Move::Simple(SimpleMove { delete: pos | tgt, piece: Piece::Knight, add: tgt }),
                    );
                    buffer.push(
                        Move::Simple(SimpleMove { delete: pos | tgt, piece: Piece::Bishop, add: tgt }),
                    );
                    buffer.push(
                        Move::Simple(SimpleMove { delete: pos | tgt, piece: Piece::Rook, add: tgt }),
                    );
                    buffer.push(
                        Move::Simple(SimpleMove { delete: pos | tgt, piece: Piece::Queen, add: tgt }),
                    );
                } else {
                    buffer.push(Move::Simple(SimpleMove { delete: pos | tgt, piece, add: tgt }));
                }
                proof {
                    assert(buffer@ =~= before + arrival(piece, s, t));
                    assert(buffer@ + steps_from(piece, s, targets@, t + 1) =~= before + (arrival(
                        piece,
                        s,
                        t,
                    ) + steps_from(piece, s, targets@, t + 1)));
                    k = t + 1;
                }
            },
            None => {},
        }
    }
    proof {
        lemma_zero_iff_empty(rest.0.0);
        lemma_bits_bounded(targets.0);
        lemma_steps_skip(piece, s, targets@, k, 64);
        assert(buffer@ + steps_from(piece, s, targets@, 64) =~= buffer@);
    }
}

impl Board {
    /// The squares to which a piece of kind `p` of the side to move can
    /// go from `s`: those it attacks, but for the squares of its own side.
    pub open spec fn targets_of(self, p: Piece, s: int) -> Set<int> {
        Set::new(
            |t: int|
                0 <= t < 64 && self.attacks_from(self.player, p, s, t) && !self.side(
                    self.player,
                )@.contains(t),
        )
    }

    /// The advances of the pawn of the side to move on `s`: one square
    /// where that square is empty, and then two where the pawn stands on
    /// its home rank and that square is empty too.
    pub open spec fn pawn_advances_spec(self, s: int) -> Seq<Move> {
        let c = self.player;
        let one = pawn_push_squares(c, s).difference(self.occupied());
        let two = pawn_double_squares(c, s).difference(self.occupied());
        if one != Set::<int>::empty() {
            steps_from(Piece::Pawn, s, one, 0) + steps_from(Piece::Pawn, s, two, 0)
        } else {
            Seq::empty()
        }
    }

    /// The captures of the pawn of the side to move on `s`: onto each
    /// square it attacks that holds an enemy piece, and en passant where
    /// the pawn stands beside a pawn that has just advanced two squares.
    pub open spec fn pawn_captures_spec(self, s: int) -> Seq<Move> {
        let c = self.player;
        let k: int = if self.en_passant <= 8 {
            self.en_passant as int
        } else {
            0
        };
        steps_from(
            Piece::Pawn,
            s,
            pawn_attack_squares(c, s).intersect(self.side(c.other())@),
            0,
        ) + (if ep_source_squares(c, k).contains(s) {
            seq![ep_step(c, s, k)]
        } else {
            Seq::empty()
        })
    }

    /// The moves of the piece of kind `p` of the side to move on `s`.
    pub open spec fn moves_of(self, p: Piece, s: int) -> Seq<Move> {
        if p == Piece::Pawn {
            self.pawn_advances_spec(s) + self.pawn_captures_spec(s)
        } else {
            steps_from(p, s, self.targets_of(p, s), 0)
        }
    }

    /// The moves of the pieces of kind `p` of the side to move that stand
    /// on a square whose bit is `k` or more, from the lowest bit up.
    pub open spec fn men_moves_from(self, p: Piece, k: int) -> Seq<Move>
        decreases 64 - k,
    {
        if k >= 64 || k < 0 {
            Seq::empty()
        } else if self.men(self.player, p).contains(k) {
            self.moves_of(p, k) + self.men_moves_from(p, k + 1)
        } else {
            self.men_moves_from(p, k + 1)
        }
    }

    /// The castling moves of the side to move: on the king's side, then
    /// on the queen's side, each where the side may still castle there,
    /// no piece stands in the way, and neither the king's square nor the
    /// square it passes over is attacked.
    pub open spec fn castle_moves_spec(self) -> Seq<Move> {
        (if self.castle_spec(false) is Ok {
            seq![Move::CastleShort]
        } else {
            Seq::empty()
        }) + (if self.castle_spec(true) is Ok {
            seq![Move::CastleLong]
        } else {
            Seq::empty()
        })
    }

    /// The moves of the pieces of kind `p` of the side to move, before the
    /// safety of its king is looked at; for the king, with castling.
    pub open spec fn piece_moves_spec(self, p: Piece) -> Seq<Move> {
        if p == Piece::King {
            self.men_moves_from(p, 0) + self.castle_moves_spec()
        } else {
            self.men_moves_from(p, 0)
        }
    }

    /// All moves of the side to move, before the safety of its king is
    /// looked at: pawns first, then knights, bishops, rooks, queens, king.
    pub open spec fn pre_legal_moves_spec(self) -> Seq<Move> {
        self.piece_moves_spec(Piece::Pawn) + self.piece_moves_spec(Piece::Knight)
            + self.piece_moves_spec(Piece::Bishop) + self.piece_moves_spec(Piece::Rook)
            + self.piece_moves_spec(Piece::Queen) + self.piece_moves_spec(Piece::King)
    }

    /// A move is among the moves of the pieces of a kind exactly when it
    /// is a move of one of them.
    pub proof fn lemma_men_moves_contain(self, p: Piece, k: int, m: Move)
        requires
            0 <= k <= 64,
        ensures
            self.men_moves_from(p, k).contains(m) <==> exists|s: int|
                k <= s < 64 && self.men(self.player, p).contains(s) && #[trigger] self.moves_of(
                    p,
                    s,
                ).contains(m),
        decreases 64 - k,
    {
        broadcast use vstd::seq_lib::lemma_seq_concat_contains_all_elements;

        if k < 64 {
            self.lemma_men_moves_contain(p, k + 1, m);
            if self.men_moves_from(p, k).contains(m) {
                if self.men(self.player, p).contains(k) && self.moves_of(p, k).contains(m) {
                } else {
                    let s = choose|s: int|
                        k + 1 <= s < 64 && self.men(self.player, p).contains(s)
                            && #[trigger] self.moves_of(p, s).contains(m);
                    assert(k <= s < 64 && self.men(self.player, p).contains(s) && self.moves_of(
                        p,
                        s,
                    ).contains(m));
                }
            }
            if exists|s: int|
                k <= s < 64 && self.men(self.player, p).contains(s) && #[trigger] self.moves_of(
                    p,
                    s,
                ).contains(m) {
                let s = choose|s: int|
                    k <= s < 64 && self.men(self.player, p).contains(s) && #[trigger] self.moves_of(
                        p,
                        s,
                    ).contains(m);
                if s != k {
                    assert(k + 1 <= s < 64 && self.men(self.player, p).contains(s)
                        && self.moves_of(p, s).contains(m));
                }
            }
        } else {
            assert(self.men_moves_from(p, k) =~= Seq::<Move>::empty());
        }
    }

    proof fn lemma_men_skip(self, p: Piece, k: int, l: int)
        requires
            0 <= k <= l <= 64,
            forall|i: int| k <= i < l ==> !self.men(self.player, p).contains(i),
        ensures
            self.men_moves_from(p, k) == self.men_moves_from(p, l),
        decreases l - k,
    {
        if k < l {
            self.lemma_men_skip(p, k + 1, l);
        }
    }

    /// Adds to `buffer` the advances of the pawn on the one square of `pos`.
    fn pawn_advances(&self, tables: &Tables, pos: Bitboard, buffer: &mut Vec<Move>)
        requires
            pos.is_square(),
        ensures
            final(buffer)@ == old(buffer)@ + self.pawn_advances_spec(pos.spec_index()),
    {
        let free = Bitboard(!self.occupancy().0);
        let mv_tgt = tables.pawn_single_moves(self.player, pos) & free;
        proof {
            pos.lemma_square(pos.spec_index());
            lemma_bits_bounded(mv_tgt.0);
            assert(mv_tgt@ =~= pawn_push_squares(self.player, pos.spec_index()).difference(
                self.occupied(),
            ));
        }
        if mv_tgt.is_populated() {
            let ghost before = buffer@;
            push_steps(Piece::Pawn, pos, mv_tgt, buffer);
            let mv2_tgt = tables.pawn_double_moves(self.player, pos) & free;
            proof {
                lemma_bits_bounded(mv2_tgt.0);
                assert(mv2_tgt@ =~= pawn_double_squares(self.player, pos.spec_index()).difference(
                    self.occupied(),
                ));
            }
            push_steps(Piece::Pawn, pos, mv2_tgt, buffer);
            proof {
                let s = pos.spec_index();
                assert(buffer@ =~= before + (steps_from(Piece::Pawn, s, mv_tgt@, 0) + steps_from(
                    Piece::Pawn,
                    s,
                    mv2_tgt@,
                    0,
                )));
            }
        } else {
            assert(buffer@ =~= buffer@ + Seq::<Move>::empty());
        }
    }

    /// Adds to `buffer` the captures of the pawn on the one square of `pos`.
    fn pawn_captures(&self, tables: &Tables, pos: Bitboard, buffer: &mut Vec<Move>)
        requires
            pos.is_square(),
        ensures
            final(buffer)@ == old(buffer)@ + self.pawn_captures_spec(pos.spec_index()),
    {
        let ghost before = buffer@;
        let ghost s = pos.spec_index();
        let player = self.player;
        let cap_tgt = tables.pawn_attacks(player, pos) & self.color_set(player.opponent());
        proof {
            pos.lemma_square(s);
        }
        push_steps(Piece::Pawn, pos, cap_tgt, buffer);
        let k: usize = if self.en_passant <= 8 {
            self.en_passant as usize
        } else {
            0
        };
        let ep_info = tables.pawn_ep_info(player, k);
        if (ep_info.source_squares & pos).is_populated() {
            let mv = SimpleMove {
                delete: pos | ep_info.kill_square,
                piece: Piece::Pawn,
                add: ep_info.target_square,
            };
            proof {
                lemma_lowest_bit((ep_info.source_squares.0 & pos.0) as u64);
                mv.delete.lemma_of();
                mv.add.lemma_of();
                assert(mv.delete@ =~= set![s].union(ep_kill_squares(player, k as int)));
                assert(Move::Simple(mv) == ep_step(player, s, k as int));
            }
            buffer.push(Move::Simple(mv));
            proof {
                assert(buffer@ =~= before + self.pawn_captures_spec(s));
            }
        } else {
            proof {
                if ep_source_squares(player, k as int).contains(s) {
                    assert(ep_info.source_squares@.intersect(pos@).contains(s));
                }
                assert(buffer@ =~= before + self.pawn_captures_spec(s));
            }
        }
    }

    /// The squares that a piece of kind `piece` on the one square of
    /// `pos` attacks; for a pawn, those a pawn of the side to move attacks.
    fn reach(&self, tables: &Tables, piece: Piece, pos: Bitboard) -> (r: Bitboard)
        requires
            pos.is_square(),
        ensures
            forall|t: int|
                #![trigger r@.contains(t)]
                r@.contains(t) <==> (0 <= t < 64 && self.attacks_from(
                    self.player,
                    piece,
                    pos.spec_index(),
                    t,
                )),
    {
        let r = match piece {
            Piece::Pawn => {
                proof {
                    pos.lemma_square(pos.spec_index());
                }
                tables.pawn_attacks(self.player, pos)
            },
            Piece::Knight => self.knight_reach(tables, pos),
            Piece::Bishop => self.bishop_reach(tables, pos),
            Piece::Rook => self.rook_reach(tables, pos),
            Piece::Queen => self.queen_reach(tables, pos),
            Piece::King => self.king_reach(tables, pos),
        };
        proof {
            lemma_bits_bounded(r.0);
        }
        r
    }

    /// Adds to `buffer` the moves of the pieces of kind `piece` of the
    /// side to move, castling apart.
    fn men_moves(&self, tables: &Tables, piece: Piece, buffer: &mut Vec<Move>)
        ensures
            final(buffer)@ == old(buffer)@ + self.men_moves_from(piece, 0),
    {
        let own = self.color_set(self.player);
        let men = own & self.piece_set(piece);
        let ghost all = old(buffer)@ + self.men_moves_from(piece, 0);
        let ghost mut k: int = 0;
        let mut rest = men.occupied();
        while rest.0.0 != 0
            invariant
                0 <= k <= 64,
                own == self.side(self.player),
                men@ == self.men(self.player, piece),
                forall|i: int|
                    #![trigger rest.0@.contains(i)]
                    #![trigger men@.contains(i)]
                    rest.0@.contains(i) <==> (men@.contains(i) && k <= i),
                buffer@ + self.men_moves_from(piece, k) == all,
            decreases rest.0@.len(),
        {
            proof {
                lemma_bits_bounded(rest.0.0);
            }
            let ghost before = buffer@;
            let ghost rest_before = rest.0@;
            match rest.next() {
                Some(pos) => {
                    let ghost s = pos.spec_index();
                    proof {
                        assert(rest_before.contains(s));
                        assert forall|i: int| k <= i < s implies !men@.contains(i) by {
                            if men@.contains(i) {
                                assert(rest_before.contains(i));
                            }
                        }
                        self.lemma_men_skip(piece, k, s);
                    }
                    match piece {
                        Piece::Pawn => {
                            self.pawn_advances(tables, pos, buffer);
                            self.pawn_captures(tables, pos, buffer);
                            proof {
                                assert(buffer@ =~= before + (self.pawn_advances_spec(s)
                                    + self.pawn_captures_spec(s)));
                            }
                        },
                        _ => {
                            let reached = self.reach(tables, piece, pos);
                            let targets = reached & Bitboard(!own.0);
                            proof {
                                lemma_bits_bounded(targets.0);
                                assert forall|t: int|
                                    targets@.contains(t) <==> self.targets_of(piece, s).contains(
                                        t,
                                    ) by {
                                    assert(targets@.contains(t) <==> (reached@.contains(t) && 0 <= t
                                        < 64 && !own@.contains(t)));
                                }
                                assert(targets@ =~= self.targets_of(piece, s));
                            }
                            push_steps(piece, pos, targets, buffer);
                        },
                    }
                    proof {
                        assert(buffer@ == before + self.moves_of(piece, s));
                        assert(buffer@ + self.men_moves_from(piece, s + 1) =~= before + (
                        self.moves_of(piece, s) + self.men_moves_from(piece, s + 1)));
                        k = s + 1;
                    }
                },
                None => {},
            }
        }
        proof {
            lemma_zero_iff_empty(rest.0.0);
            lemma_bits_bounded(men.0);
            self.lemma_men_skip(piece, k, 64);
            assert(buffer@ + self.men_moves_from(piece, 64) =~= buffer@);
        }
    }

    /// Adds to `buffer` the moves of the pawns of the side to move.
    pub fn pawn_moves(&self, tables: &Tables, buffer: &mut Vec<Move>)
        ensures
            final(buffer)@ == old(buffer)@ + self.piece_moves_spec(Piece::Pawn),
    {
        self.men_moves(tables, Piece::Pawn, buffer)
    }

    /// Adds to `buffer` the moves of the knights of the side to move.
    pub fn knight_moves(&self, tables: &Tables, buffer: &mut Vec<Move>)
        ensures
            final(buffer)@ == old(buffer)@ + self.piece_moves_spec(Piece::Knight),
    {
        self.men_moves(tables, Piece::Knight, buffer)
    }

    /// Adds to `buffer` the moves of the bishops of the side to move.
    pub fn bishop_moves(&self, tables: &Tables, buffer: &mut Vec<Move>)
        ensures
            final(buffer)@ == old(buffer)@ + self.piece_moves_spec(Piece::Bishop),
    {
        self.men_moves(tables, Piece::Bishop, buffer)
    }

    /// Adds to `buffer` the moves of the rooks of the side to move.
    pub fn rook_moves(&self, tables: &Tables, buffer: &mut Vec<Move>)
        ensures
            final(buffer)@ == old(buffer)@ + self.piece_moves_spec(Piece::Rook),
    {
        self.men_moves(tables, Piece::Rook, buffer)
    }

    /// Adds to `buffer` the moves of the queens of the side to move.
    pub fn queen_moves(&self, tables: &Tables, buffer: &mut Vec<Move>)
        ensures
            final(buffer)@ == old(buffer)@ + self.piece_moves_spec(Piece::Queen),
    {
        self.men_moves(tables, Piece::Queen, buffer)
    }

    /// Adds to `buffer` the moves of the king of the side to move, and
    /// then castling on each wing where that is open to it.
    pub fn king_moves(&self, tables: &Tables, buffer: &mut Vec<Move>)
        ensures
            final(buffer)@ == old(buffer)@ + self.piece_moves_spec(Piece::King),
    {
        let ghost before = buffer@;
        self.men_moves(tables, Piece::King, buffer);
        let ghost middle = buffer@;
        if self.short_castling_allowed(self.player) {
            match self.castle_short(tables) {
                Ok(mv) => {
                    buffer.push(mv);
                },
                Err(_) => {},
            }
        }
        if self.long_castling_allowed(self.player) {
            match self.castle_long(tables) {
                Ok(mv) => {
                    buffer.push(mv);
                },
                Err(_) => {},
            }
        }
        proof {
            assert(buffer@ =~= middle + self.castle_moves_spec());
            assert(buffer@ =~= before + (self.men_moves_from(Piece::King, 0)
                + self.castle_moves_spec()));
        }
    }

    /// Adds to `buffer` the moves of the pieces of kind `piece` of the
    /// side to move.
    pub fn piece_moves(&self, tables: &Tables, piece: Piece, buffer: &mut Vec<Move>)
        ensures
            final(buffer)@ == old(buffer)@ + self.piece_moves_spec(piece),
    {
        match piece {
            Piece::Pawn => self.pawn_moves(tables, buffer),
            Piece::Knight => self.knight_moves(tables, buffer),
            Piece::Bishop => self.bishop_moves(tables, buffer),
            Piece::Rook => self.rook_moves(tables, buffer),
            Piece::Queen => self.queen_moves(tables, buffer),
            Piece::King => self.king_moves(tables, buffer),
        }
    }

    /// Adds to `buffer` all moves of the side to move, before the safety
    /// of its king is looked at.
    pub fn pre_legal_moves(&self, tables: &Tables, buffer: &mut Vec<Move>)
        ensures
            final(buffer)@ == old(buffer)@ + self.pre_legal_moves_spec(),
    {
        let ghost before = buffer@;
        self.pawn_moves(tables, buffer);
        self.knight_moves(tables, buffer);
        self.bishop_moves(tables, buffer);
        self.rook_moves(tables, buffer);
        self.queen_moves(tables, buffer);
        self.king_moves(tables, buffer);
        proof {
            assert(buffer@ =~= before + self.pre_legal_moves_spec());
        }
    }
}

} // verus!
