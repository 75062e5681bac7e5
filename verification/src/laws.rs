//! What holds of every position and every move: what a move does to the
//! rights to castle and to capture en passant; that play keeps a sound
//! position sound; that the resolver reads the description of every
//! generated move as that move, and accepts no move that the generator
//! does not give; and that the squares a sliding piece attacks are those
//! a walk along its rays sees.

use crate::bitboard::{initial_squares, Bitboard};
use crate::board::{
    castle_flag,
    castle_info,
    cleared_besides,
    emptied,
    first_file,
    initial_board,
    initial_kind,
    initial_side,
    king_castled,
    king_home,
    lemma_first_file_some,
    lemma_flags,
    right_lost,
    rook_castled,
    rook_home,
    Board,
    CastleInfo,
    IllegalMove,
};
use crate::coords::{file_of, lemma_square_numbering, on_board, rank_of, square_at};
use crate::gen::{arrival, ep_step, lemma_steps_contain, slide, step, steps_from};
use crate::moves::{AlgebraicMove, Move, SimpleAlgebraicMove, SimpleMove};
use crate::patterns::{
    between,
    bishop_line,
    bishop_squares,
    clear_between,
    double_push_rank,
    ep_kill_squares,
    ep_source_squares,
    ep_target_squares,
    home_rank,
    last_rank,
    passed_rank,
    pawn_attack_squares,
    pawn_double_squares,
    pawn_push_squares,
    rook_line,
    rook_squares,
};
use crate::piece::{Color, Piece};
use crate::utils::{bits_of, group_bits, lemma_bits_bounded, lemma_bits_one, one_bit};
use vstd::prelude::*;

verus! {

broadcast use group_bits;

/// The position after the moves of `moves` from place `i` on, made one
/// after the other from `b`.
pub open spec fn play(b: Board, moves: Seq<Move>, i: int) -> Board
    decreases moves.len() - i,
{
    if i < 0 || i >= moves.len() {
        b
    } else {
        play(b.apply_spec(moves[i]), moves, i + 1)
    }
}

proof fn lemma_first_file_found(files: Set<int>, x: int)
    requires
        0 <= x,
    ensures
        0 <= first_file(files, x) <= 8,
        first_file(files, x) != 0 ==> files.contains(first_file(files, x) - 1) && x
            <= first_file(files, x) - 1,
    decreases 8 - x,
{
    if x < 8 && !files.contains(x) {
        lemma_first_file_found(files, x + 1);
    }
}

/// A move that is no castling leaves a side a right to castle exactly
/// where the side had it and the move empties neither the starting square
/// of the king nor that of the rook.
pub proof fn lemma_right_kept(b: Board, mv: SimpleMove, c: Color)
    ensures
        b.apply_simple_spec(mv).may_castle_short(c) <==> (b.may_castle_short(c) && !right_lost(
            mv.delete@,
            c,
            false,
        )),
        b.apply_simple_spec(mv).may_castle_long(c) <==> (b.may_castle_long(c) && !right_lost(
            mv.delete@,
            c,
            true,
        )),
{
    lemma_flags(
        b.castling_rights,
        right_lost(mv.delete@, Color::White, false),
        right_lost(mv.delete@, Color::White, true),
        right_lost(mv.delete@, Color::Black, false),
        right_lost(mv.delete@, Color::Black, true),
    );
}

/// Castling costs the side that castles both its rights and leaves the
/// other side's rights as they were.
pub proof fn lemma_castling_spends_rights(b: Board, info: CastleInfo)
    ensures
        !b.apply_castle_spec(info).may_castle_short(b.player),
        !b.apply_castle_spec(info).may_castle_long(b.player),
        b.apply_castle_spec(info).may_castle_short(b.player.other()) == b.may_castle_short(
            b.player.other(),
        ),
        b.apply_castle_spec(info).may_castle_long(b.player.other()) == b.may_castle_long(
            b.player.other(),
        ),
{
    lemma_flags(b.castling_rights, false, false, false, false);
}

/// No move gives a right to castle back.
pub proof fn lemma_rights_never_return(b: Board, mv: Move, c: Color)
    ensures
        b.apply_spec(mv).may_castle_short(c) ==> b.may_castle_short(c),
        b.apply_spec(mv).may_castle_long(c) ==> b.may_castle_long(c),
{
    match mv {
        Move::Simple(s) => {
            lemma_right_kept(b, s, c);
        },
        Move::CastleLong => {
            lemma_castling_spends_rights(b, castle_info(b.player, true));
        },
        Move::CastleShort => {
            lemma_castling_spends_rights(b, castle_info(b.player, false));
        },
    }
}

/// A right to castle that is gone stays gone, whatever moves follow: if
/// a side has the right after a run of moves, it had it before.
pub proof fn lemma_rights_gone_for_good(b: Board, moves: Seq<Move>, i: int, c: Color)
    requires
        0 <= i,
    ensures
        play(b, moves, i).may_castle_short(c) ==> b.may_castle_short(c),
        play(b, moves, i).may_castle_long(c) ==> b.may_castle_long(c),
    decreases moves.len() - i,
{
    if i < moves.len() {
        lemma_rights_never_return(b, moves[i], c);
        lemma_rights_gone_for_good(b.apply_spec(moves[i]), moves, i + 1, c);
    }
}

/// A pawn of the side to move that goes from its home rank two squares
/// forward, onto a square where no pawn stood, sets the en passant file
/// to its file.
pub proof fn lemma_double_push_sets_file(b: Board, x: int)
    requires
        0 <= x < 8,
        !b.pawns@.contains(square_at(x, double_push_rank(b.player))),
    ensures
        b.apply_simple_spec(
            slide(
                Piece::Pawn,
                square_at(x, home_rank(b.player)),
                square_at(x, double_push_rank(b.player)),
            ),
        ).en_passant == x + 1,
{
    let s = square_at(x, home_rank(b.player));
    let t = square_at(x, double_push_rank(b.player));
    let mv = slide(Piece::Pawn, s, t);
    let both = Bitboard(one_bit(s) | one_bit(t));
    lemma_bits_one(s);
    lemma_bits_one(t);
    assert(both@ =~= set![s, t]);
    both.lemma_of();
    Bitboard(one_bit(t)).lemma_of();
    let files = b.double_push_files(mv);
    assert(files.contains(x));
    assert forall|y: int| 0 <= y < x implies !files.contains(y) by {}
    lemma_first_file_some(files, 0, x);
}

/// The en passant file is set only by a pawn of the side that moved going
/// from its home rank two squares forward; every other move, castling
/// too, leaves none set.
pub proof fn lemma_en_passant_needs_double_push(b: Board, mv: Move)
    ensures
        b.apply_spec(mv).en_passant <= 8,
        b.apply_spec(mv).en_passant != 0 ==> (mv matches Move::Simple(s) && s.piece == Piece::Pawn
            && s.delete@.contains(square_at(b.apply_spec(mv).en_passant - 1, home_rank(b.player)))
            && s.add@.contains(
            square_at(b.apply_spec(mv).en_passant - 1, double_push_rank(b.player)),
        )),
{
    match mv {
        Move::Simple(s) => {
            lemma_first_file_found(b.double_push_files(s), 0);
        },
        _ => {},
    }
}

/// A pawn takes en passant only in the window that the rules leave: where
/// a description of a pawn's capture onto a square without an enemy piece
/// is accepted, the en passant file is set to the file of that square,
/// the square lies on the rank that the enemy pawn passed over, the pawn
/// comes from beside the enemy pawn, and the move takes the enemy pawn off.
pub proof fn lemma_en_passant_window(b: Board, mv: SimpleAlgebraicMove, found: SimpleMove)
    requires
        mv.valid(),
        b.resolve(mv) == Ok::<Move, crate::board::IllegalMove>(Move::Simple(found)),
        mv.piece == Piece::Pawn,
        mv.captures,
        !b.side(b.player.other())@.contains(mv.dst_square.spec_index()),
    ensures
        b.en_passant == file_of(mv.dst_square.spec_index()) + 1,
        rank_of(mv.dst_square.spec_index()) == passed_rank(b.player.other()),
        found.delete@.contains(
            square_at(file_of(mv.dst_square.spec_index()), double_push_rank(b.player.other())),
        ),
        exists|s: int|
            0 <= s < 64 && #[trigger] found.delete@.contains(s) && b.men(
                b.player,
                Piece::Pawn,
            ).contains(s) && rank_of(s) == double_push_rank(b.player.other()) && (file_of(s)
                == file_of(mv.dst_square.spec_index()) - 1 || file_of(s) == file_of(
                mv.dst_square.spec_index(),
            ) + 1),
{
    let dst = mv.dst_square.spec_index();
    let live = b.survivors(mv);
    let s = choose|s: int| live.contains(s);
    assert(b.victims(mv) != Set::<int>::empty());
    assert(ep_target_squares(b.player, b.en_passant as int).contains(dst));
    let kill = square_at(b.en_passant - 1, double_push_rank(b.player.other()));
    assert(b.victims(mv).contains(kill)) by {
        if !b.victims(mv).contains(kill) {
            assert(b.victims(mv) =~= Set::<int>::empty());
        }
    }
    assert(live.contains(s)) by {
        if forall|j: int| !live.contains(j) {
            assert(live =~= Set::<int>::empty());
        }
    }
    assert(b.candidates(mv).contains(s));
    let gone = emptied(s, dst, b.victims(mv));
    lemma_set_has_word(gone, b, mv, s);
    assert(found.delete == Bitboard::of(gone));
    assert(found.delete@ == gone);
    assert(gone.contains(s) && gone.contains(kill));
    lemma_bits_bounded(b.side(b.player).0);
}

/// The squares that a resolved move empties are the squares of a set.
proof fn lemma_set_has_word(gone: Set<int>, b: Board, mv: SimpleAlgebraicMove, s: int)
    requires
        mv.valid(),
        0 <= s < 64,
        gone == emptied(s, mv.dst_square.spec_index(), b.victims(mv)),
    ensures
        Bitboard::of(gone)@ == gone,
{
    let dst = mv.dst_square.spec_index();
    let enemy = b.side(b.player.other());
    lemma_bits_one(s);
    lemma_bits_one(dst);
    let base = one_bit(s) | one_bit(dst);
    if enemy@.contains(dst) {
        let w = Bitboard(base);
        assert(w@ =~= gone);
        w.lemma_of();
    } else if mv.piece == Piece::Pawn && ep_target_squares(b.player, b.en_passant as int).contains(
        dst,
    ) {
        let kill = square_at(b.en_passant - 1, double_push_rank(b.player.other()));
        lemma_bits_one(kill);
        if enemy@.contains(kill) {
            let w = Bitboard(one_bit(s) | one_bit(kill));
            assert(b.victims(mv) =~= set![kill]);
            assert(w@ =~= gone);
            w.lemma_of();
        } else {
            let w = Bitboard(base);
            assert(b.victims(mv) =~= Set::<int>::empty());
            assert(w@ =~= gone);
            w.lemma_of();
        }
    } else {
        let w = Bitboard(base);
        assert(w@ =~= gone);
        w.lemma_of();
    }
}

/// What a move that is no castling does to the pieces, if it fills only
/// squares that it empties or that were empty: the squares it empties
/// lose their pieces, the squares it fills get a piece of the side that
/// moves and of the kind the move names, and every other square keeps
/// what it had.
pub proof fn lemma_move_places_pieces(b: Board, mv: SimpleMove, c: Color, p: Piece)
    requires
        b.wf(),
        forall|i: int| mv.add@.contains(i) ==> mv.delete@.contains(i) || !b.occupied().contains(i),
    ensures
        b.apply_simple_spec(mv).men(c, p) == if c == b.player && p == mv.piece {
            b.men(c, p).difference(mv.delete@).union(mv.add@)
        } else {
            b.men(c, p).difference(mv.delete@)
        },
        b.apply_simple_spec(mv).player == b.player.other(),
        b.apply_simple_spec(mv).half_moves == b.half_moves,
{
    let n = b.apply_simple_spec(mv);
    lemma_bits_bounded(mv.add.0);
    assert forall|i: int, q: Piece| b.kind(q)@.contains(i) implies b.occupied().contains(i) by {}
    if c == b.player && p == mv.piece {
        assert(n.men(c, p) =~= b.men(c, p).difference(mv.delete@).union(mv.add@));
    } else {
        assert forall|i: int|
            n.men(c, p).contains(i) <==> b.men(c, p).difference(mv.delete@).contains(i) by {
            if mv.add@.contains(i) && !mv.delete@.contains(i) {
                assert(!b.occupied().contains(i));
                assert(!b.kind(p)@.contains(i));
                assert(!b.side(c)@.contains(i));
            }
        }
        assert(n.men(c, p) =~= b.men(c, p).difference(mv.delete@));
    }
}

/// A move that is no castling leaves a sound position sound, if it fills
/// only squares that it empties or that were empty.
pub proof fn lemma_move_keeps_wf(b: Board, mv: SimpleMove)
    requires
        b.wf(),
        forall|i: int| mv.add@.contains(i) ==> mv.delete@.contains(i) || !b.occupied().contains(i),
    ensures
        b.apply_simple_spec(mv).wf(),
{
    let n = b.apply_simple_spec(mv);
    lemma_first_file_found(b.double_push_files(mv), 0);
    lemma_flags(
        b.castling_rights,
        right_lost(mv.delete@, Color::White, false),
        right_lost(mv.delete@, Color::White, true),
        right_lost(mv.delete@, Color::Black, false),
        right_lost(mv.delete@, Color::Black, true),
    );
    lemma_bits_bounded(mv.add.0);
    assert(n.en_passant <= 8);
    assert(n.castling_rights < 16);
    assert(n.white@.disjoint(n.black@)) by {
        assert forall|i: int| n.white@.contains(i) implies !n.black@.contains(i) by {
            if mv.add@.contains(i) {
                assert(mv.delete@.contains(i) || !b.occupied().contains(i));
            }
        }
    }
    assert forall|i: int, p: Piece| b.kind(p)@.contains(i) implies b.occupied().contains(i) by {}
    assert forall|i: int, p: Piece, q: Piece|
        n.kind(p)@.contains(i) && n.kind(q)@.contains(i) implies p == q by {
        if mv.add@.contains(i) {
            if p != mv.piece {
                assert(b.kind(p)@.contains(i));
            }
            if q != mv.piece {
                assert(b.kind(q)@.contains(i));
            }
        } else {
            assert(b.kind(p)@.contains(i) && b.kind(q)@.contains(i));
        }
    }
    assert forall|i: int|
        n.occupied().contains(i) <==> exists|p: Piece| #[trigger] n.kind(p)@.contains(i) by {
        if n.occupied().contains(i) {
            if mv.add@.contains(i) {
                assert(n.kind(mv.piece)@.contains(i));
            } else {
                assert(b.occupied().contains(i));
                let p = choose|p: Piece| #[trigger] b.kind(p)@.contains(i);
                assert(n.kind(p)@.contains(i));
            }
        }
        if exists|p: Piece| #[trigger] n.kind(p)@.contains(i) {
            let p = choose|p: Piece| #[trigger] n.kind(p)@.contains(i);
            if !mv.add@.contains(i) {
                assert(b.kind(p)@.contains(i));
                assert(b.occupied().contains(i));
            }
        }
    }
}

/// The en passant file, where one is set, is that of an enemy pawn which
/// stands where its two-square advance left it, with the square it passed
/// over empty.
pub open spec fn ep_sound(b: Board) -> bool {
    1 <= b.en_passant <= 8 ==> {
        &&& !b.occupied().contains(square_at(b.en_passant - 1, passed_rank(b.player.other())))
        &&& b.men(b.player.other(), Piece::Pawn).contains(
            square_at(b.en_passant - 1, double_push_rank(b.player.other())),
        )
    }
}

/// What is to be said of a move that obeys the rules of movement: it is
/// legal, or it leaves a king of the side that makes it attacked.
pub open spec fn verdict(b: Board, m: Move) -> Result<Move, IllegalMove> {
    if b.apply_spec(m).in_check_spec(b.player) {
        Err(IllegalMove::InCheck)
    } else {
        Ok(m)
    }
}

/// The squares whose piece a piece of kind `p` takes when it goes to `t`.
pub open spec fn taken(b: Board, p: Piece, t: int) -> Set<int> {
    let enemy = b.side(b.player.other())@;
    if enemy.contains(t) {
        set![t]
    } else if p == Piece::Pawn && ep_target_squares(b.player, b.en_passant as int).contains(t) {
        ep_kill_squares(b.player, b.en_passant as int).intersect(enemy)
    } else {
        Set::empty()
    }
}

proof fn lemma_slide_sets(p: Piece, s: int, t: int)
    requires
        0 <= s < 64,
        0 <= t < 64,
    ensures
        slide(p, s, t).delete@ == set![s, t],
        slide(p, s, t).add@ == set![t],
        slide(p, s, t).piece == p,
{
    lemma_bits_one(s);
    lemma_bits_one(t);
    assert(bits_of(one_bit(s) | one_bit(t)) =~= set![s, t]);
    Bitboard::lemma_of_word(one_bit(s) | one_bit(t), set![s, t]);
    Bitboard::lemma_of_word(one_bit(t), set![t]);
}

proof fn lemma_arrival(p: Piece, s: int, t: int, m: Move)
    requires
        arrival(p, s, t).contains(m),
    ensures
        m matches Move::Simple(sm) && sm == slide(sm.piece, s, t) && (if p == Piece::Pawn && (
        rank_of(t) == 0 || rank_of(t) == 7) {
            sm.piece == Piece::Knight || sm.piece == Piece::Bishop || sm.piece == Piece::Rook
                || sm.piece == Piece::Queen
        } else {
            sm.piece == p
        }),
{
    let a = arrival(p, s, t);
    let i = choose|i: int| 0 <= i < a.len() && a[i] == m;
    if p == Piece::Pawn && (rank_of(t) == 0 || rank_of(t) == 7) {
        assert(a[0] == step(Piece::Knight, s, t));
        assert(a[1] == step(Piece::Bishop, s, t));
        assert(a[2] == step(Piece::Rook, s, t));
        assert(a[3] == step(Piece::Queen, s, t));
    } else {
        assert(a[0] == step(p, s, t));
    }
}

/// The move `m` takes a piece of kind `p` of the side to move from `s`
/// to `t` as the rules of movement allow: `t` holds no piece of its own
/// side; the move empties `s` and the square of the piece it takes, and
/// `t` too unless the piece taken stands elsewhere, and fills `t`; the
/// piece changes its kind only as a pawn that reaches
/// its last rank; and the piece attacks `t`, or is a pawn that advances
/// onto `t` without taking anything.
pub open spec fn by_rule(b: Board, m: SimpleMove, p: Piece, s: int, t: int) -> bool {
    &&& 0 <= s < 64
    &&& 0 <= t < 64
    &&& b.men(b.player, p).contains(s)
    &&& !b.side(b.player)@.contains(t)
    &&& m.add@ == set![t]
    &&& m.delete@ == emptied(s, t, taken(b, p, t))
    &&& (m.piece != p ==> p == Piece::Pawn && m.piece != Piece::King && rank_of(t) == last_rank(
        b.player,
    ))
    &&& ((p != Piece::Pawn || taken(b, p, t) != Set::<int>::empty()) ==> b.attacks_from(
        b.player,
        p,
        s,
        t,
    ))
    &&& ((p == Piece::Pawn && taken(b, p, t) == Set::<int>::empty()) ==> b.pushers(
        b.player,
        t,
    ).contains(s))
}

/// A move of a piece of kind `p` of the side to move from `s` to `t`
/// that obeys the rules of movement is described by kind, square of
/// origin and destination, and its description means the move again.
proof fn lemma_resolves(b: Board, m: SimpleMove, p: Piece, s: int, t: int)
    requires
        b.wf(),
        by_rule(b, m, p, s, t),
    ensures
        b.describable(m),
        b.describe_simple(m).valid(),
        b.legal(AlgebraicMove::Simple(b.describe_simple(m))) == verdict(b, Move::Simple(m)),
{
    let own = b.side(b.player)@;
    let enemy = b.side(b.player.other())@;
    let v = taken(b, p, t);
    lemma_square_numbering();
    assert(own.disjoint(enemy));
    assert(v.subset_of(enemy));
    assert(own.contains(s) && !enemy.contains(s));
    let from = b.origin(m);
    assert(from@ =~= set![s]);
    from.lemma_square(s);
    m.add.lemma_square(t);
    assert(b.kind(p)@.contains(s));
    assert(b.kind_on(s) == Some(p)) by {
        assert(b.kind(p)@.contains(s) && forall|q: Piece| #[trigger]
            b.kind(q)@.contains(s) ==> q == p);
    }
    let d = b.describe_simple(m);
    assert(d.dst_square.spec_index() == t);
    assert(d.piece == p);
    assert(b.victims(d) == v);
    assert(d.captures == (v != Set::<int>::empty())) by {
        if v != Set::<int>::empty() {
            let i = choose|i: int| v.contains(i);
            assert(v.contains(i)) by {
                if forall|j: int| !v.contains(j) {
                    assert(v =~= Set::<int>::empty());
                }
            }
            assert(m.delete@.contains(i) && enemy.contains(i));
        } else {
            assert forall|i: int| m.delete@.contains(i) implies !enemy.contains(i) by {}
        }
    }
    assert(b.candidates(d) =~= set![s]) by {
        lemma_bits_bounded(b.side(b.player).0);
        assert forall|j: int| b.candidates(d).contains(j) implies j == s by {
            assert(own.contains(j));
            assert(file_of(j) == file_of(s) && rank_of(j) == rank_of(s));
        }
        assert(b.candidates(d).contains(s));
    }
    assert(b.tentative(d, s) == m) by {
        m.delete.lemma_of();
        m.add.lemma_of();
    }
    assert(b.promotion_ok(d));
    let live = b.survivors(d);
    let safe = !b.apply_simple_spec(m).in_check_spec(b.player);
    if safe {
        assert(live =~= set![s]);
        assert(live.contains(s));
        assert(live != Set::<int>::empty());
        let pick = choose|j: int| live.contains(j);
        assert(pick == s);
        assert(b.candidates(d).contains(s));
        assert(b.candidates(d) != Set::<int>::empty());
        assert(b.resolve(d) == Ok::<Move, IllegalMove>(Move::Simple(m)));
    } else {
        assert(live =~= Set::<int>::empty());
        assert(b.candidates(d).contains(s));
        assert(b.candidates(d) != Set::<int>::empty());
        assert(b.resolve(d) == Err::<Move, IllegalMove>(IllegalMove::InCheck));
    }
}

/// Every move that the generator gives is described by a description
/// that the resolver reads as that same move: it accepts the description
/// exactly when the move leaves no king of the mover attacked, and then
/// returns the move. So the moves left when every generated move that
/// leaves the king attacked is struck out are the moves whose
/// descriptions the resolver accepts.
pub proof fn lemma_generated_moves_resolve(b: Board, m: Move)
    requires
        b.wf(),
        ep_sound(b),
        b.pre_legal_moves_spec().contains(m),
    ensures
        b.describe(m).valid(),
        m matches Move::Simple(sm) ==> b.describable(sm),
        b.legal(b.describe(m)) == verdict(b, m),
{
    broadcast use vstd::seq_lib::lemma_seq_concat_contains_all_elements;

    let p: Piece = if b.piece_moves_spec(Piece::Pawn).contains(m) {
        Piece::Pawn
    } else if b.piece_moves_spec(Piece::Knight).contains(m) {
        Piece::Knight
    } else if b.piece_moves_spec(Piece::Bishop).contains(m) {
        Piece::Bishop
    } else if b.piece_moves_spec(Piece::Rook).contains(m) {
        Piece::Rook
    } else if b.piece_moves_spec(Piece::Queen).contains(m) {
        Piece::Queen
    } else {
        Piece::King
    };
    assert(b.piece_moves_spec(p).contains(m));
    if p == Piece::King && b.castle_moves_spec().contains(m) {
        let both = b.castle_moves_spec();
        let i = choose|i: int| 0 <= i < both.len() && both[i] == m;
        assert(both[i] == m);
        match m {
            Move::CastleShort => {
                if !(b.castle_spec(false) is Ok) {
                    assert(both[i] == Move::CastleLong);
                }
            },
            Move::CastleLong => {
                if !(b.castle_spec(true) is Ok) {
                    assert(both[i] == Move::CastleShort);
                }
            },
            Move::Simple(_) => {
                assert(both[i] == Move::CastleShort || both[i] == Move::CastleLong);
            },
        }
    } else {
        assert(b.men_moves_from(p, 0).contains(m));
        b.lemma_men_moves_contain(p, 0, m);
        let s = choose|s: int|
            0 <= s < 64 && b.men(b.player, p).contains(s) && #[trigger] b.moves_of(p, s).contains(m);
        lemma_moves_of_resolve(b, p, s, m);
    }
}

/// The same for a move of the piece of kind `p` on `s`.
proof fn lemma_moves_of_resolve(b: Board, p: Piece, s: int, m: Move)
    requires
        b.wf(),
        ep_sound(b),
        0 <= s < 64,
        b.men(b.player, p).contains(s),
        b.moves_of(p, s).contains(m),
    ensures
        b.describe(m).valid(),
        m matches Move::Simple(sm) ==> b.describable(sm),
        b.legal(b.describe(m)) == verdict(b, m),
{
    let t = lemma_shape(b, p, s, m);
    lemma_resolves(b, m->Simple_0, p, s, t);
}

/// Every move that the generator gives for the piece of kind `p` on `s`
/// takes that piece to some square as the rules of movement allow.
pub proof fn lemma_shape(b: Board, p: Piece, s: int, m: Move) -> (t: int)
    requires
        b.wf(),
        ep_sound(b),
        0 <= s < 64,
        b.men(b.player, p).contains(s),
        b.moves_of(p, s).contains(m),
    ensures
        m matches Move::Simple(sm) && by_rule(b, sm, p, s, t),
{
    broadcast use vstd::seq_lib::lemma_seq_concat_contains_all_elements;

    let c = b.player;
    let own = b.side(c)@;
    let enemy = b.side(c.other())@;
    lemma_square_numbering();
    assert(own.disjoint(enemy));
    if p != Piece::Pawn {
        lemma_steps_contain(p, s, b.targets_of(p, s), 0, m);
        let t = choose|t: int|
            0 <= t < 64 && b.targets_of(p, s).contains(t) && #[trigger] arrival(p, s, t).contains(m);
        lemma_arrival(p, s, t, m);
        lemma_slide_sets(p, s, t);
        let sm = slide(p, s, t);
        assert(sm.delete@ =~= emptied(s, t, taken(b, p, t)));
        assert(!own.contains(t) && b.attacks_from(c, p, s, t));
        t
    } else {
        let one = pawn_push_squares(c, s).difference(b.occupied());
        let two = pawn_double_squares(c, s).difference(b.occupied());
        let hits = pawn_attack_squares(c, s).intersect(enemy);
        let k: int = if b.en_passant <= 8 {
            b.en_passant as int
        } else {
            0
        };
        if b.pawn_advances_spec(s).contains(m) {
            assert(one != Set::<int>::empty());
            let u = choose|u: int| one.contains(u);
            assert(one.contains(u)) by {
                if forall|j: int| !one.contains(j) {
                    assert(one =~= Set::<int>::empty());
                }
            }
            lemma_steps_contain(Piece::Pawn, s, one, 0, m);
            lemma_steps_contain(Piece::Pawn, s, two, 0, m);
            let t = if steps_from(Piece::Pawn, s, one, 0).contains(m) {
                choose|t: int|
                    0 <= t < 64 && one.contains(t) && #[trigger] arrival(
                        Piece::Pawn,
                        s,
                        t,
                    ).contains(m)
            } else {
                choose|t: int|
                    0 <= t < 64 && two.contains(t) && #[trigger] arrival(
                        Piece::Pawn,
                        s,
                        t,
                    ).contains(m)
            };
            assert(one.contains(t) || two.contains(t));
            lemma_arrival(Piece::Pawn, s, t, m);
            let sm = m->Simple_0;
            lemma_slide_sets(sm.piece, s, t);
            assert(u == s - 8 * c.forward());
            assert(taken(b, Piece::Pawn, t) =~= Set::<int>::empty()) by {
                if ep_target_squares(c, b.en_passant as int).contains(t) {
                    assert(one.contains(t));
                    assert(s == square_at(b.en_passant - 1, double_push_rank(c.other())));
                    assert(enemy.contains(s));
                }
            }
            assert(sm.delete@ =~= emptied(s, t, taken(b, Piece::Pawn, t)));
            assert(b.pushers(c, t).contains(s));
            assert(!b.occupied().contains(t) && !own.contains(t));
            assert(sm.piece != Piece::Pawn ==> rank_of(t) == rank_of(s) + c.forward() && rank_of(t)
                == last_rank(c));
            t
        } else {
            assert(b.pawn_captures_spec(s).contains(m));
            lemma_steps_contain(Piece::Pawn, s, hits, 0, m);
            if steps_from(Piece::Pawn, s, hits, 0).contains(m) {
                let t = choose|t: int|
                    0 <= t < 64 && hits.contains(t) && #[trigger] arrival(
                        Piece::Pawn,
                        s,
                        t,
                    ).contains(m);
                lemma_arrival(Piece::Pawn, s, t, m);
                let sm = m->Simple_0;
                lemma_slide_sets(sm.piece, s, t);
                assert(taken(b, Piece::Pawn, t) =~= set![t]);
                assert(sm.delete@ =~= emptied(s, t, taken(b, Piece::Pawn, t)));
                assert(enemy.contains(t) && !own.contains(t));
                assert(rank_of(t) == rank_of(s) + c.forward());
                assert(sm.piece != Piece::Pawn ==> rank_of(t) == last_rank(c));
                assert(b.attacks_from(c, Piece::Pawn, s, t));
                assert(taken(b, Piece::Pawn, t).contains(t));
                t
            } else {
                assert(ep_source_squares(c, k).contains(s));
                let tail = seq![ep_step(c, s, k)];
                assert(tail.contains(m));
                let i = choose|i: int| 0 <= i < tail.len() && tail[i] == m;
                assert(m == ep_step(c, s, k));
                let sm = m->Simple_0;
                let t = square_at(k - 1, passed_rank(c.other()));
                let kill = square_at(k - 1, double_push_rank(c.other()));
                lemma_bits_one(s);
                lemma_bits_one(t);
                lemma_bits_one(kill);
                let gone = set![s].union(ep_kill_squares(c, k));
                assert(bits_of(one_bit(s) | one_bit(kill)) =~= gone);
                Bitboard::lemma_of_word(one_bit(s) | one_bit(kill), gone);
                assert(ep_target_squares(c, k) =~= set![t]);
                Bitboard::lemma_of_word(one_bit(t), ep_target_squares(c, k));
                assert(taken(b, Piece::Pawn, t) =~= set![kill]);
                assert(kill != t);
                assert(taken(b, Piece::Pawn, t).contains(kill) && !taken(
                    b,
                    Piece::Pawn,
                    t,
                ).contains(t));
                assert(cleared_besides(t, taken(b, Piece::Pawn, t)) == taken(b, Piece::Pawn, t));
                assert(sm.delete@ =~= emptied(s, t, taken(b, Piece::Pawn, t)));
                assert(pawn_attack_squares(c, s).contains(t));
                assert(b.attacks_from(c, Piece::Pawn, s, t));
                assert(!b.occupied().contains(t) && !own.contains(t));
                assert(taken(b, Piece::Pawn, t).contains(kill));
                assert(sm.piece == Piece::Pawn);
                assert(sm.add@ == set![t]);
                t
            }
        }
    }
}

/// A side has a right to castle only while its king and the rook of
/// that wing stand where they started.
pub open spec fn rights_sound(b: Board) -> bool {
    forall|c: Color, long: bool|
        #![trigger castle_flag(c, long)]
        b.castling_rights & castle_flag(c, long) != 0 ==> b.men(c, Piece::King).contains(
            king_home(c),
        ) && b.men(c, Piece::Rook).contains(rook_home(c, long))
}

/// The position is one that play can reach: no square holds two pieces,
/// the rights to castle are real, and so is the en passant file.
pub open spec fn sound(b: Board) -> bool {
    b.wf() && rights_sound(b) && ep_sound(b)
}

/// The position before the first move is sound.
pub proof fn lemma_initial_board_sound()
    ensures
        sound(initial_board()),
{
    let b = initial_board();
    lemma_square_numbering();
    assert forall|c: Color, p: Piece, i: int| initial_squares(c, p).contains(i) implies 0 <= i
        < 64 by {}
    Bitboard::lemma_of_view(initial_side(Color::White));
    Bitboard::lemma_of_view(initial_side(Color::Black));
    Bitboard::lemma_of_view(initial_kind(Piece::Pawn));
    Bitboard::lemma_of_view(initial_kind(Piece::Knight));
    Bitboard::lemma_of_view(initial_kind(Piece::Bishop));
    Bitboard::lemma_of_view(initial_kind(Piece::Rook));
    Bitboard::lemma_of_view(initial_kind(Piece::Queen));
    Bitboard::lemma_of_view(initial_kind(Piece::King));
    lemma_flags(0, false, false, false, false);
    assert forall|i: int|
        b.occupied().contains(i) <==> exists|p: Piece| #[trigger] b.kind(p)@.contains(i) by {
        if b.occupied().contains(i) {
            if b.pawns@.contains(i) {
                assert(b.kind(Piece::Pawn)@.contains(i));
            } else if b.knights@.contains(i) {
                assert(b.kind(Piece::Knight)@.contains(i));
            } else if b.bishops@.contains(i) {
                assert(b.kind(Piece::Bishop)@.contains(i));
            } else if b.rooks@.contains(i) {
                assert(b.kind(Piece::Rook)@.contains(i));
            } else if b.queens@.contains(i) {
                assert(b.kind(Piece::Queen)@.contains(i));
            } else {
                assert(b.kind(Piece::King)@.contains(i));
            }
        }
    }
    assert(b.wf());
    assert(rights_sound(b));
}

/// Castling as the generator offers it leaves a sound position sound.
proof fn lemma_castle_keeps_sound(b: Board, long: bool)
    requires
        sound(b),
        b.castle_spec(long) is Ok,
    ensures
        sound(b.apply_castle_spec(castle_info(b.player, long))),
{
    let c = b.player;
    let info = castle_info(c, long);
    let n = b.apply_castle_spec(info);
    lemma_square_numbering();
    lemma_bits_one(rook_home(c, long));
    lemma_bits_one(king_home(c));
    lemma_bits_one(rook_castled(c, long));
    lemma_bits_one(king_castled(c, long));
    lemma_flags(b.castling_rights, false, false, false, false);
    let rh = rook_home(c, long);
    let kh = king_home(c);
    let rc = rook_castled(c, long);
    let kc = king_castled(c, long);
    assert(info.delete@ =~= set![rh, kh]);
    assert(info.add_rook@ == set![rc]);
    assert(info.add_king@ == set![kc]);
    assert(b.castling_rights & castle_flag(c, long) != 0);
    assert(b.men(c, Piece::King).contains(kh) && b.men(c, Piece::Rook).contains(rh));
    assert(Board::castle_path(c, long).contains(rc) && Board::castle_path(c, long).contains(kc));
    assert(!b.occupied().contains(rc) && !b.occupied().contains(kc));
    assert forall|i: int, p: Piece| b.kind(p)@.contains(i) implies b.occupied().contains(i) by {}
    assert forall|i: int, p: Piece, q: Piece|
        n.kind(p)@.contains(i) && n.kind(q)@.contains(i) implies p == q by {
        if i == rc || i == kc {
            if p != Piece::Rook && p != Piece::King {
                assert(b.kind(p)@.contains(i));
            }
            if q != Piece::Rook && q != Piece::King {
                assert(b.kind(q)@.contains(i));
            }
            if p == Piece::Rook && i == kc {
                assert(b.kind(p)@.contains(i));
            }
            if p == Piece::King && i == rc {
                assert(b.kind(p)@.contains(i));
            }
            if q == Piece::Rook && i == kc {
                assert(b.kind(q)@.contains(i));
            }
            if q == Piece::King && i == rc {
                assert(b.kind(q)@.contains(i));
            }
        } else {
            assert(b.kind(p)@.contains(i) && b.kind(q)@.contains(i));
        }
    }
    assert forall|i: int|
        n.occupied().contains(i) <==> exists|p: Piece| #[trigger] n.kind(p)@.contains(i) by {
        if i == rc {
            assert(n.kind(Piece::Rook)@.contains(i));
        } else if i == kc {
            assert(n.kind(Piece::King)@.contains(i));
        } else if i == rh || i == kh {
            assert(!n.occupied().contains(i));
            if exists|p: Piece| #[trigger] n.kind(p)@.contains(i) {
                let p = choose|p: Piece| #[trigger] n.kind(p)@.contains(i);
                assert(b.kind(p)@.contains(i));
                assert(b.kind(Piece::King)@.contains(kh) && b.kind(Piece::Rook)@.contains(rh));
            }
        } else {
            if n.occupied().contains(i) {
                assert(b.occupied().contains(i));
                let p = choose|p: Piece| #[trigger] b.kind(p)@.contains(i);
                assert(n.kind(p)@.contains(i));
            }
            if exists|p: Piece| #[trigger] n.kind(p)@.contains(i) {
                let p = choose|p: Piece| #[trigger] n.kind(p)@.contains(i);
                assert(b.kind(p)@.contains(i));
                assert(b.occupied().contains(i));
            }
        }
    }
    assert(n.white@.disjoint(n.black@));
    assert(n.wf());
    assert forall|d: Color, far: bool|
        #![trigger castle_flag(d, far)]
        n.castling_rights & castle_flag(d, far) != 0 implies n.men(d, Piece::King).contains(
            king_home(d),
        ) && n.men(d, Piece::Rook).contains(rook_home(d, far)) by {
        assert(d != c);
        assert(b.castling_rights & castle_flag(d, far) != 0);
        assert(b.men(d, Piece::King).contains(king_home(d)) && b.men(d, Piece::Rook).contains(
            rook_home(d, far),
        ));
    }
}

/// A move of a piece as the rules of movement allow leaves a sound
/// position sound.
proof fn lemma_rule_keeps_sound(b: Board, m: SimpleMove, p: Piece, s: int, t: int)
    requires
        sound(b),
        by_rule(b, m, p, s, t),
    ensures
        sound(b.apply_simple_spec(m)),
{
    let c = b.player;
    let n = b.apply_simple_spec(m);
    lemma_square_numbering();
    lemma_move_keeps_wf(b, m);
    lemma_bits_bounded(m.delete.0);
    assert forall|d: Color, far: bool|
        #![trigger castle_flag(d, far)]
        n.castling_rights & castle_flag(d, far) != 0 implies n.men(d, Piece::King).contains(
            king_home(d),
        ) && n.men(d, Piece::Rook).contains(rook_home(d, far)) by {
        lemma_right_kept(b, m, d);
        if far {
            assert(n.may_castle_long(d));
        } else {
            assert(n.may_castle_short(d));
        }
        assert(b.castling_rights & castle_flag(d, far) != 0);
        assert(!m.delete@.contains(king_home(d)) && !m.delete@.contains(rook_home(d, far)));
        assert(b.men(d, Piece::King).contains(king_home(d)) && b.men(d, Piece::Rook).contains(
            rook_home(d, far),
        ));
    }
    lemma_en_passant_needs_double_push(b, Move::Simple(m));
    if 1 <= n.en_passant <= 8 {
        let k = n.en_passant as int;
        let from = square_at(k - 1, home_rank(c));
        let to = square_at(k - 1, double_push_rank(c));
        let passed = square_at(k - 1, passed_rank(c));
        assert(m.delete@.contains(from) && m.add@.contains(to));
        assert(t == to);
        assert(from != t);
        assert(!taken(b, p, t).contains(from)) by {
            lemma_bits_bounded(b.side(c.other()).0);
        }
        assert(s == from);
        assert(p == Piece::Pawn);
        assert(taken(b, p, t) =~= Set::<int>::empty()) by {
            if taken(b, p, t) != Set::<int>::empty() {
                assert(b.attacks_from(c, p, s, t));
            }
        }
        assert(b.pushers(c, t).contains(s));
        assert(passed == s - 8 * c.forward());
        assert(!b.occupied().contains(passed));
        assert(!n.occupied().contains(passed));
        assert(n.men(c, Piece::Pawn).contains(to));
    }
}

/// Every move that the generator gives leaves a sound position sound. So
/// every position that play reaches from the first position is sound.
pub proof fn lemma_generated_move_keeps_sound(b: Board, m: Move)
    requires
        sound(b),
        b.pre_legal_moves_spec().contains(m),
    ensures
        sound(b.apply_spec(m)),
{
    broadcast use vstd::seq_lib::lemma_seq_concat_contains_all_elements;

    let p: Piece = if b.piece_moves_spec(Piece::Pawn).contains(m) {
        Piece::Pawn
    } else if b.piece_moves_spec(Piece::Knight).contains(m) {
        Piece::Knight
    } else if b.piece_moves_spec(Piece::Bishop).contains(m) {
        Piece::Bishop
    } else if b.piece_moves_spec(Piece::Rook).contains(m) {
        Piece::Rook
    } else if b.piece_moves_spec(Piece::Queen).contains(m) {
        Piece::Queen
    } else {
        Piece::King
    };
    assert(b.piece_moves_spec(p).contains(m));
    if p == Piece::King && b.castle_moves_spec().contains(m) {
        let both = b.castle_moves_spec();
        let i = choose|i: int| 0 <= i < both.len() && both[i] == m;
        assert(both[i] == m);
        match m {
            Move::CastleShort => {
                if !(b.castle_spec(false) is Ok) {
                    assert(both[i] == Move::CastleLong);
                }
                lemma_castle_keeps_sound(b, false);
            },
            Move::CastleLong => {
                if !(b.castle_spec(true) is Ok) {
                    assert(both[i] == Move::CastleShort);
                }
                lemma_castle_keeps_sound(b, true);
            },
            Move::Simple(_) => {
                assert(both[i] == Move::CastleShort || both[i] == Move::CastleLong);
            },
        }
    } else {
        assert(b.men_moves_from(p, 0).contains(m));
        b.lemma_men_moves_contain(p, 0, m);
        let s = choose|s: int|
            0 <= s < 64 && b.men(b.player, p).contains(s) && #[trigger] b.moves_of(p, s).contains(m);
        let t = lemma_shape(b, p, s, m);
        lemma_rule_keeps_sound(b, m->Simple_0, p, s, t);
    }
}

/// A side with the right to castle is turned down for a piece that
/// stands between king and rook, and else for an attack on the square of
/// its king or on the square its king passes over; with neither, castling
/// goes on to the test of the final position.
pub proof fn lemma_castling_rejections(b: Board, long: bool)
    requires
        if long {
            b.may_castle_long(b.player)
        } else {
            b.may_castle_short(b.player)
        },
    ensures
        !Board::castle_path(b.player, long).disjoint(b.occupied()) ==> b.castle_spec(long) == Err::<
            Move,
            IllegalMove,
        >(IllegalMove::CastlingThroughPiece),
        Board::castle_path(b.player, long).disjoint(b.occupied()) && (b.attacked_by(
            b.player.other(),
            king_home(b.player),
        ) || b.attacked_by(b.player.other(), rook_castled(b.player, long))) ==> b.castle_spec(long)
            == Err::<Move, IllegalMove>(IllegalMove::CastlingThroughCheck),
        b.castle_spec(long) is Ok <==> (Board::castle_path(b.player, long).disjoint(b.occupied())
            && !b.attacked_by(b.player.other(), king_home(b.player)) && !b.attacked_by(
            b.player.other(),
            rook_castled(b.player, long),
        )),
{
}

/// A move of the piece of kind `p` on `s` is one of the generated moves.
proof fn lemma_move_is_generated(b: Board, p: Piece, s: int, m: Move)
    requires
        0 <= s < 64,
        b.men(b.player, p).contains(s),
        b.moves_of(p, s).contains(m),
    ensures
        b.pre_legal_moves_spec().contains(m),
{
    broadcast use vstd::seq_lib::lemma_seq_concat_contains_all_elements;

    b.lemma_men_moves_contain(p, 0, m);
    assert(0 <= s < 64 && b.men(b.player, p).contains(s) && b.moves_of(p, s).contains(m));
    assert(b.men_moves_from(p, 0).contains(m));
    assert(b.piece_moves_spec(p).contains(m));
}

/// A way to bring a piece from `s` to a square of `targets` is among the
/// moves to these squares.
proof fn lemma_arrival_is_step(p: Piece, s: int, targets: Set<int>, t: int, m: Move)
    requires
        0 <= t < 64,
        targets.contains(t),
        arrival(p, s, t).contains(m),
    ensures
        steps_from(p, s, targets, 0).contains(m),
{
    lemma_steps_contain(p, s, targets, 0, m);
    assert(0 <= t < 64 && targets.contains(t) && arrival(p, s, t).contains(m));
}

/// The ways to bring a piece from `s` to `t` hold the move that leaves
/// it the kind `q`, where `q` is the kind of the piece or, for a pawn
/// that comes to the first or last rank, one of the four it can become.
proof fn lemma_arrival_holds(p: Piece, q: Piece, s: int, t: int)
    requires
        if p == Piece::Pawn && (rank_of(t) == 0 || rank_of(t) == 7) {
            q == Piece::Knight || q == Piece::Bishop || q == Piece::Rook || q == Piece::Queen
        } else {
            q == p
        },
    ensures
        arrival(p, s, t).contains(step(q, s, t)),
{
    let a = arrival(p, s, t);
    if p == Piece::Pawn && (rank_of(t) == 0 || rank_of(t) == 7) {
        assert(a[0] == step(Piece::Knight, s, t));
        assert(a[1] == step(Piece::Bishop, s, t));
        assert(a[2] == step(Piece::Rook, s, t));
        assert(a[3] == step(Piece::Queen, s, t));
    } else {
        assert(a[0] == step(p, s, t));
    }
}

/// Whether a king is attacked after a move does not hang on the kind of
/// the piece that arrives, as long as it is no king and arrives on a
/// square that the move empties.
proof fn lemma_check_carries(b: Board, m1: SimpleMove, m2: SimpleMove)
    requires
        m1.delete == m2.delete,
        m1.add == m2.add,
        m1.piece != Piece::King,
        m2.piece != Piece::King,
        forall|i: int| m1.add@.contains(i) ==> m1.delete@.contains(i),
        b.apply_simple_spec(m1).in_check_spec(b.player),
    ensures
        b.apply_simple_spec(m2).in_check_spec(b.player),
{
    let c = b.player;
    let o = c.other();
    let n1 = b.apply_simple_spec(m1);
    let n2 = b.apply_simple_spec(m2);
    let k = choose|k: int| #[trigger]
        n1.men(c, Piece::King).contains(k) && n1.attacked_by(o, k);
    let s = choose|s: int| #[trigger] n1.all_attackers(o, k).contains(s);
    let p = choose|p: Piece| #[trigger] n1.attackers(o, p, k).contains(s);
    assert(n1.attackers(o, p, k).contains(s));
    assert(n1.white@ =~= n2.white@ && n1.black@ =~= n2.black@);
    assert(n1.kings == n2.kings);
    assert(n2.men(c, Piece::King).contains(k));
    assert(n1.occupied() =~= n2.occupied());
    assert(n1.side(o)@ =~= b.side(o)@.difference(m1.delete@));
    assert(!m1.delete@.contains(s));
    assert(b.kind(p)@.contains(s));
    assert(n2.kind(p)@.contains(s));
    assert(n2.men(o, p).contains(s));
    assert(n2.attacks_from(o, p, s, k));
    assert(n2.attackers(o, p, k).contains(s));
    assert(n2.all_attackers(o, k).contains(s));
    assert(n2.attacked_by(o, k));
}

/// Every move that the resolver accepts is one that the generator gives:
/// the same move, or, for a pawn that comes to its last rank and is not
/// said to change its kind, the generated move with the same squares
/// that makes it a queen. The generated move leaves no king of the
/// mover attacked.
pub proof fn lemma_accepted_move_is_generated(b: Board, d: AlgebraicMove) -> (g: Move)
    requires
        d.valid(),
        b.legal(d) is Ok,
    ensures
        b.pre_legal_moves_spec().contains(g),
        !b.apply_spec(g).in_check_spec(b.player),
        g == b.legal(d)->Ok_0 || (g matches Move::Simple(x) && b.legal(d)->Ok_0 matches Move::Simple(
            y,
        ) && x.delete == y.delete && x.add == y.add && y.piece == Piece::Pawn && x.piece
            == Piece::Queen),
{
    broadcast use vstd::seq_lib::lemma_seq_concat_contains_all_elements;

    match d {
        AlgebraicMove::CastleLong { .. } => {
            assert(b.castle_spec(true) == Ok::<Move, IllegalMove>(Move::CastleLong));
            let tail = seq![Move::CastleLong];
            assert(tail[0] == Move::CastleLong);
            assert(tail.contains(Move::CastleLong));
            assert(b.castle_moves_spec().contains(Move::CastleLong));
            assert(b.piece_moves_spec(Piece::King).contains(Move::CastleLong));
            Move::CastleLong
        },
        AlgebraicMove::CastleShort { .. } => {
            assert(b.castle_spec(false) == Ok::<Move, IllegalMove>(Move::CastleShort));
            let head = seq![Move::CastleShort];
            assert(head[0] == Move::CastleShort);
            assert(head.contains(Move::CastleShort));
            assert(b.castle_moves_spec().contains(Move::CastleShort));
            assert(b.piece_moves_spec(Piece::King).contains(Move::CastleShort));
            Move::CastleShort
        },
        AlgebraicMove::Simple(sd) => {
            let m = lemma_resolved_is_generated(b, sd);
            m
        },
    }
}

/// The same for a move that is no castling.
proof fn lemma_resolved_is_generated(b: Board, sd: SimpleAlgebraicMove) -> (g: Move)
    requires
        sd.valid(),
        b.resolve(sd) is Ok,
    ensures
        b.pre_legal_moves_spec().contains(g),
        !b.apply_spec(g).in_check_spec(b.player),
        g == b.resolve(sd)->Ok_0 || (g matches Move::Simple(x) && b.resolve(sd)->Ok_0 matches Move::Simple(
            y,
        ) && x.delete == y.delete && x.add == y.add && y.piece == Piece::Pawn && x.piece
            == Piece::Queen),
{
    let c = b.player;
    let t = sd.dst_square.spec_index();
    let p = sd.piece;
    let own = b.side(c)@;
    let enemy = b.side(c.other())@;
    let v = b.victims(sd);
    let live = b.survivors(sd);
    let s = choose|s: int| live.contains(s);
    lemma_square_numbering();
    assert(live.contains(s)) by {
        if forall|j: int| !live.contains(j) {
            assert(live =~= Set::<int>::empty());
        }
    }
    let m = b.tentative(sd, s);
    assert(b.resolve(sd) == Ok::<Move, IllegalMove>(Move::Simple(m)));
    assert(!b.apply_simple_spec(m).in_check_spec(c));
    assert(b.candidates(sd).contains(s));
    assert(b.men(c, p).contains(s)) by {
        if p != Piece::Pawn || sd.captures {
            assert(b.attackers(c, p, t).contains(s));
        } else {
            assert(b.pushers(c, t).contains(s));
        }
    }
    lemma_bits_bounded(b.side(c).0);
    assert(0 <= s < 64 && 0 <= t < 64);
    assert(!own.contains(t));
    assert(b.occupied().contains(t) <==> enemy.contains(t));
    assert((v != Set::<int>::empty()) == sd.captures);
    if p != Piece::Pawn {
        assert(sd.promotion is None);
        assert(b.attacks_from(c, p, s, t));
        assert(b.targets_of(p, s).contains(t));
        assert(emptied(s, t, v) =~= set![s, t]);
        let g = step(p, s, t);
        assert(g == Move::Simple(m));
        lemma_arrival_holds(p, p, s, t);
        lemma_arrival_is_step(p, s, b.targets_of(p, s), t, g);
        lemma_move_is_generated(b, p, s, g);
        g
    } else if v.contains(t) || v == Set::<int>::empty() {
        // a pawn that advances, or takes the piece on the square it goes to
        assert(emptied(s, t, v) =~= set![s, t]);
        let q = if m.piece == Piece::Pawn && (rank_of(t) == 0 || rank_of(t) == 7) {
            Piece::Queen
        } else {
            m.piece
        };
        let g = step(q, s, t);
        let targets = if sd.captures {
            pawn_attack_squares(c, s).intersect(enemy)
        } else if pawn_push_squares(c, s).contains(t) {
            pawn_push_squares(c, s).difference(b.occupied())
        } else {
            pawn_double_squares(c, s).difference(b.occupied())
        };
        if sd.captures {
            assert(b.attackers(c, p, t).contains(s));
            assert(pawn_attack_squares(c, s).contains(t));
            assert(v.contains(t));
            assert(enemy.contains(t));
        } else {
            assert(v =~= Set::<int>::empty());
            assert(!enemy.contains(t));
            assert(b.pushers(c, t).contains(s));
            let one = pawn_push_squares(c, s).difference(b.occupied());
            if pawn_push_squares(c, s).contains(t) {
                assert(one.contains(t));
            } else {
                assert(pawn_double_squares(c, s).contains(t));
                let middle = s - 8 * c.forward();
                assert(pawn_push_squares(c, s).contains(middle));
                assert(one.contains(middle));
            }
            assert(one != Set::<int>::empty());
        }
        assert(targets.contains(t));
        assert(rank_of(t) == rank_of(s) + c.forward() || rank_of(t) == double_push_rank(c));
        if sd.promotion is Some {
            assert(rank_of(t) == last_rank(c));
        }
        lemma_arrival_holds(Piece::Pawn, q, s, t);
        lemma_arrival_is_step(Piece::Pawn, s, targets, t, g);
        assert(b.moves_of(Piece::Pawn, s).contains(g)) by {
            broadcast use vstd::seq_lib::lemma_seq_concat_contains_all_elements;

            if sd.captures {
                assert(b.pawn_captures_spec(s).contains(g));
            } else {
                assert(b.pawn_advances_spec(s).contains(g));
            }
        }
        lemma_move_is_generated(b, Piece::Pawn, s, g);
        lemma_slide_sets(q, s, t);
        let x = g->Simple_0;
        assert(x.delete == m.delete && x.add == m.add);
        if q != m.piece {
            if b.apply_simple_spec(x).in_check_spec(c) {
                lemma_check_carries(b, x, m);
            }
        } else {
            assert(g == Move::Simple(m));
        }
        g
    } else {
        // a pawn that takes en passant
        let k = b.en_passant as int;
        let kill = square_at(k - 1, double_push_rank(c.other()));
        assert(!enemy.contains(t));
        assert(ep_target_squares(c, k).contains(t));
        assert(1 <= k <= 8);
        assert(v == ep_kill_squares(c, k).intersect(enemy));
        assert(enemy.contains(kill)) by {
            if !enemy.contains(kill) {
                assert(v =~= Set::<int>::empty());
            }
        }
        assert(v =~= set![kill]);
        assert(sd.captures);
        assert(b.attackers(c, p, t).contains(s));
        assert(pawn_attack_squares(c, s).contains(t));
        assert(ep_source_squares(c, k).contains(s));
        assert(emptied(s, t, v) =~= set![s].union(ep_kill_squares(c, k)));
        assert(ep_target_squares(c, k) =~= set![t]);
        assert(sd.promotion is None) by {
            if sd.promotion is Some {
                assert(rank_of(t) == last_rank(c));
            }
        }
        let g = ep_step(c, s, k);
        assert(g == Move::Simple(m));
        assert(b.pawn_captures_spec(s).contains(g)) by {
            broadcast use vstd::seq_lib::lemma_seq_concat_contains_all_elements;

            let tail = seq![ep_step(c, s, k)];
            assert(tail[0] == g);
            assert(tail.contains(g));
        }
        assert(b.moves_of(Piece::Pawn, s).contains(g)) by {
            broadcast use vstd::seq_lib::lemma_seq_concat_contains_all_elements;

        }
        lemma_move_is_generated(b, Piece::Pawn, s, g);
        g
    }
}

/// Where every generated move leaves a king of the side to move
/// attacked, every description of a move is turned down: a side without
/// a legal move has no move that the resolver accepts.
pub proof fn lemma_no_safe_move_no_legal_move(b: Board, d: AlgebraicMove)
    requires
        d.valid(),
        forall|g: Move| #[trigger]
            b.pre_legal_moves_spec().contains(g) ==> b.apply_spec(g).in_check_spec(b.player),
    ensures
        b.legal(d) is Err,
{
    if b.legal(d) is Ok {
        let g = lemma_accepted_move_is_generated(b, d);
        assert(b.pre_legal_moves_spec().contains(g));
    }
}

/// The squares seen when walking from the square on file `x` and rank
/// `y` by steps of `dx` files and `dy` ranks, at most `n` steps: each
/// square in turn, up to the edge of the board or up to and with the
/// first occupied square.
pub open spec fn ray_walk(occ: Set<int>, x: int, y: int, dx: int, dy: int, n: nat) -> Set<int>
    decreases n,
{
    if n == 0 || !on_board(x + dx, y + dy) {
        Set::empty()
    } else if occ.contains(square_at(x + dx, y + dy)) {
        set![square_at(x + dx, y + dy)]
    } else {
        ray_walk(occ, x + dx, y + dy, dx, dy, (n - 1) as nat).insert(square_at(x + dx, y + dy))
    }
}

/// The number of steps of a king from one square to another.
pub open spec fn distance(s: int, t: int) -> int {
    let fx = if file_of(t) >= file_of(s) {
        file_of(t) - file_of(s)
    } else {
        file_of(s) - file_of(t)
    };
    let fy = if rank_of(t) >= rank_of(s) {
        rank_of(t) - rank_of(s)
    } else {
        rank_of(s) - rank_of(t)
    };
    if fx >= fy {
        fx
    } else {
        fy
    }
}

/// `k` steps in a direction that changes a coordinate by `d` each step.
pub open spec fn steps(d: int, k: int) -> int {
    if d == 1 {
        k
    } else if d == -1 {
        -k
    } else {
        0
    }
}

/// `t` lies from `s` in the direction of `dx` files and `dy` ranks a step.
pub open spec fn ahead(s: int, t: int, dx: int, dy: int) -> bool {
    file_of(t) == file_of(s) + steps(dx, distance(s, t)) && rank_of(t) == rank_of(s) + steps(
        dy,
        distance(s, t),
    )
}

/// One step along a ray: what lies ahead of a square lies ahead of the
/// next square too, one step nearer, unless it is that square; and the
/// squares between are the next square and those between it and the goal.
proof fn lemma_one_step(s: int, t: int, dx: int, dy: int)
    requires
        0 <= s < 64,
        0 <= t < 64,
        -1 <= dx <= 1,
        -1 <= dy <= 1,
        dx != 0 || dy != 0,
        on_board(file_of(s) + dx, rank_of(s) + dy),
    ensures
        ({
            let s1 = square_at(file_of(s) + dx, rank_of(s) + dy);
            &&& 0 <= s1 < 64
            &&& file_of(s1) == file_of(s) + dx
            &&& rank_of(s1) == rank_of(s) + dy
            &&& distance(s, s1) == 1
            &&& ahead(s, s1, dx, dy)
            &&& forall|c: int| 0 <= c < 64 ==> !between(s, s1, c)
            &&& (ahead(s, t, dx, dy) && distance(s, t) >= 1 && t != s1) ==> {
                &&& between(s, t, s1)
                &&& ahead(s1, t, dx, dy)
                &&& distance(s1, t) == distance(s, t) - 1
                &&& distance(s1, t) >= 1
                &&& forall|c: int|
                    0 <= c < 64 ==> (between(s, t, c) <==> (c == s1 || between(s1, t, c)))
            }
            &&& (ahead(s1, t, dx, dy) && distance(s1, t) >= 1) ==> {
                &&& ahead(s, t, dx, dy)
                &&& distance(s, t) == distance(s1, t) + 1
                &&& t != s1
            }
        }),
{
    lemma_square_numbering();
    let s1 = square_at(file_of(s) + dx, rank_of(s) + dy);
    let sx = file_of(s);
    let sy = rank_of(s);
    let tx = file_of(t);
    let ty = rank_of(t);
    assert(0 <= sx < 8 && 0 <= sy < 8 && 0 <= tx < 8 && 0 <= ty < 8);
    assert(file_of(s1) == sx + dx && rank_of(s1) == sy + dy);
    assert forall|c: int| 0 <= c < 64 implies !between(s, s1, c) by {
        let cx = file_of(c);
        let cy = rank_of(c);
    }
    if ahead(s, t, dx, dy) && distance(s, t) >= 1 && t != s1 {
        let k = distance(s, t);
        assert(k >= 2) by {
            if k == 1 {
                assert(tx == sx + dx && ty == sy + dy);
                assert(t == square_at(tx, ty));
            }
        }
        assert forall|c: int| 0 <= c < 64 implies (between(s, t, c) <==> (c == s1 || between(
            s1,
            t,
            c,
        ))) by {
            let cx = file_of(c);
            let cy = rank_of(c);
            assert(c == square_at(cx, cy));
            assert(0 <= cx < 8 && 0 <= cy < 8);
        }
    }
}

/// Walking along a ray sees exactly the squares ahead with nothing
/// between: the next occupied square and every square before it.
pub proof fn lemma_ray_walk(occ: Set<int>, s: int, dx: int, dy: int, n: nat)
    requires
        0 <= s < 64,
        -1 <= dx <= 1,
        -1 <= dy <= 1,
        dx != 0 || dy != 0,
    ensures
        forall|t: int|
            #![trigger ray_walk(occ, file_of(s), rank_of(s), dx, dy, n).contains(t)]
            ray_walk(occ, file_of(s), rank_of(s), dx, dy, n).contains(t) <==> (0 <= t < 64 && 1
                <= distance(s, t) <= n && ahead(s, t, dx, dy) && clear_between(occ, s, t)),
    decreases n,
{
    lemma_square_numbering();
    let x = file_of(s);
    let y = rank_of(s);
    let walk = ray_walk(occ, x, y, dx, dy, n);
    if n == 0 {
    } else if !on_board(x + dx, y + dy) {
        assert forall|t: int| 0 <= t < 64 && 1 <= distance(s, t) implies !ahead(s, t, dx, dy) by {
            let tx = file_of(t);
            let ty = rank_of(t);
            assert(0 <= tx < 8 && 0 <= ty < 8);
        }
    } else {
        let s1 = square_at(x + dx, y + dy);
        lemma_ray_walk(occ, s1, dx, dy, (n - 1) as nat);
        let inner = ray_walk(occ, file_of(s1), rank_of(s1), dx, dy, (n - 1) as nat);
        assert(file_of(s1) == x + dx && rank_of(s1) == y + dy);
        assert forall|t: int|
            walk.contains(t) <==> (0 <= t < 64 && 1 <= distance(s, t) <= n && ahead(s, t, dx, dy)
                && clear_between(occ, s, t)) by {
            if 0 <= t < 64 {
                lemma_one_step(s, t, dx, dy);
                let wanted = 1 <= distance(s, t) <= n && ahead(s, t, dx, dy) && clear_between(
                    occ,
                    s,
                    t,
                );
                if t == s1 {
                    assert(walk.contains(t));
                    assert(clear_between(occ, s, t));
                    assert(wanted);
                } else if occ.contains(s1) {
                    assert(!walk.contains(t));
                    if wanted {
                        assert(between(s, t, s1));
                        assert(false);
                    }
                } else {
                    assert(walk.contains(t) == inner.contains(t));
                    if wanted {
                        assert(clear_between(occ, s1, t));
                        assert(inner.contains(t));
                    }
                    if inner.contains(t) {
                        assert(1 <= distance(s1, t) <= n - 1 && ahead(s1, t, dx, dy)
                            && clear_between(occ, s1, t));
                        assert(ahead(s, t, dx, dy) && distance(s, t) == distance(s1, t) + 1);
                        assert forall|c: int| 0 <= c < 64 && between(s, t, c) implies !occ.contains(
                            c,
                        ) by {
                            assert(c == s1 || between(s1, t, c));
                        }
                        assert(clear_between(occ, s, t));
                        assert(wanted);
                    }
                }
            } else {
                if walk.contains(t) {
                    lemma_walk_on_board(occ, x, y, dx, dy, n, t);
                }
            }
        }
    }
}

/// A walk sees only squares of the board.
proof fn lemma_walk_on_board(occ: Set<int>, x: int, y: int, dx: int, dy: int, n: nat, t: int)
    requires
        ray_walk(occ, x, y, dx, dy, n).contains(t),
    ensures
        0 <= t < 64,
    decreases n,
{
    lemma_square_numbering();
    if n > 0 && on_board(x + dx, y + dy) && !occ.contains(square_at(x + dx, y + dy)) && t
        != square_at(x + dx, y + dy) {
        lemma_walk_on_board(occ, x + dx, y + dy, dx, dy, (n - 1) as nat, t);
    }
}

/// The squares a rook attacks are those seen when walking from its
/// square along the rank and the file, each way up to and with the first
/// occupied square.
pub proof fn lemma_rook_reach_is_ray_walk(occ: Set<int>, s: int)
    requires
        0 <= s < 64,
    ensures
        rook_squares(occ, s) == ray_walk(occ, file_of(s), rank_of(s), 1, 0, 7).union(
            ray_walk(occ, file_of(s), rank_of(s), -1, 0, 7),
        ).union(ray_walk(occ, file_of(s), rank_of(s), 0, 1, 7)).union(
            ray_walk(occ, file_of(s), rank_of(s), 0, -1, 7),
        ),
{
    lemma_ray_walk(occ, s, 1, 0, 7);
    lemma_ray_walk(occ, s, -1, 0, 7);
    lemma_ray_walk(occ, s, 0, 1, 7);
    lemma_ray_walk(occ, s, 0, -1, 7);
    lemma_square_numbering();
    let all = ray_walk(occ, file_of(s), rank_of(s), 1, 0, 7).union(
        ray_walk(occ, file_of(s), rank_of(s), -1, 0, 7),
    ).union(ray_walk(occ, file_of(s), rank_of(s), 0, 1, 7)).union(
        ray_walk(occ, file_of(s), rank_of(s), 0, -1, 7),
    );
    assert forall|t: int| rook_squares(occ, s).contains(t) <==> all.contains(t) by {
        if 0 <= t < 64 {
            let tx = file_of(t);
            let ty = rank_of(t);
            let sx = file_of(s);
            let sy = rank_of(s);
            assert(0 <= tx < 8 && 0 <= ty < 8 && 0 <= sx < 8 && 0 <= sy < 8);
            assert(t == square_at(tx, ty) && s == square_at(sx, sy));
            assert(rook_line(s, t) <==> (distance(s, t) >= 1 && (ahead(s, t, 1, 0) || ahead(
                s,
                t,
                -1,
                0,
            ) || ahead(s, t, 0, 1) || ahead(s, t, 0, -1))));
            assert(distance(s, t) <= 7);
            let e = ray_walk(occ, file_of(s), rank_of(s), 1, 0, 7);
            let w = ray_walk(occ, file_of(s), rank_of(s), -1, 0, 7);
            let n = ray_walk(occ, file_of(s), rank_of(s), 0, 1, 7);
            let d = ray_walk(occ, file_of(s), rank_of(s), 0, -1, 7);
            assert(e.contains(t) <==> (1 <= distance(s, t) && ahead(s, t, 1, 0) && clear_between(
                occ,
                s,
                t,
            )));
            assert(w.contains(t) <==> (1 <= distance(s, t) && ahead(s, t, -1, 0) && clear_between(
                occ,
                s,
                t,
            )));
            assert(n.contains(t) <==> (1 <= distance(s, t) && ahead(s, t, 0, 1) && clear_between(
                occ,
                s,
                t,
            )));
            assert(d.contains(t) <==> (1 <= distance(s, t) && ahead(s, t, 0, -1) && clear_between(
                occ,
                s,
                t,
            )));
            assert(all.contains(t) <==> (e.contains(t) || w.contains(t) || n.contains(t)
                || d.contains(t)));
        } else {
            let e = ray_walk(occ, file_of(s), rank_of(s), 1, 0, 7);
            let w = ray_walk(occ, file_of(s), rank_of(s), -1, 0, 7);
            let n = ray_walk(occ, file_of(s), rank_of(s), 0, 1, 7);
            let d = ray_walk(occ, file_of(s), rank_of(s), 0, -1, 7);
            assert(!e.contains(t) && !w.contains(t) && !n.contains(t) && !d.contains(t));
        }
    }
    assert(rook_squares(occ, s) =~= all);
}

/// The squares a bishop attacks are those seen when walking from its
/// square along the diagonals, each way up to and with the first
/// occupied square.
pub proof fn lemma_bishop_reach_is_ray_walk(occ: Set<int>, s: int)
    requires
        0 <= s < 64,
    ensures
        bishop_squares(occ, s) == ray_walk(occ, file_of(s), rank_of(s), 1, 1, 7).union(
            ray_walk(occ, file_of(s), rank_of(s), -1, 1, 7),
        ).union(ray_walk(occ, file_of(s), rank_of(s), 1, -1, 7)).union(
            ray_walk(occ, file_of(s), rank_of(s), -1, -1, 7),
        ),
{
    lemma_ray_walk(occ, s, 1, 1, 7);
    lemma_ray_walk(occ, s, -1, 1, 7);
    lemma_ray_walk(occ, s, 1, -1, 7);
    lemma_ray_walk(occ, s, -1, -1, 7);
    lemma_square_numbering();
    let all = ray_walk(occ, file_of(s), rank_of(s), 1, 1, 7).union(
        ray_walk(occ, file_of(s), rank_of(s), -1, 1, 7),
    ).union(ray_walk(occ, file_of(s), rank_of(s), 1, -1, 7)).union(
        ray_walk(occ, file_of(s), rank_of(s), -1, -1, 7),
    );
    assert forall|t: int| bishop_squares(occ, s).contains(t) <==> all.contains(t) by {
        if 0 <= t < 64 {
            let tx = file_of(t);
            let ty = rank_of(t);
            let sx = file_of(s);
            let sy = rank_of(s);
            assert(0 <= tx < 8 && 0 <= ty < 8 && 0 <= sx < 8 && 0 <= sy < 8);
            assert(t == square_at(tx, ty) && s == square_at(sx, sy));
            assert(bishop_line(s, t) <==> (distance(s, t) >= 1 && (ahead(s, t, 1, 1) || ahead(
                s,
                t,
                -1,
                1,
            ) || ahead(s, t, 1, -1) || ahead(s, t, -1, -1))));
            assert(distance(s, t) <= 7);
            let a = ray_walk(occ, file_of(s), rank_of(s), 1, 1, 7);
            let b = ray_walk(occ, file_of(s), rank_of(s), -1, 1, 7);
            let c = ray_walk(occ, file_of(s), rank_of(s), 1, -1, 7);
            let d = ray_walk(occ, file_of(s), rank_of(s), -1, -1, 7);
            assert(a.contains(t) <==> (1 <= distance(s, t) && ahead(s, t, 1, 1) && clear_between(
                occ,
                s,
                t,
            )));
            assert(b.contains(t) <==> (1 <= distance(s, t) && ahead(s, t, -1, 1) && clear_between(
                occ,
                s,
                t,
            )));
            assert(c.contains(t) <==> (1 <= distance(s, t) && ahead(s, t, 1, -1) && clear_between(
                occ,
                s,
                t,
            )));
            assert(d.contains(t) <==> (1 <= distance(s, t) && ahead(s, t, -1, -1)
                && clear_between(occ, s, t)));
            assert(all.contains(t) <==> (a.contains(t) || b.contains(t) || c.contains(t)
                || d.contains(t)));
        } else {
            let a = ray_walk(occ, file_of(s), rank_of(s), 1, 1, 7);
            let b = ray_walk(occ, file_of(s), rank_of(s), -1, 1, 7);
            let c = ray_walk(occ, file_of(s), rank_of(s), 1, -1, 7);
            let d = ray_walk(occ, file_of(s), rank_of(s), -1, -1, 7);
            assert(!a.contains(t) && !b.contains(t) && !c.contains(t) && !d.contains(t));
        }
    }
    assert(bishop_squares(occ, s) =~= all);
}

} // verus!
