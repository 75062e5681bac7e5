//! The position: where the pieces stand, whose turn it is, and what
//! castling and en passant rights remain; and what a move makes of it.

use crate::bitboard::{initial_squares, Bitboard};
use crate::coords::{file_of, rank_of, square_at, Line, Square};
use crate::moves::{AlgebraicMove, Move, SimpleAlgebraicMove, SimpleMove};
use crate::patterns::{
    back_rank,
    between,
    bishop_squares,
    clear_between,
    double_push_rank,
    ep_kill_squares,
    ep_target_squares,
    home_rank,
    king_squares,
    knight_squares,
    last_rank,
    long_castle_mid_square,
    long_castle_path,
    long_castle_path_squares,
    pawn_attack_sources,
    pawn_attack_squares,
    pawn_double_sources,
    pawn_push_sources,
    queen_squares,
    rook_squares,
    short_castle_mid_square,
    short_castle_path,
    short_castle_path_squares,
    Tables,
};
use crate::piece::{Color, Piece};
use crate::utils::{
    bit_at,
    bits_of,
    group_bits,
    lemma_bits_bounded,
    lemma_bits_zero,
    lemma_lowest_bit,
    lemma_shifts,
    lemma_zero_iff_empty,
    lowest_bit,
    one_bit,
};
use vstd::prelude::*;

verus! {

broadcast use group_bits;

/// Why a move was turned down.
#[derive(Copy, Clone, PartialEq, Eq, Structural, Debug)]
pub enum IllegalMove {
    OccupiedSquare,
    Unreachable,
    CaptureMismatch,
    InCheck,
    CastlingThroughPiece,
    CastlingThroughCheck,
    NoCastlingPermissions,
    Ambiguous,
    IllegalPromotion,
}

impl IllegalMove {
    /// The reason in words.
    pub open spec fn message(self) -> Seq<char> {
        match self {
            IllegalMove::OccupiedSquare => "Destination square is occupied"@,
            IllegalMove::Unreachable => "Piece cannot reach that square"@,
            IllegalMove::CaptureMismatch => "Capture mismatch"@,
            IllegalMove::InCheck => "Move would put you in check"@,
            IllegalMove::CastlingThroughPiece => "Piece in the way of castling"@,
            IllegalMove::CastlingThroughCheck => "Castling through a check"@,
            IllegalMove::NoCastlingPermissions => "Castling without rights"@,
            IllegalMove::Ambiguous => "Ambiguous"@,
            IllegalMove::IllegalPromotion => "Illegal promotion (incorrect piece or rank)"@,
        }
    }

    /// The reason in words.
    pub fn as_str(self) -> (r: &'static str)
        ensures
            r@ == self.message(),
    {
        match self {
            IllegalMove::OccupiedSquare => "Destination square is occupied",
            IllegalMove::Unreachable => "Piece cannot reach that square",
            IllegalMove::CaptureMismatch => "Capture mismatch",
            IllegalMove::InCheck => "Move would put you in check",
            IllegalMove::CastlingThroughPiece => "Piece in the way of castling",
            IllegalMove::CastlingThroughCheck => "Castling through a check",
            IllegalMove::NoCastlingPermissions => "Castling without rights",
            IllegalMove::Ambiguous => "Ambiguous",
            IllegalMove::IllegalPromotion => "Illegal promotion (incorrect piece or rank)",
        }
    }
}

/// The square on which the king of side `c` starts.
pub open spec fn king_home(c: Color) -> int {
    square_at(4, back_rank(c))
}

/// The square on which the rook of side `c` starts that castles on the
/// queen's side (`long`) or on the king's side.
pub open spec fn rook_home(c: Color, long: bool) -> int {
    square_at(if long { 0 } else { 7 }, back_rank(c))
}

/// The square on which the king of side `c` stands after castling.
pub open spec fn king_castled(c: Color, long: bool) -> int {
    square_at(if long { 2 } else { 6 }, back_rank(c))
}

/// The square on which the rook of side `c` stands after castling.
pub open spec fn rook_castled(c: Color, long: bool) -> int {
    square_at(if long { 3 } else { 5 }, back_rank(c))
}

/// The flag in `castling_rights` for side `c` and one wing.
pub open spec fn castle_flag(c: Color, long: bool) -> u8 {
    match c {
        Color::White => if long { 4 } else { 8 },
        Color::Black => if long { 1 } else { 2 },
    }
}

/// Emptying the squares of `delete` costs side `c` the right to castle on
/// one wing: the king's or the rook's starting square is among them.
pub open spec fn right_lost(delete: Set<int>, c: Color, long: bool) -> bool {
    delete.contains(king_home(c)) || delete.contains(rook_home(c, long))
}

/// The flags of the castling rights that emptying the squares of `delete` costs.
pub open spec fn lost_flags(delete: Set<int>) -> u8 {
    (if right_lost(delete, Color::White, false) { 8u8 } else { 0u8 }) | (if right_lost(
        delete,
        Color::White,
        true,
    ) { 4u8 } else { 0u8 }) | (if right_lost(delete, Color::Black, false) { 2u8 } else { 0u8 }) | (
    if right_lost(delete, Color::Black, true) { 1u8 } else { 0u8 })
}

/// One more than the lowest file of `files` that is at least `x`; 0 when
/// there is none.
pub open spec fn first_file(files: Set<int>, x: int) -> int
    decreases 8 - x,
{
    if x >= 8 {
        0
    } else if files.contains(x) {
        x + 1
    } else {
        first_file(files, x + 1)
    }
}

/// Where no file from `x` on is in `files`, there is no first file.
pub proof fn lemma_first_file_none(files: Set<int>, x: int)
    requires
        0 <= x,
        forall|y: int| x <= y < 8 ==> !files.contains(y),
    ensures
        first_file(files, x) == 0,
    decreases 8 - x,
{
    if x < 8 {
        lemma_first_file_none(files, x + 1);
    }
}

/// Where `m` is the lowest file of `files` from `x` on, it is the first file.
pub proof fn lemma_first_file_some(files: Set<int>, x: int, m: int)
    requires
        0 <= x <= m < 8,
        files.contains(m),
        forall|y: int| x <= y < m ==> !files.contains(y),
    ensures
        first_file(files, x) == m + 1,
    decreases 8 - x,
{
    if x < m {
        lemma_first_file_some(files, x + 1, m);
    }
}

/// What clearing flags does to each of the four rights to castle, and
/// that it never sets one.
pub proof fn lemma_flags(a: u8, ws: bool, wl: bool, bs: bool, bl: bool)
    by (bit_vector)
    ensures
        ({
            let l = (if ws { 8u8 } else { 0u8 }) | (if wl { 4u8 } else { 0u8 }) | (if bs {
                2u8
            } else {
                0u8
            }) | (if bl { 1u8 } else { 0u8 });
            &&& ((a & !l) & 8 != 0) == (a & 8 != 0 && !ws)
            &&& ((a & !l) & 4 != 0) == (a & 4 != 0 && !wl)
            &&& ((a & !l) & 2 != 0) == (a & 2 != 0 && !bs)
            &&& ((a & !l) & 1 != 0) == (a & 1 != 0 && !bl)
            &&& (a & !l) & !a == 0
            &&& (a < 16 ==> (a & !l) < 16)
        }),
        ((a & !12u8) & 8 == 0) && ((a & !12u8) & 4 == 0) && ((a & !12u8) & 2 == a & 2) && ((a
            & !12u8) & 1 == a & 1),
        ((a & !3u8) & 8 == a & 8) && ((a & !3u8) & 4 == a & 4) && ((a & !3u8) & 2 == 0) && ((a
            & !3u8) & 1 == 0),
        (a < 16 ==> (a & !12u8) < 16 && (a & !3u8) < 16),
        15u8 & 8 != 0 && 15u8 & 4 != 0 && 15u8 & 2 != 0 && 15u8 & 1 != 0,
        0u8 & 8 == 0 && 0u8 & 4 == 0 && 0u8 & 2 == 0 && 0u8 & 1 == 0,
{
}

/// The squares that change when a side castles: those that king and rook
/// leave, and those on which each arrives.
#[derive(Copy, Clone, PartialEq, Eq, Structural, Debug)]
pub struct CastleInfo {
    pub delete: Bitboard,
    pub add_rook: Bitboard,
    pub add_king: Bitboard,
}

/// The squares that change when side `c` castles on one wing.
pub open spec fn castle_info(c: Color, long: bool) -> CastleInfo {
    CastleInfo {
        delete: Bitboard(one_bit(rook_home(c, long)) | one_bit(king_home(c))),
        add_rook: Bitboard(one_bit(rook_castled(c, long))),
        add_king: Bitboard(one_bit(king_castled(c, long))),
    }
}

/// The squares that change when side `c` castles on the queen's side.
pub fn long_castle_info(c: Color) -> (r: CastleInfo)
    ensures
        r == castle_info(c, true),
        r.delete@ == set![rook_home(c, true), king_home(c)],
        r.add_rook@ == set![rook_castled(c, true)],
        r.add_king@ == set![king_castled(c, true)],
{
    let y: i32 = match c {
        Color::White => 0,
        Color::Black => 7,
    };
    let r = CastleInfo {
        delete: Bitboard::at(Square::xy(0, y)) | Bitboard::at(Square::xy(4, y)),
        add_rook: Bitboard::at(Square::xy(3, y)),
        add_king: Bitboard::at(Square::xy(2, y)),
    };
    assert(r.delete@ =~= set![rook_home(c, true), king_home(c)]);
    r
}

/// The squares that change when side `c` castles on the king's side.
pub fn short_castle_info(c: Color) -> (r: CastleInfo)
    ensures
        r == castle_info(c, false),
        r.delete@ == set![rook_home(c, false), king_home(c)],
        r.add_rook@ == set![rook_castled(c, false)],
        r.add_king@ == set![king_castled(c, false)],
{
    let y: i32 = match c {
        Color::White => 0,
        Color::Black => 7,
    };
    let r = CastleInfo {
        delete: Bitboard::at(Square::xy(7, y)) | Bitboard::at(Square::xy(4, y)),
        add_rook: Bitboard::at(Square::xy(5, y)),
        add_king: Bitboard::at(Square::xy(6, y)),
    };
    assert(r.delete@ =~= set![rook_home(c, false), king_home(c)]);
    r
}

/// The squares on which the pieces of side `c` start the game.
pub open spec fn initial_side(c: Color) -> Set<int> {
    initial_squares(c, Piece::Pawn).union(initial_squares(c, Piece::Knight)).union(
        initial_squares(c, Piece::Bishop),
    ).union(initial_squares(c, Piece::Rook)).union(initial_squares(c, Piece::Queen)).union(
        initial_squares(c, Piece::King),
    )
}

/// The squares on which the pieces of kind `p` start the game.
pub open spec fn initial_kind(p: Piece) -> Set<int> {
    initial_squares(Color::White, p).union(initial_squares(Color::Black, p))
}

/// The position before the first move of a game: every piece on its
/// starting square, White to move, all rights to castle, no en passant.
pub open spec fn initial_board() -> Board {
    Board {
        white: Bitboard::of(initial_side(Color::White)),
        black: Bitboard::of(initial_side(Color::Black)),
        pawns: Bitboard::of(initial_kind(Piece::Pawn)),
        knights: Bitboard::of(initial_kind(Piece::Knight)),
        bishops: Bitboard::of(initial_kind(Piece::Bishop)),
        rooks: Bitboard::of(initial_kind(Piece::Rook)),
        queens: Bitboard::of(initial_kind(Piece::Queen)),
        kings: Bitboard::of(initial_kind(Piece::King)),
        player: Color::White,
        half_moves: 0,
        castling_rights: 15,
        en_passant: 0,
    }
}

/// The position with no piece, White to move, no rights.
pub open spec fn empty_board() -> Board {
    Board {
        white: Bitboard(0),
        black: Bitboard(0),
        pawns: Bitboard(0),
        knights: Bitboard(0),
        bishops: Bitboard(0),
        rooks: Bitboard(0),
        queens: Bitboard(0),
        kings: Bitboard(0),
        player: Color::White,
        half_moves: 0,
        castling_rights: 0,
        en_passant: 0,
    }
}

/// The squares besides its own that a move to `t` empties when it takes
/// the pieces on `victims`: the squares of the pieces taken, and `t` too
/// unless a piece is taken that stands elsewhere.
pub open spec fn cleared_besides(t: int, victims: Set<int>) -> Set<int> {
    if victims.contains(t) || victims == Set::<int>::empty() {
        set![t].union(victims)
    } else {
        victims
    }
}

/// The squares that a move from `s` to `t` empties when it takes the
/// pieces on `victims`: `s` and the squares of the pieces taken, and `t`
/// too unless a piece is taken that stands elsewhere.
pub open spec fn emptied(s: int, t: int, victims: Set<int>) -> Set<int> {
    set![s].union(cleared_besides(t, victims))
}

/// A set after a move: without the squares the move empties, and, where
/// the set `gains`, with the squares the move fills.
pub open spec fn moved(set: Bitboard, mv: SimpleMove, gains: bool) -> Bitboard {
    if gains {
        Bitboard((set.0 & !mv.delete.0) | mv.add.0)
    } else {
        Bitboard(set.0 & !mv.delete.0)
    }
}

/// A position.
///
/// `castling_rights` holds four flags: 8 for White on the king's side, 4
/// for White on the queen's side, 2 and 1 for Black. `en_passant` is 0, or
/// one more than the file of a pawn that advanced two squares on the move
/// just made.
#[derive(Copy, Clone, PartialEq, Eq, Structural, Debug)]
pub struct Board {
    pub white: Bitboard,
    pub black: Bitboard,
    pub pawns: Bitboard,
    pub knights: Bitboard,
    pub bishops: Bitboard,
    pub rooks: Bitboard,
    pub queens: Bitboard,
    pub kings: Bitboard,
    pub player: Color,
    pub half_moves: u8,
    pub castling_rights: u8,
    pub en_passant: u8,
}

impl Board {
    /// The squares on which side `c` has a piece.
    pub open spec fn side(self, c: Color) -> Bitboard {
        match c {
            Color::White => self.white,
            Color::Black => self.black,
        }
    }

    /// The squares on which a piece of kind `p` stands.
    pub open spec fn kind(self, p: Piece) -> Bitboard {
        match p {
            Piece::Pawn => self.pawns,
            Piece::Knight => self.knights,
            Piece::Bishop => self.bishops,
            Piece::Rook => self.rooks,
            Piece::Queen => self.queens,
            Piece::King => self.kings,
        }
    }

    /// The squares on which any piece stands.
    pub open spec fn occupied(self) -> Set<int> {
        self.white@.union(self.black@)
    }

    /// The squares on which side `c` has a piece of kind `p`.
    pub open spec fn men(self, c: Color, p: Piece) -> Set<int> {
        self.side(c)@.intersect(self.kind(p)@)
    }

    /// No square holds two pieces, every piece has a side and a kind, and
    /// the rights are within their ranges.
    pub open spec fn wf(self) -> bool {
        &&& self.white@.disjoint(self.black@)
        &&& forall|i: int, p: Piece, q: Piece|
            self.kind(p)@.contains(i) && self.kind(q)@.contains(i) ==> p == q
        &&& forall|i: int|
            self.occupied().contains(i) <==> exists|p: Piece| #[trigger] self.kind(p)@.contains(i)
        &&& self.en_passant <= 8
        &&& self.castling_rights < 16
    }

    /// Side `c` still has the right to castle on the king's side.
    pub open spec fn may_castle_short(self, c: Color) -> bool {
        self.castling_rights & castle_flag(c, false) != 0
    }

    /// Side `c` still has the right to castle on the queen's side.
    pub open spec fn may_castle_long(self, c: Color) -> bool {
        self.castling_rights & castle_flag(c, true) != 0
    }

    /// The files on which the move `mv` advances a pawn of the side to
    /// move by two squares: a pawn appears two ranks in front of a square
    /// of its home rank that the move empties.
    pub open spec fn double_push_files(self, mv: SimpleMove) -> Set<int> {
        Set::new(
            |x: int|
                0 <= x < 8 && mv.piece == Piece::Pawn && mv.add@.contains(
                    square_at(x, double_push_rank(self.player)),
                ) && !self.pawns@.contains(square_at(x, double_push_rank(self.player)))
                    && mv.delete@.contains(square_at(x, home_rank(self.player))),
        )
    }

    /// The position after the move `mv`, castling apart.
    pub open spec fn apply_simple_spec(self, mv: SimpleMove) -> Board {
        Board {
            white: moved(self.white, mv, self.player == Color::White),
            black: moved(self.black, mv, self.player == Color::Black),
            pawns: moved(self.pawns, mv, mv.piece == Piece::Pawn),
            knights: moved(self.knights, mv, mv.piece == Piece::Knight),
            bishops: moved(self.bishops, mv, mv.piece == Piece::Bishop),
            rooks: moved(self.rooks, mv, mv.piece == Piece::Rook),
            queens: moved(self.queens, mv, mv.piece == Piece::Queen),
            kings: moved(self.kings, mv, mv.piece == Piece::King),
            player: self.player.other(),
            half_moves: self.half_moves,
            castling_rights: self.castling_rights & !lost_flags(mv.delete@),
            en_passant: first_file(self.double_push_files(mv), 0) as u8,
        }
    }

    /// The position after the side to move has castled as `info` says.
    pub open spec fn apply_castle_spec(self, info: CastleInfo) -> Board {
        let own = Bitboard(
            (self.side(self.player).0 & !info.delete.0) | info.add_rook.0 | info.add_king.0,
        );
        Board {
            white: if self.player == Color::White {
                own
            } else {
                self.white
            },
            black: if self.player == Color::Black {
                own
            } else {
                self.black
            },
            rooks: Bitboard((self.rooks.0 & !info.delete.0) | info.add_rook.0),
            kings: Bitboard((self.kings.0 & !info.delete.0) | info.add_king.0),
            player: self.player.other(),
            castling_rights: match self.player {
                Color::White => self.castling_rights & !12u8,
                Color::Black => self.castling_rights & !3u8,
            },
            en_passant: 0,
            ..self
        }
    }

    /// The position after the move `mv`.
    pub open spec fn apply_spec(self, mv: Move) -> Board {
        match mv {
            Move::Simple(s) => self.apply_simple_spec(s),
            Move::CastleLong => self.apply_castle_spec(castle_info(self.player, true)),
            Move::CastleShort => self.apply_castle_spec(castle_info(self.player, false)),
        }
    }

    /// The squares on which side `c` has a piece.
    pub fn color_set(&self, c: Color) -> (r: Bitboard)
        ensures
            r == self.side(c),
    {
        match c {
            Color::White => self.white,
            Color::Black => self.black,
        }
    }

    /// The squares on which a piece of kind `p` stands.
    pub fn piece_set(&self, p: Piece) -> (r: Bitboard)
        ensures
            r == self.kind(p),
    {
        match p {
            Piece::Pawn => self.pawns,
            Piece::Knight => self.knights,
            Piece::Bishop => self.bishops,
            Piece::Rook => self.rooks,
            Piece::Queen => self.queens,
            Piece::King => self.kings,
        }
    }

    /// The position before the first move of a game.
    pub fn initial() -> (r: Board)
        ensures
            r == initial_board(),
            r.wf(),
            forall|c: Color, p: Piece| #[trigger] r.men(c, p) == initial_squares(c, p),
            r.player == Color::White,
            r.half_moves == 0,
            r.castling_rights == 15,
            r.en_passant == 0,
            r.may_castle_short(Color::White) && r.may_castle_long(Color::White),
            r.may_castle_short(Color::Black) && r.may_castle_long(Color::Black),
    {
        let wp = Bitboard::initial(Color::White, Piece::Pawn);
        let wn = Bitboard::initial(Color::White, Piece::Knight);
        let wb = Bitboard::initial(Color::White, Piece::Bishop);
        let wr = Bitboard::initial(Color::White, Piece::Rook);
        let wq = Bitboard::initial(Color::White, Piece::Queen);
        let wk = Bitboard::initial(Color::White, Piece::King);
        let bp = Bitboard::initial(Color::Black, Piece::Pawn);
        let bn = Bitboard::initial(Color::Black, Piece::Knight);
        let bb = Bitboard::initial(Color::Black, Piece::Bishop);
        let br = Bitboard::initial(Color::Black, Piece::Rook);
        let bq = Bitboard::initial(Color::Black, Piece::Queen);
        let bk = Bitboard::initial(Color::Black, Piece::King);
        let r = Board {
            white: wp | wn | wb | wr | wq | wk,
            black: bp | bn | bb | br | bq | bk,
            pawns: wp | bp,
            knights: wn | bn,
            bishops: wb | bb,
            rooks: wr | br,
            queens: wq | bq,
            kings: wk | bk,
            player: Color::White,
            half_moves: 0,
            castling_rights: 15,
            en_passant: 0,
        };
        proof {
            lemma_flags(0, false, false, false, false);
            r.white.lemma_of();
            r.black.lemma_of();
            r.pawns.lemma_of();
            r.knights.lemma_of();
            r.bishops.lemma_of();
            r.rooks.lemma_of();
            r.queens.lemma_of();
            r.kings.lemma_of();
            assert(r.white@ =~= initial_side(Color::White));
            assert(r.black@ =~= initial_side(Color::Black));
            assert(r.pawns@ =~= initial_kind(Piece::Pawn));
            assert(r.knights@ =~= initial_kind(Piece::Knight));
            assert(r.bishops@ =~= initial_kind(Piece::Bishop));
            assert(r.rooks@ =~= initial_kind(Piece::Rook));
            assert(r.queens@ =~= initial_kind(Piece::Queen));
            assert(r.kings@ =~= initial_kind(Piece::King));
            assert forall|c: Color, p: Piece| #[trigger] r.men(c, p) == initial_squares(c, p) by {
                assert(r.men(c, p) =~= initial_squares(c, p));
            }
            assert forall|i: int|
                r.occupied().contains(i) <==> exists|p: Piece| #[trigger]
                    r.kind(p)@.contains(i) by {
                if r.occupied().contains(i) {
                    if r.pawns@.contains(i) {
                        assert(r.kind(Piece::Pawn)@.contains(i));
                    } else if r.knights@.contains(i) {
                        assert(r.kind(Piece::Knight)@.contains(i));
                    } else if r.bishops@.contains(i) {
                        assert(r.kind(Piece::Bishop)@.contains(i));
                    } else if r.rooks@.contains(i) {
                        assert(r.kind(Piece::Rook)@.contains(i));
                    } else if r.queens@.contains(i) {
                        assert(r.kind(Piece::Queen)@.contains(i));
                    } else {
                        assert(r.kind(Piece::King)@.contains(i));
                    }
                }
            }
        }
        r
    }

    /// The position without any piece, White to move, no rights left.
    pub fn empty() -> (r: Board)
        ensures
            r == empty_board(),
            r.wf(),
            r.occupied() == Set::<int>::empty(),
            forall|p: Piece| #[trigger] r.kind(p).0 == 0,
            r.white.0 == 0 && r.black.0 == 0,
            r.player == Color::White,
            r.half_moves == 0,
            r.castling_rights == 0,
            r.en_passant == 0,
    {
        proof {
            lemma_bits_zero();
        }
        let r = Board {
            white: Bitboard::empty(),
            black: Bitboard::empty(),
            pawns: Bitboard::empty(),
            knights: Bitboard::empty(),
            bishops: Bitboard::empty(),
            rooks: Bitboard::empty(),
            queens: Bitboard::empty(),
            kings: Bitboard::empty(),
            player: Color::White,
            half_moves: 0,
            castling_rights: 0,
            en_passant: 0,
        };
        assert(r.occupied() =~= Set::<int>::empty());
        r
    }

    /// The squares on which any piece stands.
    pub fn occupancy(&self) -> (r: Bitboard)
        ensures
            r@ == self.occupied(),
            r.0 == self.white.0 | self.black.0,
    {
        self.white | self.black
    }

    /// Whether the position is well formed.
    pub fn is_well_formed(&self) -> (r: bool)
        ensures
            r == self.wf(),
    {
        let mut seen = Bitboard::empty();
        let mut apart = true;
        let kinds = Piece::list();
        let mut n: usize = 0;
        while n < 6
            invariant
                n <= 6,
                forall|p: Piece| #[trigger] kinds[p.ordinal()] == p,
                forall|i: int|
                    seen@.contains(i) <==> exists|p: Piece|
                        p.ordinal() < n && #[trigger] self.kind(p)@.contains(i),
                apart <==> forall|i: int, p: Piece, q: Piece|
                    p.ordinal() < n && q.ordinal() < n && self.kind(p)@.contains(i) && self.kind(
                        q,
                    )@.contains(i) ==> p == q,
            decreases 6 - n,
        {
            let k = kinds[n];
            assert(k.ordinal() == n) by {
                assert(kinds[Piece::Pawn.ordinal()] == Piece::Pawn);
                assert(kinds[Piece::Knight.ordinal()] == Piece::Knight);
                assert(kinds[Piece::Bishop.ordinal()] == Piece::Bishop);
                assert(kinds[Piece::Rook.ordinal()] == Piece::Rook);
                assert(kinds[Piece::Queen.ordinal()] == Piece::Queen);
                assert(kinds[Piece::King.ordinal()] == Piece::King);
            }
            let set = self.piece_set(k);
            let clash = (seen & set).is_populated();
            let ghost before = seen;
            proof {
                if clash {
                    crate::utils::lemma_lowest_bit((seen.0 & set.0) as u64);
                    let i = crate::utils::lowest_bit((seen.0 & set.0) as u64);
                    assert(seen@.contains(i) && set@.contains(i));
                    let p = choose|p: Piece|
                        p.ordinal() < n && #[trigger] self.kind(p)@.contains(i);
                    assert(self.kind(p)@.contains(i) && self.kind(k)@.contains(i) && p != k);
                } else {
                    assert(seen@.intersect(set@) == Set::<int>::empty());
                    assert forall|i: int, p: Piece|
                        p.ordinal() < n && self.kind(p)@.contains(i) implies !self.kind(
                        k,
                    )@.contains(i) by {
                        if self.kind(k)@.contains(i) {
                            assert(seen@.contains(i));
                            assert(seen@.intersect(set@).contains(i));
                        }
                    }
                }
            }
            if clash {
                apart = false;
            }
            seen = seen | set;
            proof {
                assert forall|i: int|
                    seen@.contains(i) <==> exists|p: Piece|
                        p.ordinal() < n + 1 && #[trigger] self.kind(p)@.contains(i) by {
                    if before@.contains(i) {
                        let p = choose|p: Piece|
                            p.ordinal() < n && #[trigger] self.kind(p)@.contains(i);
                        assert(p.ordinal() < n + 1 && self.kind(p)@.contains(i));
                    }
                    if set@.contains(i) {
                        assert(k.ordinal() < n + 1 && self.kind(k)@.contains(i));
                    }
                    if exists|p: Piece| p.ordinal() < n + 1 && #[trigger] self.kind(p)@.contains(i) {
                        let p = choose|p: Piece|
                            p.ordinal() < n + 1 && #[trigger] self.kind(p)@.contains(i);
                        if p.ordinal() < n {
                            assert(before@.contains(i));
                        } else {
                            assert(p == k);
                        }
                    }
                }
            }
            n += 1;
        }
        let both = (self.white & self.black).is_populated();
        let covered = (self.white | self.black).0 == seen.0;
        proof {
            lemma_zero_iff_empty((self.white.0 & self.black.0) as u64);
            assert(!both <==> self.white@.disjoint(self.black@)) by {
                if !both {
                    assert(self.white@.intersect(self.black@) == Set::<int>::empty());
                    assert forall|i: int| !(self.white@.contains(i) && self.black@.contains(i)) by {
                        if self.white@.contains(i) && self.black@.contains(i) {
                            assert(self.white@.intersect(self.black@).contains(i));
                        }
                    }
                } else {
                    if self.white@.disjoint(self.black@) {
                        assert(self.white@.intersect(self.black@) =~= Set::<int>::empty());
                    }
                }
            }
            assert(apart <==> forall|i: int, p: Piece, q: Piece|
                self.kind(p)@.contains(i) && self.kind(q)@.contains(i) ==> p == q) by {
                assert(forall|p: Piece| p.ordinal() < 6);
            }
            if covered {
                assert(self.occupied() == seen@);
                assert forall|i: int|
                    self.occupied().contains(i) <==> exists|p: Piece| #[trigger]
                        self.kind(p)@.contains(i) by {
                    if seen@.contains(i) {
                        let p = choose|p: Piece|
                            p.ordinal() < n && #[trigger] self.kind(p)@.contains(i);
                        assert(self.kind(p)@.contains(i));
                    }
                    if exists|p: Piece| #[trigger] self.kind(p)@.contains(i) {
                        let p = choose|p: Piece| #[trigger] self.kind(p)@.contains(i);
                        assert(p.ordinal() < n && self.kind(p)@.contains(i));
                    }
                }
            } else {
                if forall|i: int|
                    self.occupied().contains(i) <==> exists|p: Piece| #[trigger]
                        self.kind(p)@.contains(i) {
                    assert forall|i: int| self.occupied().contains(i) <==> seen@.contains(i) by {
                        if seen@.contains(i) {
                            let p = choose|p: Piece|
                                p.ordinal() < n && #[trigger] self.kind(p)@.contains(i);
                            assert(self.kind(p)@.contains(i));
                        }
                        if self.occupied().contains(i) {
                            let p = choose|p: Piece| #[trigger] self.kind(p)@.contains(i);
                            assert(p.ordinal() < n && self.kind(p)@.contains(i));
                        }
                    }
                    assert(self.occupied() =~= seen@);
                    crate::utils::lemma_bits_injective((self.white.0 | self.black.0) as u64, seen.0);
                }
            }
        }
        apart && !both && covered && self.en_passant <= 8 && self.castling_rights < 16
    }

    /// The square on which a pawn of the side to move lands when it takes
    /// en passant, where an en passant file is set.
    pub open spec fn ep_square(self) -> Option<Square> {
        if 1 <= self.en_passant <= 8 {
            Some(
                Square {
                    x: (self.en_passant - 1) as u8,
                    y: crate::patterns::passed_rank(self.player.other()) as u8,
                },
            )
        } else {
            None
        }
    }

    /// The square on which a pawn of the side to move lands when it takes
    /// en passant, where an en passant file is set.
    pub fn en_passant_target(&self) -> (r: Option<Square>)
        ensures
            r == self.ep_square(),
            r matches Some(sq) ==> sq.valid() && ep_target_squares(
                self.player,
                self.en_passant as int,
            ) == set![sq.spec_index()],
    {
        if self.en_passant == 0 || self.en_passant > 8 {
            None
        } else {
            Some(
                Square {
                    x: self.en_passant - 1,
                    y: match self.player {
                        Color::White => 5,
                        Color::Black => 2,
                    },
                },
            )
        }
    }

    /// The side that has won, if any: Black where White has no king, else
    /// White where Black has none.
    pub fn winner(&self) -> (r: Option<Color>)
        ensures
            r == (if self.men(Color::White, Piece::King) == Set::<int>::empty() {
                Some(Color::Black)
            } else if self.men(Color::Black, Piece::King) == Set::<int>::empty() {
                Some(Color::White)
            } else {
                None::<Color>
            }),
    {
        if (self.kings & self.white).is_empty() {
            assert(self.kings@.intersect(self.white@) =~= self.men(Color::White, Piece::King));
            Some(Color::Black)
        } else if (self.kings & self.black).is_empty() {
            assert(self.kings@.intersect(self.white@) =~= self.men(Color::White, Piece::King));
            assert(self.kings@.intersect(self.black@) =~= self.men(Color::Black, Piece::King));
            Some(Color::White)
        } else {
            assert(self.kings@.intersect(self.white@) =~= self.men(Color::White, Piece::King));
            assert(self.kings@.intersect(self.black@) =~= self.men(Color::Black, Piece::King));
            None
        }
    }

    /// Whether side `color` still has the right to castle on the king's side.
    pub fn short_castling_allowed(&self, color: Color) -> (r: bool)
        ensures
            r == self.may_castle_short(color),
    {
        0 != self.castling_rights & match color {
            Color::White => 8,
            Color::Black => 2,
        }
    }

    /// Whether side `color` still has the right to castle on the queen's side.
    pub fn long_castling_allowed(&self, color: Color) -> (r: bool)
        ensures
            r == self.may_castle_long(color),
    {
        0 != self.castling_rights & match color {
            Color::White => 4,
            Color::Black => 1,
        }
    }
}

/// The flags of the castling rights that emptying the squares of `delete` costs.
fn lost_rights(delete: Bitboard) -> (r: u8)
    ensures
        r == lost_flags(delete@),
{
    let e1 = Bitboard::at(Square::xy(4, 0));
    let a1 = Bitboard::at(Square::xy(0, 0));
    let h1 = Bitboard::at(Square::xy(7, 0));
    let e8 = Bitboard::at(Square::xy(4, 7));
    let a8 = Bitboard::at(Square::xy(0, 7));
    let h8 = Bitboard::at(Square::xy(7, 7));
    let ws = (delete & (e1 | h1)).is_populated();
    let wl = (delete & (e1 | a1)).is_populated();
    let bs = (delete & (e8 | h8)).is_populated();
    let bl = (delete & (e8 | a8)).is_populated();
    proof {
        lemma_meets_pair(delete@, king_home(Color::White), rook_home(Color::White, false));
        lemma_meets_pair(delete@, king_home(Color::White), rook_home(Color::White, true));
        lemma_meets_pair(delete@, king_home(Color::Black), rook_home(Color::Black, false));
        lemma_meets_pair(delete@, king_home(Color::Black), rook_home(Color::Black, true));
    }
    (if ws { 8u8 } else { 0u8 }) | (if wl { 4u8 } else { 0u8 }) | (if bs { 2u8 } else { 0u8 }) | (
    if bl { 1u8 } else { 0u8 })
}

/// A set meets a pair of squares exactly when it holds one of the two.
proof fn lemma_meets_pair(set: Set<int>, a: int, b: int)
    ensures
        (set.intersect(set![a].union(set![b])) != Set::<int>::empty()) <==> (set.contains(a)
            || set.contains(b)),
{
    let both = set.intersect(set![a].union(set![b]));
    if set.contains(a) {
        assert(both.contains(a));
    }
    if set.contains(b) {
        assert(both.contains(b));
    }
    if !set.contains(a) && !set.contains(b) {
        assert(both =~= Set::<int>::empty());
    }
}

impl Board {
    /// One more than the file on which the move advances a pawn by two
    /// squares; 0 where it advances none so.
    fn double_push_code(&self, mv: &SimpleMove) -> (r: u8)
        ensures
            r == first_file(self.double_push_files(*mv), 0),
            r <= 8,
    {
        let fresh: u64 = match mv.piece {
            Piece::Pawn => mv.add.0 & !self.pawns.0,
            _ => 0,
        };
        let ghost files = self.double_push_files(*mv);
        let row: u64 = match self.player {
            Color::White => {
                let both = (fresh << 16) & mv.delete.0;
                proof {
                    lemma_shifts(fresh, 16);
                    lemma_shifts(both, 8);
                    lemma_shifts((both << 8) as u64, 56);
                }
                (both << 8) >> 56
            },
            Color::Black => {
                let both = (fresh >> 16) & mv.delete.0;
                proof {
                    lemma_shifts(fresh, 16);
                    lemma_shifts(both, 48);
                    lemma_shifts((both << 48) as u64, 56);
                }
                (both << 48) >> 56
            },
        };
        proof {
            lemma_bits_zero();
            assert forall|b: int| bits_of(row).contains(b) <==> (0 <= b < 8 && files.contains(7 - b)) by {
                if 0 <= b < 64 {
                    let x = 7 - b;
                    match self.player {
                        Color::White => {
                            let both = (fresh << 16) & mv.delete.0;
                            assert(bit_at(row, b as u64) == (b + 56 < 64 && bit_at(
                                (both << 8) as u64,
                                (b + 56) as u64,
                            )));
                            if b < 8 {
                                assert(bit_at((both << 8) as u64, (b + 56) as u64) == bit_at(
                                    both,
                                    (b + 48) as u64,
                                ));
                                assert(bit_at((fresh << 16) as u64, (b + 48) as u64) == bit_at(
                                    fresh,
                                    (b + 32) as u64,
                                ));
                                assert(square_at(x, 3) == b + 32 && square_at(x, 1) == b + 48);
                                assert(bits_of(both).contains(b + 48) <==> (bits_of(
                                    (fresh << 16) as u64,
                                ).contains(b + 48) && mv.delete@.contains(b + 48)));
                                assert(bits_of(fresh).contains(b + 32) <==> (mv.piece == Piece::Pawn
                                    && mv.add@.contains(b + 32) && !self.pawns@.contains(b + 32)));
                            }
                        },
                        Color::Black => {
                            let both = (fresh >> 16) & mv.delete.0;
                            assert(bit_at(row, b as u64) == (b + 56 < 64 && bit_at(
                                (both << 48) as u64,
                                (b + 56) as u64,
                            )));
                            if b < 8 {
                                assert(bit_at((both << 48) as u64, (b + 56) as u64) == bit_at(
                                    both,
                                    (b + 8) as u64,
                                ));
                                assert(bit_at((fresh >> 16) as u64, (b + 8) as u64) == bit_at(
                                    fresh,
                                    (b + 24) as u64,
                                ));
                                assert(square_at(x, 4) == b + 24 && square_at(x, 6) == b + 8);
                                assert(bits_of(both).contains(b + 8) <==> (bits_of(
                                    (fresh >> 16) as u64,
                                ).contains(b + 8) && mv.delete@.contains(b + 8)));
                                assert(bits_of(fresh).contains(b + 24) <==> (mv.piece == Piece::Pawn
                                    && mv.add@.contains(b + 24) && !self.pawns@.contains(b + 24)));
                            }
                        },
                    }
                }
            }
        }
        if row == 0 {
            proof {
                lemma_zero_iff_empty(row);
                assert forall|y: int| 0 <= y < 8 implies !files.contains(y) by {
                    assert(!bits_of(row).contains(7 - y));
                }
                lemma_first_file_none(files, 0);
            }
            0
        } else {
            let h = Bitboard(row).to_index();
            proof {
                assert(bits_of(row).contains(h as int));
                assert forall|y: int| 0 <= y < 7 - h implies !files.contains(y) by {
                    if files.contains(y) {
                        assert(bits_of(row).contains(7 - y));
                    }
                }
                lemma_first_file_some(files, 0, 7 - h);
            }
            (8 - h) as u8
        }
    }

    /// The position after the move `mv`, castling apart: the squares of
    /// `mv.delete` are emptied, those of `mv.add` get a piece of kind
    /// `mv.piece` of the side to move, the turn passes, a right to castle
    /// goes where the square of its king or rook was emptied, and the en
    /// passant file is set where the move advanced a pawn two squares.
    pub fn apply_simple(&self, mv: &SimpleMove) -> (r: Board)
        ensures
            r == self.apply_simple_spec(*mv),
            r.en_passant <= 8,
    {
        let keep = Bitboard(!mv.delete.0);
        let mut new = *self;
        new.white = new.white & keep;
        new.black = new.black & keep;
        new.pawns = new.pawns & keep;
        new.knights = new.knights & keep;
        new.bishops = new.bishops & keep;
        new.rooks = new.rooks & keep;
        new.queens = new.queens & keep;
        new.kings = new.kings & keep;
        match mv.piece {
            Piece::Pawn => {
                new.pawns = new.pawns | mv.add;
            },
            Piece::Knight => {
                new.knights = new.knights | mv.add;
            },
            Piece::Bishop => {
                new.bishops = new.bishops | mv.add;
            },
            Piece::Rook => {
                new.rooks = new.rooks | mv.add;
            },
            Piece::Queen => {
                new.queens = new.queens | mv.add;
            },
            Piece::King => {
                new.kings = new.kings | mv.add;
            },
        }
        match self.player {
            Color::White => {
                new.white = new.white | mv.add;
            },
            Color::Black => {
                new.black = new.black | mv.add;
            },
        }
        new.player = self.player.opponent();
        new.en_passant = self.double_push_code(mv);
        new.castling_rights = self.castling_rights & !lost_rights(mv.delete);
        new
    }

    /// The position after the side to move has castled as `info` says:
    /// king and rook leave and arrive, the turn passes, the side loses
    /// both its rights to castle, and no en passant file is set.
    pub fn apply_castle(&self, info: &CastleInfo) -> (r: Board)
        ensures
            r == self.apply_castle_spec(*info),
    {
        let keep = Bitboard(!info.delete.0);
        let mut new = *self;
        new.rooks = (new.rooks & keep) | info.add_rook;
        new.kings = (new.kings & keep) | info.add_king;
        match self.player {
            Color::White => {
                new.white = (new.white & keep) | info.add_rook | info.add_king;
                new.castling_rights = self.castling_rights & !12u8;
            },
            Color::Black => {
                new.black = (new.black & keep) | info.add_rook | info.add_king;
                new.castling_rights = self.castling_rights & !3u8;
            },
        }
        new.player = self.player.opponent();
        new.en_passant = 0;
        new
    }

    /// The position after the move `mv`.
    pub fn apply(&self, mv: &Move) -> (r: Board)
        ensures
            r == self.apply_spec(*mv),
    {
        match mv {
            Move::Simple(s) => self.apply_simple(s),
            Move::CastleLong => self.apply_castle(&long_castle_info(self.player)),
            Move::CastleShort => self.apply_castle(&short_castle_info(self.player)),
        }
    }
}

/// Attacks run both ways: what a piece on `t` would attack from there is
/// what attacks `t`; for a pawn, with the direction turned round.
pub proof fn lemma_attack_symmetry(occ: Set<int>, s: int, t: int)
    requires
        0 <= s < 64,
        0 <= t < 64,
    ensures
        knight_squares(t).contains(s) == knight_squares(s).contains(t),
        king_squares(t).contains(s) == king_squares(s).contains(t),
        rook_squares(occ, t).contains(s) == rook_squares(occ, s).contains(t),
        bishop_squares(occ, t).contains(s) == bishop_squares(occ, s).contains(t),
        queen_squares(occ, t).contains(s) == queen_squares(occ, s).contains(t),
        forall|c: Color| #[trigger]
            pawn_attack_sources(c, t).contains(s) == pawn_attack_squares(c, s).contains(t),
{
    assert forall|c: int| between(s, t, c) == between(t, s, c) by {}
    assert(clear_between(occ, s, t) == clear_between(occ, t, s));
}

impl Board {
    /// A piece of kind `p` and side `c` on square `s` attacks square `t`
    /// in this position.
    pub open spec fn attacks_from(self, c: Color, p: Piece, s: int, t: int) -> bool {
        match p {
            Piece::Pawn => pawn_attack_squares(c, s).contains(t),
            Piece::Knight => knight_squares(s).contains(t),
            Piece::Bishop => bishop_squares(self.occupied(), s).contains(t),
            Piece::Rook => rook_squares(self.occupied(), s).contains(t),
            Piece::Queen => queen_squares(self.occupied(), s).contains(t),
            Piece::King => king_squares(s).contains(t),
        }
    }

    /// The squares from which a piece of kind `p` and side `c` attacks `t`.
    pub open spec fn attackers(self, c: Color, p: Piece, t: int) -> Set<int> {
        Set::new(|s: int| self.men(c, p).contains(s) && self.attacks_from(c, p, s, t))
    }

    /// The squares from which any piece of side `c` attacks `t`.
    pub open spec fn all_attackers(self, c: Color, t: int) -> Set<int> {
        Set::new(|s: int| exists|p: Piece| #[trigger] self.attackers(c, p, t).contains(s))
    }

    /// Some piece of side `c` attacks `t`.
    pub open spec fn attacked_by(self, c: Color, t: int) -> bool {
        exists|s: int| #[trigger] self.all_attackers(c, t).contains(s)
    }

    /// The squares from which a pawn of side `c` can advance onto `t`: the
    /// square behind `t`, and from its home rank the square two behind
    /// where the square between is empty.
    pub open spec fn pushers(self, c: Color, t: int) -> Set<int> {
        Set::new(
            |s: int|
                self.men(c, Piece::Pawn).contains(s) && (pawn_push_sources(c, t).contains(s) || (
                pawn_double_sources(c, t).contains(s) && !self.occupied().contains(
                    s - 8 * c.forward(),
                ))),
        )
    }

    /// A king of side `c` is attacked.
    pub open spec fn in_check_spec(self, c: Color) -> bool {
        exists|k: int| #[trigger]
            self.men(c, Piece::King).contains(k) && self.attacked_by(c.other(), k)
    }

    /// The pawns of side `player` that can advance onto the one square of
    /// `target`.
    pub fn pawn_move(&self, tables: &Tables, player: Color, target: Bitboard) -> (r: Bitboard)
        requires
            target.is_square(),
        ensures
            r@ == self.pushers(player, target.spec_index()),
    {
        let single = tables.rev_pawn_moves(player, target);
        let double = tables.rev_pawn_dbl_moves(player, target);
        let occupied = self.occupancy().0;
        let behind = match player {
            Color::Black => Bitboard(!(occupied >> 8)),
            Color::White => Bitboard(!(occupied << 8)),
        };
        let r = (single | (behind & double)) & self.color_set(player) & self.piece_set(Piece::Pawn);
        proof {
            lemma_shifts(occupied, 8);
            let t = target.spec_index();
            assert forall|s: int| 0 <= s < 64 && double@.contains(s) implies (behind@.contains(s)
                <==> !self.occupied().contains(s - 8 * player.forward())) by {
                match player {
                    Color::Black => {
                        assert(bit_at((occupied >> 8) as u64, s as u64) == (s + 8 < 64 && bit_at(
                            occupied,
                            (s + 8) as u64,
                        )));
                    },
                    Color::White => {
                        assert(bit_at((occupied << 8) as u64, s as u64) == (s >= 8 && bit_at(
                            occupied,
                            (s - 8) as u64,
                        )));
                    },
                }
            }
            lemma_bits_bounded(double.0);
            assert(r@ =~= self.pushers(player, t));
        }
        r
    }

    /// The pieces of kind `piece` and side `player` that attack the one
    /// square of `target`.
    pub fn piece_capture(&self, tables: &Tables, player: Color, piece: Piece, target: Bitboard) -> (r:
        Bitboard)
        requires
            target.is_square(),
        ensures
            r@ == self.attackers(player, piece, target.spec_index()),
    {
        let potential = match piece {
            Piece::Pawn => tables.rev_pawn_attacks(player, target),
            Piece::King => tables.king_attacks(target),
            Piece::Knight => tables.knight_attacks(target),
            Piece::Bishop => self.bishop_reach(tables, target),
            Piece::Rook => self.rook_reach(tables, target),
            Piece::Queen => self.queen_reach(tables, target),
        };
        let r = potential & self.color_set(player) & self.piece_set(piece);
        proof {
            let t = target.spec_index();
            target.lemma_square(t);
            lemma_bits_bounded(r.0);
            assert forall|s: int|
                r@.contains(s) <==> self.attackers(player, piece, t).contains(s) by {
                if 0 <= s < 64 {
                    lemma_attack_symmetry(self.occupied(), s, t);
                } else {
                    lemma_bits_bounded(self.white.0);
                    lemma_bits_bounded(self.black.0);
                }
            }
            assert(r@ =~= self.attackers(player, piece, t));
        }
        r
    }

    /// The pieces of side `player` that attack the one square of `target`.
    pub fn capture_to(&self, tables: &Tables, player: Color, target: Bitboard) -> (r: Bitboard)
        requires
            target.is_square(),
        ensures
            r@ == self.all_attackers(player, target.spec_index()),
    {
        let mut pattern = Bitboard::empty();
        let kinds = Piece::list();
        let ghost t = target.spec_index();
        let mut n: usize = 0;
        while n < 6
            invariant
                n <= 6,
                target.is_square(),
                t == target.spec_index(),
                forall|p: Piece| #[trigger] kinds[p.ordinal()] == p,
                forall|s: int|
                    pattern@.contains(s) <==> exists|p: Piece|
                        p.ordinal() < n && #[trigger] self.attackers(player, p, t).contains(s),
            decreases 6 - n,
        {
            let k = kinds[n];
            assert(k.ordinal() == n) by {
                assert(kinds[Piece::Pawn.ordinal()] == Piece::Pawn);
                assert(kinds[Piece::Knight.ordinal()] == Piece::Knight);
                assert(kinds[Piece::Bishop.ordinal()] == Piece::Bishop);
                assert(kinds[Piece::Rook.ordinal()] == Piece::Rook);
                assert(kinds[Piece::Queen.ordinal()] == Piece::Queen);
                assert(kinds[Piece::King.ordinal()] == Piece::King);
            }
            let bb = self.piece_capture(tables, player, k, target);
            let ghost before = pattern;
            pattern = pattern | bb;
            proof {
                assert forall|s: int|
                    pattern@.contains(s) <==> exists|p: Piece|
                        p.ordinal() < n + 1 && #[trigger] self.attackers(player, p, t).contains(
                            s,
                        ) by {
                    if before@.contains(s) {
                        let p = choose|p: Piece|
                            p.ordinal() < n && #[trigger] self.attackers(player, p, t).contains(s);
                        assert(p.ordinal() < n + 1 && self.attackers(player, p, t).contains(s));
                    }
                    if bb@.contains(s) {
                        assert(k.ordinal() < n + 1 && self.attackers(player, k, t).contains(s));
                    }
                    if exists|p: Piece|
                        p.ordinal() < n + 1 && #[trigger] self.attackers(player, p, t).contains(s) {
                        let p = choose|p: Piece|
                            p.ordinal() < n + 1 && #[trigger] self.attackers(player, p, t).contains(
                                s,
                            );
                        if p.ordinal() < n {
                            assert(before@.contains(s));
                        } else {
                            assert(p == k);
                        }
                    }
                }
            }
            n += 1;
        }
        proof {
            assert forall|s: int|
                pattern@.contains(s) <==> self.all_attackers(player, t).contains(s) by {
                if pattern@.contains(s) {
                    let p = choose|p: Piece|
                        p.ordinal() < n && #[trigger] self.attackers(player, p, t).contains(s);
                    assert(self.attackers(player, p, t).contains(s));
                }
                if self.all_attackers(player, t).contains(s) {
                    let p = choose|p: Piece| #[trigger] self.attackers(player, p, t).contains(s);
                    assert(p.ordinal() < n && self.attackers(player, p, t).contains(s));
                }
            }
            assert(pattern@ =~= self.all_attackers(player, t));
        }
        pattern
    }

    /// Whether a king of side `color` is attacked. A side without a king
    /// is never in check.
    pub fn in_check(&self, tables: &Tables, color: Color) -> (r: bool)
        ensures
            r == self.in_check_spec(color),
    {
        let kings = self.color_set(color) & self.piece_set(Piece::King);
        let mut rest = kings.occupied();
        let mut found = false;
        while rest.0.0 != 0
            invariant
                kings@ == self.men(color, Piece::King),
                rest.0@.subset_of(kings@),
                found <==> exists|k: int|
                    kings@.contains(k) && !rest.0@.contains(k) && #[trigger] self.attacked_by(
                        color.other(),
                        k,
                    ),
            decreases rest.0@.len(),
        {
            proof {
                lemma_bits_bounded(rest.0.0);
            }
            let ghost before = rest.0@;
            match rest.next() {
                Some(king) => {
                    let attackers = self.capture_to(tables, color.opponent(), king);
                    let hit = attackers.is_populated();
                    proof {
                        let k = king.spec_index();
                        lemma_zero_iff_empty(attackers.0);
                        if hit {
                            crate::utils::lemma_lowest_bit(attackers.0);
                            assert(self.all_attackers(color.other(), k).contains(
                                crate::utils::lowest_bit(attackers.0),
                            ));
                        }
                        assert(hit <==> self.attacked_by(color.other(), k));
                        assert forall|j: int|
                            kings@.contains(j) && !rest.0@.contains(j) implies (!before.contains(j)
                                || j == k) by {}
                    }
                    if hit {
                        found = true;
                    }
                },
                None => {},
            }
        }
        proof {
            lemma_zero_iff_empty(rest.0.0);
            if found {
                let k = choose|k: int|
                    kings@.contains(k) && !rest.0@.contains(k) && #[trigger] self.attacked_by(
                        color.other(),
                        k,
                    );
                assert(self.men(color, Piece::King).contains(k) && self.attacked_by(
                    color.other(),
                    k,
                ));
            }
            if self.in_check_spec(color) {
                let k = choose|k: int| #[trigger]
                    self.men(color, Piece::King).contains(k) && self.attacked_by(color.other(), k);
                assert(kings@.contains(k) && !rest.0@.contains(k) && self.attacked_by(
                    color.other(),
                    k,
                ));
            }
        }
        found
    }
}

impl Board {
    /// What the move says of a promotion is in order: it names none, or
    /// a pawn reaches its last rank and becomes a knight, bishop, rook or
    /// queen.
    pub open spec fn promotion_ok(self, mv: SimpleAlgebraicMove) -> bool {
        mv.promotion matches Some(q) ==> q != Piece::Pawn && q != Piece::King && mv.piece
            == Piece::Pawn && mv.dst_square.y == last_rank(self.player)
    }

    /// The pieces of the side to move that the description `mv` can mean:
    /// those of the named kind that reach the destination (a pawn that
    /// does not capture, by advancing), on the file and rank named.
    pub open spec fn candidates(self, mv: SimpleAlgebraicMove) -> Set<int> {
        let dst = mv.dst_square.spec_index();
        let base = if mv.piece != Piece::Pawn || mv.captures {
            self.attackers(self.player, mv.piece, dst)
        } else {
            self.pushers(self.player, dst)
        };
        Set::new(
            |s: int|
                base.contains(s) && (mv.disambiguate.0 matches Some(f) ==> file_of(s) == f) && (
                mv.disambiguate.1 matches Some(r) ==> rank_of(s) == r),
        )
    }

    /// The squares whose piece the move takes: the destination where an
    /// enemy piece stands on it; else, for a pawn that goes to the square
    /// an enemy pawn has just passed over, the square of that pawn where
    /// an enemy piece stands on it; else none.
    pub open spec fn victims(self, mv: SimpleAlgebraicMove) -> Set<int> {
        let dst = mv.dst_square.spec_index();
        let enemy = self.side(self.player.other())@;
        if enemy.contains(dst) {
            set![dst]
        } else if mv.piece == Piece::Pawn && ep_target_squares(
            self.player,
            self.en_passant as int,
        ).contains(dst) {
            ep_kill_squares(self.player, self.en_passant as int).intersect(enemy)
        } else {
            Set::empty()
        }
    }

    /// The move that `mv` describes if the piece on `s` is the one meant:
    /// it empties `s` and the square of the piece taken, and the
    /// destination too unless the piece taken stands elsewhere, and puts
    /// the piece, or what the pawn becomes, on the destination.
    pub open spec fn tentative(self, mv: SimpleAlgebraicMove, s: int) -> SimpleMove {
        let dst = mv.dst_square.spec_index();
        SimpleMove {
            piece: match mv.promotion {
                Some(q) => q,
                None => mv.piece,
            },
            delete: Bitboard::of(emptied(s, dst, self.victims(mv))),
            add: Bitboard::of(set![dst]),
        }
    }

    /// The candidates whose move does not leave a king of the side to
    /// move attacked.
    pub open spec fn survivors(self, mv: SimpleAlgebraicMove) -> Set<int> {
        Set::new(
            |s: int|
                self.candidates(mv).contains(s) && !self.apply_simple_spec(
                    self.tentative(mv, s),
                ).in_check_spec(self.player),
        )
    }

    /// The move that the description `mv` means in this position, or the
    /// first reason why it means none.
    pub open spec fn resolve(self, mv: SimpleAlgebraicMove) -> Result<Move, IllegalMove> {
        let live = self.survivors(mv);
        if !self.promotion_ok(mv) {
            Err(IllegalMove::IllegalPromotion)
        } else if self.side(self.player)@.contains(mv.dst_square.spec_index()) {
            Err(IllegalMove::OccupiedSquare)
        } else if self.candidates(mv) == Set::<int>::empty() {
            Err(IllegalMove::Unreachable)
        } else if (self.victims(mv) != Set::<int>::empty()) != mv.captures {
            Err(IllegalMove::CaptureMismatch)
        } else if live == Set::<int>::empty() {
            Err(IllegalMove::InCheck)
        } else if exists|a: int, b: int| live.contains(a) && live.contains(b) && a != b {
            Err(IllegalMove::Ambiguous)
        } else {
            Ok(Move::Simple(self.tentative(mv, choose|s: int| live.contains(s))))
        }
    }

    /// The squares between king and rook on one wing of side `c`.
    pub open spec fn castle_path(c: Color, long: bool) -> Set<int> {
        if long {
            long_castle_path_squares(c)
        } else {
            short_castle_path_squares(c)
        }
    }

    /// Castling on one wing, or the first reason why the side to move
    /// cannot: the right is gone, a piece stands between king and rook, or
    /// the square of the king or the square it passes over is attacked.
    pub open spec fn castle_spec(self, long: bool) -> Result<Move, IllegalMove> {
        let c = self.player;
        if !(if long {
            self.may_castle_long(c)
        } else {
            self.may_castle_short(c)
        }) {
            Err(IllegalMove::NoCastlingPermissions)
        } else if !Board::castle_path(c, long).disjoint(self.occupied()) {
            Err(IllegalMove::CastlingThroughPiece)
        } else if self.attacked_by(c.other(), king_home(c)) || self.attacked_by(
            c.other(),
            rook_castled(c, long),
        ) {
            Err(IllegalMove::CastlingThroughCheck)
        } else {
            Ok(
                if long {
                    Move::CastleLong
                } else {
                    Move::CastleShort
                },
            )
        }
    }

    /// The move that `mv` means if it is legal, or the first reason why
    /// it is not. A move that leaves a king of the side to move attacked
    /// is turned down with `InCheck`.
    pub open spec fn legal(self, mv: AlgebraicMove) -> Result<Move, IllegalMove> {
        let first = match mv {
            AlgebraicMove::Simple(m) => self.resolve(m),
            AlgebraicMove::CastleLong { .. } => self.castle_spec(true),
            AlgebraicMove::CastleShort { .. } => self.castle_spec(false),
        };
        match first {
            Err(e) => Err(e),
            Ok(m) => if self.apply_spec(m).in_check_spec(self.player) {
                Err(IllegalMove::InCheck)
            } else {
                Ok(m)
            },
        }
    }

    /// The move that the description `mv` means in this position, or the
    /// first reason why it means none.
    pub fn is_pre_legal(&self, tables: &Tables, mv: &SimpleAlgebraicMove) -> (r: Result<
        Move,
        IllegalMove,
    >)
        requires
            mv.valid(),
        ensures
            r == self.resolve(*mv),
            r matches Ok(found) ==> !self.apply_spec(found).in_check_spec(self.player),
    {
        let player = self.player;
        let piece = match mv.promotion {
            Some(promote_to) => {
                let last: u8 = match player {
                    Color::White => 7,
                    Color::Black => 0,
                };
                if promote_to == Piece::Pawn || promote_to == Piece::King || mv.piece
                    != Piece::Pawn || mv.dst_square.y != last {
                    return Err(IllegalMove::IllegalPromotion);
                }
                promote_to
            },
            None => mv.piece,
        };
        let dst_bb = Bitboard::at(mv.dst_square);
        let ghost dst = mv.dst_square.spec_index();
        if (dst_bb & self.color_set(player)).is_populated() {
            proof {
                lemma_lowest_bit((dst_bb.0 & self.side(player).0) as u64);
            }
            return Err(IllegalMove::OccupiedSquare);
        }
        proof {
            if self.side(player)@.contains(dst) {
                assert(dst_bb@.intersect(self.side(player)@).contains(dst));
            }
        }
        let mut attackers = if mv.piece != Piece::Pawn || mv.captures {
            self.piece_capture(tables, player, mv.piece, dst_bb)
        } else {
            self.pawn_move(tables, player, dst_bb)
        };
        match mv.disambiguate.0 {
            Some(file) => {
                attackers = attackers & Bitboard::line(Line::AtX(file));
            },
            None => {},
        }
        match mv.disambiguate.1 {
            Some(rank) => {
                attackers = attackers & Bitboard::line(Line::AtY(rank));
            },
            None => {},
        }
        proof {
            lemma_bits_bounded(attackers.0);
            assert(attackers@ =~= self.candidates(*mv));
        }
        if attackers.is_empty() {
            return Err(IllegalMove::Unreachable);
        }
        let enemy = self.color_set(player.opponent());
        let mut captures = dst_bb & enemy;
        if mv.piece == Piece::Pawn && captures.is_empty() {
            let k: usize = if self.en_passant <= 8 {
                self.en_passant as usize
            } else {
                0
            };
            let info = tables.pawn_ep_info(player, k);
            if (info.target_square & dst_bb).is_populated() {
                proof {
                    lemma_lowest_bit((info.target_square.0 & dst_bb.0) as u64);
                }
                captures = info.kill_square & enemy;
            } else {
                proof {
                    if ep_target_squares(player, self.en_passant as int).contains(dst) {
                        assert(info.target_square@.intersect(dst_bb@).contains(dst));
                    }
                }
            }
        }
        proof {
            if enemy@.contains(dst) {
                assert(dst_bb@.intersect(enemy@).contains(dst));
                assert(dst_bb@.intersect(enemy@) =~= set![dst]);
            } else {
                assert(dst_bb@.intersect(enemy@) =~= Set::<int>::empty());
            }
            assert(captures@ =~= self.victims(*mv));
        }
        if captures.is_populated() != mv.captures {
            return Err(IllegalMove::CaptureMismatch);
        }
        let elsewhere = captures.is_populated() && (captures & dst_bb).is_empty();
        let stays = if elsewhere {
            captures
        } else {
            dst_bb | captures
        };
        proof {
            if captures@.contains(dst) {
                assert(captures@.intersect(dst_bb@).contains(dst));
            } else {
                assert(captures@.intersect(dst_bb@) =~= Set::<int>::empty());
            }
            assert(stays@ =~= cleared_besides(dst, self.victims(*mv)));
        }
        let mut rest = attackers.occupied();
        let mut live = Bitboard::empty();
        while rest.0.0 != 0
            invariant
                rest.0@.subset_of(attackers@),
                attackers@ == self.candidates(*mv),
                captures@ == self.victims(*mv),
                dst_bb@ == set![dst],
                dst == mv.dst_square.spec_index(),
                stays@ == cleared_besides(dst, self.victims(*mv)),
                player == self.player,
                piece == self.tentative(*mv, 0).piece,
                forall|s: int|
                    live@.contains(s) <==> (attackers@.contains(s) && !rest.0@.contains(s)
                        && self.survivors(*mv).contains(s)),
            decreases rest.0@.len(),
        {
            proof {
                lemma_bits_bounded(rest.0.0);
            }
            let ghost before = rest.0@;
            let ghost live_before = live;
            match rest.next() {
                Some(pat) => {
                    let tentative = SimpleMove { piece, delete: pat | stays, add: dst_bb };
                    let ghost s = pat.spec_index();
                    proof {
                        tentative.delete.lemma_of();
                        tentative.add.lemma_of();
                        assert(tentative.delete@ =~= emptied(s, dst, self.victims(*mv)));
                        assert(tentative == self.tentative(*mv, s));
                    }
                    let safe = !self.apply_simple(&tentative).in_check(tables, player);
                    if safe {
                        live = live | pat;
                    }
                    proof {
                        assert forall|j: int|
                            live@.contains(j) <==> (attackers@.contains(j) && !rest.0@.contains(j)
                                && self.survivors(*mv).contains(j)) by {
                            if j != s {
                                assert(live@.contains(j) <==> live_before@.contains(j));
                                assert(rest.0@.contains(j) <==> before.contains(j));
                            }
                        }
                    }
                },
                None => {},
            }
        }
        proof {
            lemma_zero_iff_empty(rest.0.0);
            assert(live@ =~= self.survivors(*mv));
        }
        if live.is_empty() {
            Err(IllegalMove::InCheck)
        } else {
            let more = (live & (live - Bitboard(1))).is_populated();
            let found = SimpleMove { piece, delete: live | stays, add: dst_bb };
            proof {
                lemma_lowest_bit(live.0);
                let l = lowest_bit(live.0);
                let others = bits_of((live.0 & vstd::wrapping::u64_specs::wrapping_sub(live.0, 1)) as u64);
                lemma_zero_iff_empty((live.0 & vstd::wrapping::u64_specs::wrapping_sub(live.0, 1)) as u64);
                let set = self.survivors(*mv);
                if more {
                    lemma_lowest_bit((live.0 & vstd::wrapping::u64_specs::wrapping_sub(live.0, 1)) as u64);
                    let o = lowest_bit((live.0 & vstd::wrapping::u64_specs::wrapping_sub(live.0, 1)) as u64);
                    assert(set.contains(l) && set.contains(o) && l != o);
                } else {
                    assert forall|a: int, b: int| set.contains(a) && set.contains(b) implies a
                        == b by {
                        if a != l {
                            assert(others.contains(a));
                        }
                        if b != l {
                            assert(others.contains(b));
                        }
                    }
                    let pick = choose|s: int| set.contains(s);
                    assert(set.contains(l));
                    assert(pick == l);
                    found.delete.lemma_of();
                    found.add.lemma_of();
                    assert(live@ =~= set![l]);
                    assert(found.delete@ =~= emptied(l, dst, self.victims(*mv)));
                    assert(found == self.tentative(*mv, l));
                }
            }
            if more {
                Err(IllegalMove::Ambiguous)
            } else {
                Ok(Move::Simple(found))
            }
        }
    }

    /// Whether the way is free for the king to castle: `Ok` where no piece
    /// stands on `path` and no enemy piece attacks the one square of
    /// `king_square` or of `mid_square`.
    pub fn check_castle_move(
        &self,
        tables: &Tables,
        path: Bitboard,
        king_square: Bitboard,
        mid_square: Bitboard,
    ) -> (r: Result<(), IllegalMove>)
        requires
            king_square.is_square(),
            mid_square.is_square(),
        ensures
            r == (if !path@.disjoint(self.occupied()) {
                Err::<(), IllegalMove>(IllegalMove::CastlingThroughPiece)
            } else if self.attacked_by(self.player.other(), king_square.spec_index())
                || self.attacked_by(self.player.other(), mid_square.spec_index()) {
                Err(IllegalMove::CastlingThroughCheck)
            } else {
                Ok(())
            }),
    {
        let blocked = path & self.occupancy();
        if blocked.is_populated() {
            proof {
                lemma_lowest_bit(blocked.0);
                assert(path@.contains(lowest_bit(blocked.0)) && self.occupied().contains(
                    lowest_bit(blocked.0),
                ));
            }
            return Err(IllegalMove::CastlingThroughPiece);
        }
        proof {
            assert(path@.intersect(self.occupied()) == Set::<int>::empty());
            assert forall|i: int| path@.contains(i) implies !self.occupied().contains(i) by {
                if self.occupied().contains(i) {
                    assert(path@.intersect(self.occupied()).contains(i));
                }
            }
        }
        let enemy = self.player.opponent();
        let at_king = self.capture_to(tables, enemy, king_square);
        let at_mid = self.capture_to(tables, enemy, mid_square);
        proof {
            lemma_zero_iff_empty(at_king.0);
            lemma_zero_iff_empty(at_mid.0);
            if at_king.0 != 0 {
                lemma_lowest_bit(at_king.0);
                assert(self.all_attackers(enemy, king_square.spec_index()).contains(
                    lowest_bit(at_king.0),
                ));
            }
            if at_mid.0 != 0 {
                lemma_lowest_bit(at_mid.0);
                assert(self.all_attackers(enemy, mid_square.spec_index()).contains(
                    lowest_bit(at_mid.0),
                ));
            }
        }
        if at_king.is_empty() && at_mid.is_empty() {
            Ok(())
        } else {
            Err(IllegalMove::CastlingThroughCheck)
        }
    }

    /// Castling on the queen's side, or the first reason why the side to
    /// move cannot.
    pub fn castle_long(&self, tables: &Tables) -> (r: Result<Move, IllegalMove>)
        ensures
            r == self.castle_spec(true),
    {
        if !self.long_castling_allowed(self.player) {
            return Err(IllegalMove::NoCastlingPermissions);
        }
        let y: i32 = match self.player {
            Color::White => 0,
            Color::Black => 7,
        };
        match self.check_castle_move(
            tables,
            long_castle_path(self.player),
            Bitboard::at(Square::xy(4, y)),
            long_castle_mid_square(self.player),
        ) {
            Ok(_) => Ok(Move::CastleLong),
            Err(e) => Err(e),
        }
    }

    /// Castling on the king's side, or the first reason why the side to
    /// move cannot.
    pub fn castle_short(&self, tables: &Tables) -> (r: Result<Move, IllegalMove>)
        ensures
            r == self.castle_spec(false),
    {
        if !self.short_castling_allowed(self.player) {
            return Err(IllegalMove::NoCastlingPermissions);
        }
        let y: i32 = match self.player {
            Color::White => 0,
            Color::Black => 7,
        };
        match self.check_castle_move(
            tables,
            short_castle_path(self.player),
            Bitboard::at(Square::xy(4, y)),
            short_castle_mid_square(self.player),
        ) {
            Ok(_) => Ok(Move::CastleShort),
            Err(e) => Err(e),
        }
    }

    /// The move that `mv` means if it is legal, or the first reason why
    /// it is not.
    pub fn is_legal(&self, tables: &Tables, mv: &AlgebraicMove) -> (r: Result<Move, IllegalMove>)
        requires
            mv.valid(),
        ensures
            r == self.legal(*mv),
            r matches Ok(m) ==> !self.apply_spec(m).in_check_spec(self.player),
    {
        let first = match mv {
            AlgebraicMove::Simple(m) => self.is_pre_legal(tables, m),
            AlgebraicMove::CastleLong { .. } => self.castle_long(tables),
            AlgebraicMove::CastleShort { .. } => self.castle_short(tables),
        };
        match first {
            Err(e) => Err(e),
            Ok(m) => {
                if self.apply(&m).in_check(tables, self.player) {
                    Err(IllegalMove::InCheck)
                } else {
                    Ok(m)
                }
            },
        }
    }
}

} // verus!
