//! Moves: the change a move makes to the board, and the description of a
//! move as a player writes it.

use crate::bitboard::Bitboard;
use crate::coords::Square;
use crate::piece::Piece;
use crate::text::{chars_of, decimal, digit_char, push_decimal};
use vstd::prelude::*;
use vstd::string::StringExecFns;

verus! {

/// A move that is no castling: the squares it empties, the squares it
/// fills, and the kind of piece that stands on the filled squares
/// afterwards (in a promotion, the new piece).
#[derive(Copy, Clone, Debug, PartialEq, Eq, Structural)]
pub struct SimpleMove {
    pub delete: Bitboard,
    pub piece: Piece,
    pub add: Bitboard,
}

/// A move.
#[derive(Copy, Clone, Debug, PartialEq, Eq, Structural)]
pub enum Move {
    Simple(SimpleMove),
    CastleLong,
    CastleShort,
}

/// A move as a player writes it, castling apart: which kind of piece goes
/// where, and what else the player said of it. `disambiguate` gives the
/// file and the rank of the square the piece comes from, as far as the
/// player named them. `check` and `checkmate` are kept as written and
/// never looked at.
#[derive(Copy, Clone, Debug)]
pub struct SimpleAlgebraicMove {
    pub piece: Piece,
    pub disambiguate: (Option<u8>, Option<u8>),
    pub dst_square: Square,
    pub captures: bool,
    pub check: bool,
    pub checkmate: bool,
    pub promotion: Option<Piece>,
}

/// A move as a player writes it.
#[derive(Copy, Clone, Debug)]
pub enum AlgebraicMove {
    Simple(SimpleAlgebraicMove),
    CastleLong { check: bool, checkmate: bool },
    CastleShort { check: bool, checkmate: bool },
}

impl SimpleAlgebraicMove {
    /// The squares named lie on the board.
    pub open spec fn valid(self) -> bool {
        &&& self.dst_square.valid()
        &&& (self.disambiguate.0 matches Some(f) ==> f < 8)
        &&& (self.disambiguate.1 matches Some(r) ==> r < 8)
    }

    /// Whether the squares named lie on the board.
    pub fn is_valid(&self) -> (r: bool)
        ensures
            r == self.valid(),
    {
        let file_ok = match self.disambiguate.0 {
            Some(f) => f < 8,
            None => true,
        };
        let rank_ok = match self.disambiguate.1 {
            Some(r) => r < 8,
            None => true,
        };
        self.dst_square.x < 8 && self.dst_square.y < 8 && file_ok && rank_ok
    }
}

impl AlgebraicMove {
    /// The squares named lie on the board.
    pub open spec fn valid(self) -> bool {
        self matches AlgebraicMove::Simple(mv) ==> mv.valid()
    }

    /// Whether the squares named lie on the board.
    pub fn is_valid(&self) -> (r: bool)
        ensures
            r == self.valid(),
    {
        match self {
            AlgebraicMove::Simple(mv) => mv.is_valid(),
            _ => true,
        }
    }
}


/// What one character of a written move stands for.
#[derive(Copy, Clone, PartialEq, Eq, Structural, Debug)]
pub enum Token {
    Piece(Piece),
    Rank(i32),
    File(i32),
    Captures,
    Check,
    Checkmate,
    Dash,
    Oh,
    Equals,
}

/// What the character `c` stands for in a written move, if anything.
pub open spec fn token_of(c: char) -> Option<Token> {
    if c == 'P' {
        Some(Token::Piece(Piece::Pawn))
    } else if c == 'N' {
        Some(Token::Piece(Piece::Knight))
    } else if c == 'B' {
        Some(Token::Piece(Piece::Bishop))
    } else if c == 'R' {
        Some(Token::Piece(Piece::Rook))
    } else if c == 'Q' {
        Some(Token::Piece(Piece::Queen))
    } else if c == 'K' {
        Some(Token::Piece(Piece::King))
    } else if c == 'x' {
        Some(Token::Captures)
    } else if c == '+' {
        Some(Token::Check)
    } else if c == '#' {
        Some(Token::Checkmate)
    } else if 'a' <= c <= 'h' {
        Some(Token::File((c as int - 97) as i32))
    } else if '1' <= c <= '8' {
        Some(Token::Rank((c as int - 49) as i32))
    } else if c == '=' {
        Some(Token::Equals)
    } else if c == '-' {
        Some(Token::Dash)
    } else if c == 'O' || c == '0' {
        Some(Token::Oh)
    } else {
        None
    }
}

/// What the character in place `i` from the end of `s` stands for:
/// `None` past the beginning of `s`, and for a character that stands for
/// nothing.
pub open spec fn peek(s: Seq<char>, i: int) -> Option<Token> {
    if 0 <= i < s.len() {
        token_of(s[s.len() - 1 - i])
    } else {
        None
    }
}

/// The place after a mark of check or checkmate in place `i`, if there is one.
pub open spec fn after_mark(s: Seq<char>, i: int) -> int {
    if peek(s, i) == Some(Token::Check) || peek(s, i) == Some(Token::Checkmate) {
        i + 1
    } else {
        i
    }
}

/// What reading `s` from its end as a castling move gives, and the place
/// up to which this reading has used up `s`.
pub open spec fn read_castling(s: Seq<char>) -> (Option<AlgebraicMove>, int) {
    let check = peek(s, 0) == Some(Token::Check);
    let checkmate = peek(s, 0) == Some(Token::Checkmate);
    let i = after_mark(s, 0);
    if peek(s, i) != Some(Token::Oh) {
        (None, i)
    } else if i + 1 >= s.len() {
        (None, i + 1)
    } else if peek(s, i + 1) != Some(Token::Dash) {
        (None, i + 2)
    } else if i + 2 >= s.len() {
        (None, i + 2)
    } else if peek(s, i + 2) != Some(Token::Oh) {
        (None, i + 3)
    } else if i + 3 >= s.len() {
        (Some(AlgebraicMove::CastleShort { check, checkmate }), i + 3)
    } else if peek(s, i + 3) != Some(Token::Dash) {
        (None, i + 4)
    } else if i + 4 >= s.len() {
        (None, i + 4)
    } else if peek(s, i + 4) == Some(Token::Oh) {
        (Some(AlgebraicMove::CastleLong { check, checkmate }), i + 5)
    } else {
        (None, i + 5)
    }
}

/// What reading `s` from place `i` from its end as a move that is no
/// castling gives: from the end, a mark of check or checkmate; `=` and
/// the piece a pawn becomes; the rank and file of the destination; `x`
/// for a capture; rank and file of the square of origin, as far as
/// given; and the letter of the piece, none for a pawn.
pub open spec fn read_simple(s: Seq<char>, i: int) -> Option<AlgebraicMove> {
    let check = peek(s, i) == Some(Token::Check);
    let checkmate = peek(s, i) == Some(Token::Checkmate);
    let i1 = after_mark(s, i);
    let promoted = peek(s, i1) matches Some(Token::Piece(_));
    let i2 = if promoted {
        i1 + 2
    } else {
        i1
    };
    let has_rank = peek(s, i2) matches Some(Token::Rank(_));
    let i3 = if has_rank {
        i2 + 1
    } else {
        i2
    };
    let has_file = peek(s, i3) matches Some(Token::File(_));
    let i4 = if has_file {
        i3 + 1
    } else {
        i3
    };
    let captures = peek(s, i4) == Some(Token::Captures);
    let i5 = if captures {
        i4 + 1
    } else {
        i4
    };
    let from_rank = peek(s, i5) matches Some(Token::Rank(_));
    let i6 = if from_rank {
        i5 + 1
    } else {
        i5
    };
    let from_file = peek(s, i6) matches Some(Token::File(_));
    let i7 = if from_file {
        i6 + 1
    } else {
        i6
    };
    let named = peek(s, i7) matches Some(Token::Piece(_));
    let i8 = if named {
        i7 + 1
    } else {
        i7
    };
    if promoted && peek(s, i1 + 1) != Some(Token::Equals) {
        None
    } else if !has_rank || !has_file {
        None
    } else if named && promoted {
        None
    } else if i8 < s.len() {
        None
    } else {
        Some(
            AlgebraicMove::Simple(
                SimpleAlgebraicMove {
                    piece: if named {
                        peek(s, i7)->0->Piece_0
                    } else {
                        Piece::Pawn
                    },
                    disambiguate: (
                        if from_file {
                            Some(peek(s, i6)->0->File_0 as u8)
                        } else {
                            None
                        },
                        if from_rank {
                            Some(peek(s, i5)->0->Rank_0 as u8)
                        } else {
                            None
                        },
                    ),
                    dst_square: Square {
                        x: peek(s, i3)->0->File_0 as u8,
                        y: peek(s, i2)->0->Rank_0 as u8,
                    },
                    captures,
                    check,
                    checkmate,
                    promotion: if promoted {
                        Some(peek(s, i1)->0->Piece_0)
                    } else {
                        None
                    },
                },
            ),
        )
    }
}

/// The move that `s` writes: castling if it reads as castling, else what
/// the rest reads as once the reading as castling has used up what it
/// did.
pub open spec fn read_move(s: Seq<char>) -> Option<AlgebraicMove> {
    match read_castling(s).0 {
        Some(mv) => Some(mv),
        None => read_simple(s, read_castling(s).1),
    }
}

/// The letter of a file.
pub open spec fn file_letter(x: int) -> char {
    ((97 + x) as u8) as char
}

/// A square as written: the letter of its file and the number of its rank.
pub open spec fn square_text(sq: Square) -> Seq<char> {
    seq![file_letter(sq.x as int)] + decimal((sq.y + 1) as nat)
}

/// The marks written after a castling move.
pub open spec fn castle_marks(check: bool, checkmate: bool) -> Seq<char> {
    (if check {
        seq!['+']
    } else {
        Seq::empty()
    }) + (if checkmate {
        seq!['#']
    } else {
        Seq::empty()
    })
}

/// What is written before the destination: the letter of the piece, none
/// for a pawn; the file and the rank of the square of origin, as far as
/// named, each as a number; and `x` for a capture.
pub open spec fn head_text(m: SimpleAlgebraicMove) -> Seq<char> {
    (if m.piece == Piece::Pawn {
        Seq::empty()
    } else {
        seq![m.piece.letter()]
    }) + (match m.disambiguate.0 {
        Some(f) => decimal(f as nat),
        None => Seq::empty(),
    }) + (match m.disambiguate.1 {
        Some(r) => decimal(r as nat),
        None => Seq::empty(),
    }) + (if m.captures {
        seq!['x']
    } else {
        Seq::empty()
    })
}

/// What is written after the destination: `=` and the letter of the
/// piece a pawn becomes; then `*` for checkmate, else `+` for check.
pub open spec fn tail_text(m: SimpleAlgebraicMove) -> Seq<char> {
    (match m.promotion {
        Some(q) => seq!['=', q.letter()],
        None => Seq::empty(),
    }) + (if m.checkmate {
        seq!['*']
    } else if m.check {
        seq!['+']
    } else {
        Seq::empty()
    })
}

/// A move as written.
pub open spec fn move_text(mv: AlgebraicMove) -> Seq<char> {
    match mv {
        AlgebraicMove::CastleLong { check, checkmate } => seq!['O', '-', 'O', '-', 'O']
            + castle_marks(check, checkmate),
        AlgebraicMove::CastleShort { check, checkmate } => seq!['O', '-', 'O'] + castle_marks(
            check,
            checkmate,
        ),
        AlgebraicMove::Simple(m) => head_text(m) + square_text(m.dst_square) + tail_text(m),
    }
}

/// The letter of a kind of piece as a text of one character.
pub fn letter_str(p: Piece) -> (r: &'static str)
    ensures
        r@ == seq![p.letter()],
{
    proof {
        reveal_strlit("P");
        reveal_strlit("N");
        reveal_strlit("B");
        reveal_strlit("R");
        reveal_strlit("Q");
        reveal_strlit("K");
    }
    let r = match p {
        Piece::Pawn => "P",
        Piece::Knight => "N",
        Piece::Bishop => "B",
        Piece::Rook => "R",
        Piece::Queen => "Q",
        Piece::King => "K",
    };
    assert(r@ =~= seq![p.letter()]);
    r
}

/// The letter of a file as a text of one character.
pub fn file_str(x: u8) -> (r: &'static str)
    requires
        x < 8,
    ensures
        r@ == seq![file_letter(x as int)],
{
    proof {
        reveal_strlit("a");
        reveal_strlit("b");
        reveal_strlit("c");
        reveal_strlit("d");
        reveal_strlit("e");
        reveal_strlit("f");
        reveal_strlit("g");
        reveal_strlit("h");
    }
    let r = if x == 0 {
        "a"
    } else if x == 1 {
        "b"
    } else if x == 2 {
        "c"
    } else if x == 3 {
        "d"
    } else if x == 4 {
        "e"
    } else if x == 5 {
        "f"
    } else if x == 6 {
        "g"
    } else {
        "h"
    };
    assert(r@ =~= seq![file_letter(x as int)]);
    r
}

fn push_castle_marks(out: &mut String, check: bool, checkmate: bool)
    ensures
        final(out)@ == old(out)@ + castle_marks(check, checkmate),
{
    proof {
        reveal_strlit("+");
        reveal_strlit("#");
    }
    if check {
        out.append("+");
    }
    if checkmate {
        out.append("#");
    }
    assert(out@ =~= old(out)@ + castle_marks(check, checkmate));
}

fn push_square(out: &mut String, sq: Square)
    requires
        sq.valid(),
    ensures
        final(out)@ == old(out)@ + square_text(sq),
{
    out.append(file_str(sq.x));
    push_decimal(out, (sq.y + 1) as u64);
    assert(out@ =~= old(out)@ + square_text(sq));
}

fn push_head(out: &mut String, m: &SimpleAlgebraicMove)
    ensures
        final(out)@ == old(out)@ + head_text(*m),
{
    match m.piece {
        Piece::Pawn => {},
        piece => {
            out.append(letter_str(piece));
        },
    }
    match m.disambiguate.0 {
        Some(f) => {
            push_decimal(out, f as u64);
        },
        None => {},
    }
    match m.disambiguate.1 {
        Some(r) => {
            push_decimal(out, r as u64);
        },
        None => {},
    }
    if m.captures {
        proof {
            reveal_strlit("x");
        }
        out.append("x");
    }
    assert(out@ =~= old(out)@ + head_text(*m));
}

fn push_tail(out: &mut String, m: &SimpleAlgebraicMove)
    ensures
        final(out)@ == old(out)@ + tail_text(*m),
{
    proof {
        reveal_strlit("=");
        reveal_strlit("*");
        reveal_strlit("+");
    }
    match m.promotion {
        Some(promote_to) => {
            out.append("=");
            out.append(letter_str(promote_to));
        },
        None => {},
    }
    if m.checkmate {
        out.append("*");
    } else if m.check {
        out.append("+");
    }
    assert(out@ =~= old(out)@ + tail_text(*m));
}

impl Token {
    /// What the character `chr` stands for in a written move, if anything.
    pub fn parse(chr: char) -> (r: Option<Token>)
        ensures
            r == token_of(chr),
    {
        match Piece::from_algebraic(chr) {
            Some(piece) => {
                return Some(Token::Piece(piece));
            },
            None => {
                assert(Piece::Pawn.letter() != chr);
                assert(Piece::Knight.letter() != chr);
                assert(Piece::Bishop.letter() != chr);
                assert(Piece::Rook.letter() != chr);
                assert(Piece::Queen.letter() != chr);
                assert(Piece::King.letter() != chr);
            },
        }
        if chr == 'x' {
            Some(Token::Captures)
        } else if chr == '+' {
            Some(Token::Check)
        } else if chr == '#' {
            Some(Token::Checkmate)
        } else if 'a' <= chr && chr <= 'h' {
            Some(Token::File((chr as u32 - 97) as i32))
        } else if '1' <= chr && chr <= '8' {
            Some(Token::Rank((chr as u32 - 49) as i32))
        } else if chr == '=' {
            Some(Token::Equals)
        } else if chr == '-' {
            Some(Token::Dash)
        } else if chr == 'O' || chr == '0' {
            Some(Token::Oh)
        } else {
            None
        }
    }
}

/// What the character in place `i` from the end of `s` stands for.
fn peek_at(s: &Vec<char>, i: usize) -> (r: Option<Token>)
    ensures
        r == peek(s@, i as int),
{
    if i < s.len() {
        Token::parse(s[s.len() - 1 - i])
    } else {
        None
    }
}

fn is_token(found: Option<Token>, wanted: Token) -> (r: bool)
    ensures
        r == (found == Some(wanted)),
{
    match found {
        Some(t) => t == wanted,
        None => false,
    }
}

/// Reads `s` from its end as a castling move.
fn try_castling(s: &Vec<char>) -> (r: (Option<AlgebraicMove>, usize))
    ensures
        r.1 <= 6,
        r.0 == read_castling(s@).0,
        r.1 == read_castling(s@).1,
{
    let first = peek_at(s, 0);
    let check = is_token(first, Token::Check);
    let checkmate = is_token(first, Token::Checkmate);
    let i: usize = if check || checkmate {
        1
    } else {
        0
    };
    if !is_token(peek_at(s, i), Token::Oh) {
        (None, i)
    } else if i + 1 >= s.len() {
        (None, i + 1)
    } else if !is_token(peek_at(s, i + 1), Token::Dash) {
        (None, i + 2)
    } else if i + 2 >= s.len() {
        (None, i + 2)
    } else if !is_token(peek_at(s, i + 2), Token::Oh) {
        (None, i + 3)
    } else if i + 3 >= s.len() {
        (Some(AlgebraicMove::CastleShort { check, checkmate }), i + 3)
    } else if !is_token(peek_at(s, i + 3), Token::Dash) {
        (None, i + 4)
    } else if i + 4 >= s.len() {
        (None, i + 4)
    } else if is_token(peek_at(s, i + 4), Token::Oh) {
        (Some(AlgebraicMove::CastleLong { check, checkmate }), i + 5)
    } else {
        (None, i + 5)
    }
}

fn try_piece(s: &Vec<char>, i: usize) -> (r: Option<Piece>)
    ensures
        r.is_some() == (peek(s@, i as int) matches Some(Token::Piece(_))),
        r matches Some(p) ==> peek(s@, i as int) == Some(Token::Piece(p)),
{
    match peek_at(s, i) {
        Some(Token::Piece(p)) => Some(p),
        _ => None,
    }
}

fn try_rank(s: &Vec<char>, i: usize) -> (r: Option<i32>)
    ensures
        r.is_some() == (peek(s@, i as int) matches Some(Token::Rank(_))),
        r matches Some(y) ==> peek(s@, i as int) == Some(Token::Rank(y)) && 0 <= y < 8,
{
    match peek_at(s, i) {
        Some(Token::Rank(y)) => Some(y),
        _ => None,
    }
}

fn try_file(s: &Vec<char>, i: usize) -> (r: Option<i32>)
    ensures
        r.is_some() == (peek(s@, i as int) matches Some(Token::File(_))),
        r matches Some(x) ==> peek(s@, i as int) == Some(Token::File(x)) && 0 <= x < 8,
{
    match peek_at(s, i) {
        Some(Token::File(x)) => Some(x),
        _ => None,
    }
}

/// Reads `s` from place `start` from its end as a move that is no castling.
fn try_simple(s: &Vec<char>, start: usize) -> (r: Option<AlgebraicMove>)
    requires
        start <= 6,
    ensures
        r == read_simple(s@, start as int),
        r matches Some(mv) ==> mv.valid(),
{
    let mark = peek_at(s, start);
    let check = is_token(mark, Token::Check);
    let checkmate = is_token(mark, Token::Checkmate);
    let i1: usize = if check || checkmate {
        start + 1
    } else {
        start
    };
    let promotion = try_piece(s, i1);
    let equals = is_token(peek_at(s, i1 + 1), Token::Equals);
    let i2: usize = if promotion.is_some() {
        i1 + 2
    } else {
        i1
    };
    let rank = try_rank(s, i2);
    let i3: usize = if rank.is_some() {
        i2 + 1
    } else {
        i2
    };
    let file = try_file(s, i3);
    let i4: usize = if file.is_some() {
        i3 + 1
    } else {
        i3
    };
    let captures = is_token(peek_at(s, i4), Token::Captures);
    let i5: usize = if captures {
        i4 + 1
    } else {
        i4
    };
    let from_rank = try_rank(s, i5);
    let i6: usize = if from_rank.is_some() {
        i5 + 1
    } else {
        i5
    };
    let from_file = try_file(s, i6);
    let i7: usize = if from_file.is_some() {
        i6 + 1
    } else {
        i6
    };
    let named = try_piece(s, i7);
    let i8: usize = if named.is_some() {
        i7 + 1
    } else {
        i7
    };
    if promotion.is_some() && !equals {
        return None;
    }
    if named.is_some() && promotion.is_some() {
        return None;
    }
    if i8 < s.len() {
        return None;
    }
    match (rank, file) {
        (Some(y), Some(x)) => Some(
            AlgebraicMove::Simple(
                SimpleAlgebraicMove {
                    piece: match named {
                        Some(p) => p,
                        None => Piece::Pawn,
                    },
                    disambiguate: (
                        match from_file {
                            Some(f) => Some(f as u8),
                            None => None,
                        },
                        match from_rank {
                            Some(r) => Some(r as u8),
                            None => None,
                        },
                    ),
                    dst_square: Square::xy(x, y),
                    captures,
                    check,
                    checkmate,
                    promotion,
                },
            ),
        ),
        _ => None,
    }
}

impl AlgebraicMove {
    /// The move that `s` writes, if it writes one.
    pub fn parse(s: &str) -> (r: Option<AlgebraicMove>)
        ensures
            r == read_move(s@),
            r matches Some(mv) ==> mv.valid(),
    {
        let chars = chars_of(s);
        let (castle, start) = try_castling(&chars);
        match castle {
            Some(mv) => Some(mv),
            None => try_simple(&chars, start),
        }
    }

    /// The move as written.
    pub fn to_string(&self) -> (r: String)
        requires
            self.valid(),
        ensures
            r@ == move_text(*self),
    {
        let mut out = String::new();
        match self {
            AlgebraicMove::CastleLong { check, checkmate } => {
                proof {
                    reveal_strlit("O-O-O");
                }
                out.append("O-O-O");
                push_castle_marks(&mut out, *check, *checkmate);
                assert(out@ =~= move_text(*self));
            },
            AlgebraicMove::CastleShort { check, checkmate } => {
                proof {
                    reveal_strlit("O-O");
                }
                out.append("O-O");
                push_castle_marks(&mut out, *check, *checkmate);
                assert(out@ =~= move_text(*self));
            },
            AlgebraicMove::Simple(m) => {
                push_head(&mut out, m);
                push_square(&mut out, m.dst_square);
                push_tail(&mut out, m);
                assert(out@ =~= move_text(*self));
            },
        }
        out
    }
}

impl Square {
    /// The square as written: the letter of its file and the number of
    /// its rank.
    pub fn to_string(&self) -> (r: String)
        requires
            self.valid(),
        ensures
            r@ == square_text(*self),
    {
        let mut out = String::new();
        push_square(&mut out, *self);
        out
    }
}


/// The move can be written so that it reads back as itself: it carries
/// no mark of check or checkmate but, for castling, one of the two; it
/// names no file or rank of origin; its destination lies on the board;
/// and only a pawn changes its kind.
pub open spec fn plain(mv: AlgebraicMove) -> bool {
    match mv {
        AlgebraicMove::CastleLong { check, checkmate } => !(check && checkmate),
        AlgebraicMove::CastleShort { check, checkmate } => !(check && checkmate),
        AlgebraicMove::Simple(m) => {
            &&& !m.check
            &&& !m.checkmate
            &&& m.disambiguate == (None::<u8>, None::<u8>)
            &&& m.dst_square.valid()
            &&& (m.promotion is Some ==> m.piece == Piece::Pawn)
        },
    }
}

proof fn lemma_letter_token(p: Piece)
    ensures
        token_of(p.letter()) == Some(Token::Piece(p)),
{
}

proof fn lemma_square_tokens(sq: Square)
    requires
        sq.valid(),
    ensures
        square_text(sq) == seq![file_letter(sq.x as int), digit_char(sq.y + 1)],
        token_of(file_letter(sq.x as int)) == Some(Token::File(sq.x as i32)),
        token_of(digit_char(sq.y + 1)) == Some(Token::Rank(sq.y as i32)),
{
    assert(decimal((sq.y + 1) as nat) == seq![digit_char(sq.y + 1)]);
    assert(square_text(sq) =~= seq![file_letter(sq.x as int), digit_char(sq.y + 1)]);
}

/// Castling on the king's side with at most one mark reads back from
/// its text.
proof fn lemma_short_castling_reads_back(check: bool, checkmate: bool)
    requires
        !(check && checkmate),
    ensures
        read_move(move_text(AlgebraicMove::CastleShort { check, checkmate })) == Some(
            AlgebraicMove::CastleShort { check, checkmate },
        ),
{
    let s = move_text(AlgebraicMove::CastleShort { check, checkmate });
    if check || checkmate {
        let mark = if check {
            '+'
        } else {
            '#'
        };
        assert(s =~= seq!['O', '-', 'O', mark]);
        assert(peek(s, 0) == token_of(mark));
        assert(peek(s, 1) == Some(Token::Oh));
        assert(peek(s, 2) == Some(Token::Dash));
        assert(peek(s, 3) == Some(Token::Oh));
        assert(after_mark(s, 0) == 1);
    } else {
        assert(s =~= seq!['O', '-', 'O']);
        assert(peek(s, 0) == Some(Token::Oh));
        assert(peek(s, 1) == Some(Token::Dash));
        assert(peek(s, 2) == Some(Token::Oh));
        assert(after_mark(s, 0) == 0);
    }
}

/// Castling on the queen's side with at most one mark reads back from
/// its text.
proof fn lemma_long_castling_reads_back(check: bool, checkmate: bool)
    requires
        !(check && checkmate),
    ensures
        read_move(move_text(AlgebraicMove::CastleLong { check, checkmate })) == Some(
            AlgebraicMove::CastleLong { check, checkmate },
        ),
{
    let s = move_text(AlgebraicMove::CastleLong { check, checkmate });
    if check || checkmate {
        let mark = if check {
            '+'
        } else {
            '#'
        };
        assert(s =~= seq!['O', '-', 'O', '-', 'O', mark]);
        assert(peek(s, 0) == token_of(mark));
        assert(peek(s, 1) == Some(Token::Oh));
        assert(peek(s, 2) == Some(Token::Dash));
        assert(peek(s, 3) == Some(Token::Oh));
        assert(peek(s, 4) == Some(Token::Dash));
        assert(peek(s, 5) == Some(Token::Oh));
        assert(after_mark(s, 0) == 1);
    } else {
        assert(s =~= seq!['O', '-', 'O', '-', 'O']);
        assert(peek(s, 0) == Some(Token::Oh));
        assert(peek(s, 1) == Some(Token::Dash));
        assert(peek(s, 2) == Some(Token::Oh));
        assert(peek(s, 3) == Some(Token::Dash));
        assert(peek(s, 4) == Some(Token::Oh));
        assert(after_mark(s, 0) == 0);
    }
}

/// The text of a plain move that is no castling, character by character.
proof fn lemma_plain_text(m: SimpleAlgebraicMove)
    requires
        plain(AlgebraicMove::Simple(m)),
    ensures
        move_text(AlgebraicMove::Simple(m)) == (if m.piece == Piece::Pawn {
            Seq::<char>::empty()
        } else {
            seq![m.piece.letter()]
        }) + (if m.captures {
            seq!['x']
        } else {
            Seq::<char>::empty()
        }) + seq![file_letter(m.dst_square.x as int), digit_char(m.dst_square.y + 1)]
            + (match m.promotion {
            Some(q) => seq!['=', q.letter()],
            None => Seq::<char>::empty(),
        }),
{
    lemma_square_tokens(m.dst_square);
    let head: Seq<char> = (if m.piece == Piece::Pawn {
        Seq::<char>::empty()
    } else {
        seq![m.piece.letter()]
    }) + (if m.captures {
        seq!['x']
    } else {
        Seq::<char>::empty()
    });
    assert(head_text(m) =~= head);
    let tail: Seq<char> = match m.promotion {
        Some(q) => seq!['=', q.letter()],
        None => Seq::<char>::empty(),
    };
    assert(tail_text(m) =~= tail);
}

/// A pawn's move with a promotion reads back from its text.
proof fn lemma_promotion_reads_back(m: SimpleAlgebraicMove)
    requires
        plain(AlgebraicMove::Simple(m)),
        m.promotion is Some,
    ensures
        read_move(move_text(AlgebraicMove::Simple(m))) == Some(AlgebraicMove::Simple(m)),
{
    let s = move_text(AlgebraicMove::Simple(m));
    lemma_plain_text(m);
    lemma_square_tokens(m.dst_square);
    let q = m.promotion.unwrap();
    lemma_letter_token(q);
    let f = file_letter(m.dst_square.x as int);
    let r = digit_char(m.dst_square.y + 1);
    if m.captures {
        assert(s =~= seq!['x', f, r, '=', q.letter()]);
        assert(peek(s, 0) == Some(Token::Piece(q)));
        assert(peek(s, 1) == Some(Token::Equals));
        assert(peek(s, 2) == Some(Token::Rank(m.dst_square.y as i32)));
        assert(peek(s, 3) == Some(Token::File(m.dst_square.x as i32)));
        assert(peek(s, 4) == Some(Token::Captures));
        assert(peek(s, 5) is None);
    } else {
        assert(s =~= seq![f, r, '=', q.letter()]);
        assert(peek(s, 0) == Some(Token::Piece(q)));
        assert(peek(s, 1) == Some(Token::Equals));
        assert(peek(s, 2) == Some(Token::Rank(m.dst_square.y as i32)));
        assert(peek(s, 3) == Some(Token::File(m.dst_square.x as i32)));
        assert(peek(s, 4) is None);
    }
    assert(read_castling(s) == (None::<AlgebraicMove>, 0int));
    assert(read_simple(s, 0) == Some(AlgebraicMove::Simple(m)));
}

/// A move without a promotion reads back from its text.
proof fn lemma_move_reads_back(m: SimpleAlgebraicMove)
    requires
        plain(AlgebraicMove::Simple(m)),
        m.promotion is None,
    ensures
        read_move(move_text(AlgebraicMove::Simple(m))) == Some(AlgebraicMove::Simple(m)),
{
    let s = move_text(AlgebraicMove::Simple(m));
    lemma_plain_text(m);
    lemma_square_tokens(m.dst_square);
    lemma_letter_token(m.piece);
    let f = file_letter(m.dst_square.x as int);
    let r = digit_char(m.dst_square.y + 1);
    let l = m.piece.letter();
    assert(peek(s, 0) == Some(Token::Rank(m.dst_square.y as i32))) by {
        assert(s[s.len() - 1] == r);
    }
    assert(peek(s, 1) == Some(Token::File(m.dst_square.x as i32))) by {
        assert(s[s.len() - 2] == f);
    }
    if m.piece == Piece::Pawn {
        if m.captures {
            assert(s =~= seq!['x', f, r]);
            assert(peek(s, 2) == Some(Token::Captures));
            assert(peek(s, 3) is None);
        } else {
            assert(s =~= seq![f, r]);
            assert(peek(s, 2) is None);
        }
    } else {
        if m.captures {
            assert(s =~= seq![l, 'x', f, r]);
            assert(peek(s, 2) == Some(Token::Captures));
            assert(peek(s, 3) == Some(Token::Piece(m.piece)));
            assert(peek(s, 4) is None);
        } else {
            assert(s =~= seq![l, f, r]);
            assert(peek(s, 2) == Some(Token::Piece(m.piece)));
            assert(peek(s, 3) is None);
        }
    }
    assert(read_castling(s) == (None::<AlgebraicMove>, 0int));
    assert(read_simple(s, 0) == Some(AlgebraicMove::Simple(m)));
}

/// A plain move reads back from its text as the same move.
pub proof fn lemma_written_move_reads_back(mv: AlgebraicMove)
    requires
        plain(mv),
    ensures
        read_move(move_text(mv)) == Some(mv),
{
    match mv {
        AlgebraicMove::Simple(m) => {
            if m.promotion is Some {
                lemma_promotion_reads_back(m);
            } else {
                lemma_move_reads_back(m);
            }
        },
        AlgebraicMove::CastleLong { check, checkmate } => {
            lemma_long_castling_reads_back(check, checkmate);
        },
        AlgebraicMove::CastleShort { check, checkmate } => {
            lemma_short_castling_reads_back(check, checkmate);
        },
    }
}

} // verus!
