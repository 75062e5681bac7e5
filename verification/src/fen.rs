//! Positions written in Forsyth-Edwards notation: six fields apart by
//! white space, for the pieces, the side to move, the rights to castle,
//! the en passant square, and the two move counters.

use crate::bitboard::Bitboard;
use crate::board::{empty_board, Board};
use crate::coords::{square_at, Square};
use crate::display::first_kind;
use crate::game::Game;
use crate::move_log::MoveLog;
use crate::moves::{file_letter, file_str, letter_str, AlgebraicMove};
use crate::piece::{Color, Piece};
use crate::text::{
    chars_of,
    decimal,
    digit_char,
    digit_str,
    lemma_decimal_reads_back,
    number,
    push_decimal,
    read_i64,
    read_u8,
};
use crate::utils::{group_bits, one_bit};
use vstd::prelude::*;
use vstd::string::StringExecFns;

verus! {

broadcast use group_bits;

/// `c` is white space.
pub open spec fn is_space(c: char) -> bool {
    let n = c as u32;
    (9 <= n <= 13) || n == 0x20 || n == 0x85 || n == 0xa0 || n == 0x1680 || (0x2000 <= n <= 0x200a)
        || n == 0x2028 || n == 0x2029 || n == 0x202f || n == 0x205f || n == 0x3000
}

/// The first place from `i` on that holds no white space; the length of
/// `s` where there is none.
pub open spec fn skip_spaces(s: Seq<char>, i: int) -> int
    decreases s.len() - i,
{
    if 0 <= i < s.len() && is_space(s[i]) {
        skip_spaces(s, i + 1)
    } else {
        i
    }
}

/// The first place from `i` on that holds white space; the length of `s`
/// where there is none.
pub open spec fn skip_word(s: Seq<char>, i: int) -> int
    decreases s.len() - i,
{
    if 0 <= i < s.len() && !is_space(s[i]) {
        skip_word(s, i + 1)
    } else {
        i
    }
}

/// The place at which field `k` of `s` begins; the length of `s` where
/// `s` has no such field.
pub open spec fn field_start(s: Seq<char>, k: nat) -> int
    decreases k,
{
    if k == 0 {
        skip_spaces(s, 0)
    } else {
        skip_spaces(s, skip_word(s, field_start(s, (k - 1) as nat)))
    }
}

/// Field `k` of `s`, where `s` has one.
pub open spec fn field(s: Seq<char>, k: nat) -> Option<Seq<char>> {
    let a = field_start(s, k);
    if 0 <= a < s.len() {
        Some(s.subrange(a, skip_word(s, a)))
    } else {
        None
    }
}

/// The kind of piece that a letter of either case stands for.
pub open spec fn piece_of_letter(c: char) -> Option<Piece> {
    if c == 'p' || c == 'P' {
        Some(Piece::Pawn)
    } else if c == 'n' || c == 'N' {
        Some(Piece::Knight)
    } else if c == 'b' || c == 'B' {
        Some(Piece::Bishop)
    } else if c == 'r' || c == 'R' {
        Some(Piece::Rook)
    } else if c == 'q' || c == 'Q' {
        Some(Piece::Queen)
    } else if c == 'k' || c == 'K' {
        Some(Piece::King)
    } else {
        None
    }
}

/// The side that a letter stands for: Black for a small one, White for a
/// capital.
pub open spec fn color_of_letter(c: char) -> Option<Color> {
    if 'a' <= c <= 'z' {
        Some(Color::Black)
    } else if 'A' <= c <= 'Z' {
        Some(Color::White)
    } else {
        None
    }
}

/// The position with one more piece of side `c` and kind `p` on square `i`.
pub open spec fn with_piece(b: Board, c: Color, p: Piece, i: int) -> Board {
    let sq = one_bit(i);
    Board {
        white: if c == Color::White {
            Bitboard(b.white.0 | sq)
        } else {
            b.white
        },
        black: if c == Color::Black {
            Bitboard(b.black.0 | sq)
        } else {
            b.black
        },
        pawns: if p == Piece::Pawn {
            Bitboard(b.pawns.0 | sq)
        } else {
            b.pawns
        },
        knights: if p == Piece::Knight {
            Bitboard(b.knights.0 | sq)
        } else {
            b.knights
        },
        bishops: if p == Piece::Bishop {
            Bitboard(b.bishops.0 | sq)
        } else {
            b.bishops
        },
        rooks: if p == Piece::Rook {
            Bitboard(b.rooks.0 | sq)
        } else {
            b.rooks
        },
        queens: if p == Piece::Queen {
            Bitboard(b.queens.0 | sq)
        } else {
            b.queens
        },
        kings: if p == Piece::King {
            Bitboard(b.kings.0 | sq)
        } else {
            b.kings
        },
        ..b
    }
}

/// What the field of the pieces gives from place `k` on, when `b` holds
/// the pieces read so far and the next character speaks of the square in
/// column `col` of row `row`. Rows are counted from Black's back rank
/// down and have nine columns, the ninth for the `/` that ends the row;
/// row 8 stands for every row below the board. A digit from 1 to 8 moves
/// on by so many columns, a letter puts a piece on the square, and
/// anything else, or a piece off the board, gives `None`.
pub open spec fn read_board_from(s: Seq<char>, k: int, b: Board, col: int, row: int) -> Option<
    Board,
>
    decreases s.len() - k,
{
    if k < 0 || k >= s.len() {
        Some(b)
    } else {
        let c = s[k];
        if col == 8 {
            if c == '/' {
                read_board_from(s, k + 1, b, 0, if row < 8 {
                    row + 1
                } else {
                    8
                })
            } else {
                None
            }
        } else if '0' <= c <= '9' {
            let d = c as int - 48;
            if 1 <= d <= 8 {
                read_board_from(s, k + 1, b, (col + d) % 9, if row + (col + d) / 9 < 8 {
                    row + (col + d) / 9
                } else {
                    8
                })
            } else {
                None
            }
        } else if piece_of_letter(c) is Some && row < 8 {
            read_board_from(
                s,
                k + 1,
                with_piece(
                    b,
                    color_of_letter(c).unwrap(),
                    piece_of_letter(c).unwrap(),
                    square_at(col, 7 - row),
                ),
                col + 1,
                row,
            )
        } else {
            None
        }
    }
}

/// The position that the field of the pieces gives.
pub open spec fn read_board(s: Seq<char>) -> Option<Board> {
    read_board_from(s, 0, empty_board(), 0, 0)
}

/// The flag that a letter of the field of the rights to castle stands for.
pub open spec fn right_of_letter(c: char) -> Option<u8> {
    if c == 'K' {
        Some(8u8)
    } else if c == 'Q' {
        Some(4u8)
    } else if c == 'k' {
        Some(2u8)
    } else if c == 'q' {
        Some(1u8)
    } else {
        None
    }
}

/// What the field of the rights to castle gives from place `k` on, when
/// `have` holds the flags read so far: `-` ends the reading with no right
/// at all, a letter adds its flag, and a letter read twice or anything
/// else gives `None`.
pub open spec fn read_rights_from(s: Seq<char>, k: int, have: u8) -> Option<u8>
    decreases s.len() - k,
{
    if k < 0 || k >= s.len() {
        Some(have)
    } else if s[k] == '-' {
        Some(0u8)
    } else {
        match right_of_letter(s[k]) {
            Some(flag) => if flag & have != 0 {
                None
            } else {
                read_rights_from(s, k + 1, flag | have)
            },
            None => None,
        }
    }
}

/// What the field of the en passant square gives: 0 for `-`; else one
/// more than the file named by the first character, where that is a
/// letter from `a` to `h` and the second is a digit from 0 to 7.
pub open spec fn read_ep(s: Seq<char>) -> Option<u8> {
    if s =~= seq!['-'] {
        Some(0u8)
    } else if s.len() >= 2 && 'a' <= s[0] <= 'h' && '0' <= s[1] <= '7' {
        Some((s[0] as int - 97 + 1) as u8)
    } else {
        None
    }
}

/// The side that the field of the side to move names.
pub open spec fn read_player(s: Seq<char>) -> Option<Color> {
    if s =~= seq!['w'] {
        Some(Color::White)
    } else if s =~= seq!['b'] {
        Some(Color::Black)
    } else {
        None
    }
}

/// The number of the half-move that comes next, from the number of the
/// move and the side to move.
pub open spec fn ply_of(full_move: int, player: Color) -> int {
    full_move * 2 + if player == Color::Black {
        1int
    } else {
        0int
    }
}

/// The position and the number of the next half-move that `s` writes:
/// `None` where a field is missing or does not read, and where a number
/// is too large to hold.
pub open spec fn read_fen(s: Seq<char>) -> Option<(Board, i64)> {
    if field(s, 5) is None {
        None
    } else {
        let board = read_board(field(s, 0).unwrap());
        let player = read_player(field(s, 1).unwrap());
        let rights = read_rights_from(field(s, 2).unwrap(), 0, 0);
        let ep = read_ep(field(s, 3).unwrap());
        let half = number(field(s, 4).unwrap(), false);
        let full = number(field(s, 5).unwrap(), true);
        if board is None || player is None || rights is None || ep is None || half is None
            || full is None {
            None
        } else if half.unwrap() > 255 || ply_of(full.unwrap(), player.unwrap()) > i64::MAX
            || ply_of(full.unwrap(), player.unwrap()) < i64::MIN {
            None
        } else {
            Some(
                (
                    Board {
                        player: player.unwrap(),
                        castling_rights: rights.unwrap(),
                        en_passant: ep.unwrap(),
                        half_moves: half.unwrap() as u8,
                        ..board.unwrap()
                    },
                    ply_of(full.unwrap(), player.unwrap()) as i64,
                ),
            )
        }
    }
}

fn is_space_char(c: char) -> (r: bool)
    ensures
        r == is_space(c),
{
    let n = c as u32;
    (9 <= n && n <= 13) || n == 0x20 || n == 0x85 || n == 0xa0 || n == 0x1680 || (0x2000 <= n && n
        <= 0x200a) || n == 0x2028 || n == 0x2029 || n == 0x202f || n == 0x205f || n == 0x3000
}

/// Where the next field of `s` from place `from` on begins and ends.
fn next_field(s: &Vec<char>, from: usize) -> (r: (usize, usize))
    requires
        from <= s.len(),
    ensures
        r.0 == skip_spaces(s@, from as int),
        r.1 == skip_word(s@, r.0 as int),
        from <= r.0 <= r.1 <= s.len(),
{
    let mut a = from;
    while a < s.len() && is_space_char(s[a])
        invariant
            from <= a <= s.len(),
            skip_spaces(s@, from as int) == skip_spaces(s@, a as int),
        decreases s.len() - a,
    {
        a += 1;
    }
    let mut b = a;
    while b < s.len() && !is_space_char(s[b])
        invariant
            a <= b <= s.len(),
            skip_word(s@, a as int) == skip_word(s@, b as int),
        decreases s.len() - b,
    {
        b += 1;
    }
    (a, b)
}

/// The characters of `s` from place `a` up to place `b`.
fn part(s: &Vec<char>, a: usize, b: usize) -> (r: Vec<char>)
    requires
        a <= b <= s.len(),
    ensures
        r@ == s@.subrange(a as int, b as int),
{
    let mut out: Vec<char> = Vec::new();
    let mut i = a;
    while i < b
        invariant
            a <= i <= b <= s.len(),
            out@ == s@.subrange(a as int, i as int),
        decreases b - i,
    {
        out.push(s[i]);
        assert(out@ =~= s@.subrange(a as int, i + 1));
        i += 1;
    }
    out
}

fn char_piece(c: char) -> (r: Option<Piece>)
    ensures
        r == piece_of_letter(c),
{
    if c == 'p' || c == 'P' {
        Some(Piece::Pawn)
    } else if c == 'n' || c == 'N' {
        Some(Piece::Knight)
    } else if c == 'b' || c == 'B' {
        Some(Piece::Bishop)
    } else if c == 'r' || c == 'R' {
        Some(Piece::Rook)
    } else if c == 'q' || c == 'Q' {
        Some(Piece::Queen)
    } else if c == 'k' || c == 'K' {
        Some(Piece::King)
    } else {
        None
    }
}

fn char_color(c: char) -> (r: Option<Color>)
    ensures
        r == color_of_letter(c),
{
    if 'a' <= c && c <= 'z' {
        Some(Color::Black)
    } else if 'A' <= c && c <= 'Z' {
        Some(Color::White)
    } else {
        None
    }
}

fn put_piece(b: &Board, c: Color, p: Piece, sq: Square) -> (r: Board)
    requires
        sq.valid(),
    ensures
        r == with_piece(*b, c, p, sq.spec_index()),
{
    let bb = Bitboard::at(sq);
    let mut board = *b;
    match c {
        Color::White => {
            board.white = board.white | bb;
        },
        Color::Black => {
            board.black = board.black | bb;
        },
    }
    match p {
        Piece::Pawn => {
            board.pawns = board.pawns | bb;
        },
        Piece::Knight => {
            board.knights = board.knights | bb;
        },
        Piece::Bishop => {
            board.bishops = board.bishops | bb;
        },
        Piece::Rook => {
            board.rooks = board.rooks | bb;
        },
        Piece::Queen => {
            board.queens = board.queens | bb;
        },
        Piece::King => {
            board.kings = board.kings | bb;
        },
    }
    board
}

fn read_fen_board(s: &Vec<char>) -> (r: Option<Board>)
    ensures
        r == read_board(s@),
{
    let mut board = Board::empty();
    assert(board == empty_board());
    let mut col: u8 = 0;
    let mut row: u8 = 0;
    let mut k: usize = 0;
    while k < s.len()
        invariant
            k <= s.len(),
            col <= 8,
            row <= 8,
            read_board(s@) == read_board_from(s@, k as int, board, col as int, row as int),
        decreases s.len() - k,
    {
        let chr = s[k];
        if col == 8 {
            if chr != '/' {
                return None;
            }
            col = 0;
            if row < 8 {
                row = row + 1;
            }
        } else if '0' <= chr && chr <= '9' {
            let skip: u8 = (chr as u32 - 48) as u8;
            if skip == 0 || skip > 8 {
                return None;
            }
            let moved: u8 = col + skip;
            col = moved % 9;
            row = if row + moved / 9 < 8 {
                row + moved / 9
            } else {
                8
            };
        } else {
            let piece = match char_piece(chr) {
                Some(p) => p,
                None => {
                    return None;
                },
            };
            let color = match char_color(chr) {
                Some(c) => c,
                None => {
                    return None;
                },
            };
            if row >= 8 {
                return None;
            }
            board = put_piece(&board, color, piece, Square::xy(col as i32, 7 - row as i32));
            col = col + 1;
        }
        k += 1;
    }
    Some(board)
}

fn read_castling_rights(s: &Vec<char>) -> (r: Option<u8>)
    ensures
        r == read_rights_from(s@, 0, 0),
{
    let mut rights: u8 = 0;
    let mut k: usize = 0;
    while k < s.len()
        invariant
            k <= s.len(),
            read_rights_from(s@, 0, 0) == read_rights_from(s@, k as int, rights),
        decreases s.len() - k,
    {
        let chr = s[k];
        let mask: u8 = if chr == 'K' {
            8
        } else if chr == 'Q' {
            4
        } else if chr == 'k' {
            2
        } else if chr == 'q' {
            1
        } else if chr == '-' {
            return Some(0);
        } else {
            return None;
        };
        if mask & rights != 0 {
            return None;
        }
        rights = mask | rights;
        k += 1;
    }
    Some(rights)
}

fn read_en_passant(s: &Vec<char>) -> (r: Option<u8>)
    ensures
        r == read_ep(s@),
{
    if s.len() == 1 && s[0] == '-' {
        assert(s@ =~= seq!['-']);
        return Some(0);
    }
    if s.len() < 2 {
        return None;
    }
    let file = s[0];
    let rank = s[1];
    if rank < '0' || rank > '9' {
        return None;
    }
    match Square::algebraic(file, (rank as u32 - 48) as u8) {
        Some(sq) => Some(sq.x + 1),
        None => None,
    }
}

fn read_side(s: &Vec<char>) -> (r: Option<Color>)
    ensures
        r == read_player(s@),
{
    if s.len() == 1 && s[0] == 'w' {
        assert(s@ =~= seq!['w']);
        Some(Color::White)
    } else if s.len() == 1 && s[0] == 'b' {
        assert(s@ =~= seq!['b']);
        Some(Color::Black)
    } else {
        None
    }
}

/// The game that `s` writes in Forsyth-Edwards notation: its position,
/// the number of its next half-move, and no move made yet.
pub fn parse(s: &str) -> (r: Option<Game>)
    ensures
        r.is_some() == read_fen(s@).is_some(),
        r matches Some(g) ==> g.board == read_fen(s@).unwrap().0 && g.log.ply == read_fen(
            s@,
        ).unwrap().1 && g.log.moves@ == Seq::<AlgebraicMove>::empty(),
{
    let chars = chars_of(s);
    let (a0, b0) = next_field(&chars, 0);
    let (a1, b1) = next_field(&chars, b0);
    let (a2, b2) = next_field(&chars, b1);
    let (a3, b3) = next_field(&chars, b2);
    let (a4, b4) = next_field(&chars, b3);
    let (a5, b5) = next_field(&chars, b4);
    proof {
        reveal_with_fuel(field_start, 6);
        assert(a0 == field_start(chars@, 0));
        assert(a1 == field_start(chars@, 1));
        assert(a2 == field_start(chars@, 2));
        assert(a3 == field_start(chars@, 3));
        assert(a4 == field_start(chars@, 4));
        assert(a5 == field_start(chars@, 5));
    }
    if a5 >= chars.len() {
        return None;
    }
    let board = read_fen_board(&part(&chars, a0, b0));
    let player = read_side(&part(&chars, a1, b1));
    let rights = read_castling_rights(&part(&chars, a2, b2));
    let ep = read_en_passant(&part(&chars, a3, b3));
    let half = read_u8(&part(&chars, a4, b4));
    let full = read_i64(&part(&chars, a5, b5));
    match (board, player, rights, ep, half, full) {
        (Some(mut board), Some(player), Some(rights), Some(ep), Some(half), Some(fm)) => {
            let extra: i64 = match player {
                Color::Black => 1,
                Color::White => 0,
            };
            if fm > (i64::MAX - 1) / 2 || fm < i64::MIN / 2 {
                return None;
            }
            board.player = player;
            board.castling_rights = rights;
            board.en_passant = ep;
            board.half_moves = half;
            Some(Game { board, log: MoveLog { ply: fm * 2 + extra, moves: Vec::new() } })
        },
        _ => None,
    }
}

/// The letter for a piece: a capital for White, a small one for Black.
pub open spec fn piece_letter(c: Color, p: Piece) -> char {
    match c {
        Color::White => p.letter(),
        Color::Black => match p {
            Piece::Pawn => 'p',
            Piece::Knight => 'n',
            Piece::Bishop => 'b',
            Piece::Rook => 'r',
            Piece::Queen => 'q',
            Piece::King => 'k',
        },
    }
}

/// The digit for a run of `n` empty squares; nothing for none.
pub open spec fn run_text(n: int) -> Seq<char> {
    if n > 0 {
        seq![digit_char(n)]
    } else {
        Seq::empty()
    }
}

/// Rank `y` from file `x` on, after a run of `empties` empty squares: a
/// letter for each piece, White's before Black's where both sides claim a
/// square, and a digit for each run of empty squares.
pub open spec fn row_text(b: Board, y: int, x: int, empties: int) -> Seq<char>
    decreases 8 - x,
{
    if x >= 8 || x < 0 {
        run_text(empties)
    } else {
        let i = square_at(x, y);
        if b.white@.contains(i) || b.black@.contains(i) {
            run_text(empties) + seq![
                piece_letter(
                    if b.white@.contains(i) {
                        Color::White
                    } else {
                        Color::Black
                    },
                    first_kind(b, i).unwrap(),
                ),
            ] + row_text(b, y, x + 1, 0)
        } else {
            row_text(b, y, x + 1, empties + 1)
        }
    }
}

/// The ranks from rank `y` down to the first, with `/` between them.
pub open spec fn rows_text(b: Board, y: int) -> Seq<char>
    decreases y + 1,
{
    if y < 0 {
        Seq::empty()
    } else {
        row_text(b, y, 0, 0) + (if y > 0 {
            seq!['/']
        } else {
            Seq::empty()
        }) + rows_text(b, y - 1)
    }
}

/// The letters for the rights to castle that are left; nothing for none.
pub open spec fn rights_text(b: Board) -> Seq<char> {
    (if b.may_castle_short(Color::White) {
        seq!['K']
    } else {
        Seq::empty()
    }) + (if b.may_castle_long(Color::White) {
        seq!['Q']
    } else {
        Seq::empty()
    }) + (if b.may_castle_short(Color::Black) {
        seq!['k']
    } else {
        Seq::empty()
    }) + (if b.may_castle_long(Color::Black) {
        seq!['q']
    } else {
        Seq::empty()
    })
}

/// The en passant square: `-` for none, else the letter of the file and
/// the rank on which the side to move would land.
pub open spec fn ep_text(b: Board) -> Seq<char> {
    if b.en_passant == 0 {
        seq!['-']
    } else {
        seq![
            file_letter(b.en_passant - 1),
            if b.player == Color::White {
                '6'
            } else {
                '3'
            },
        ]
    }
}

/// The field of the side to move, as written.
pub open spec fn player_text(b: Board) -> Seq<char> {
    seq![
        if b.player == Color::White {
            'w'
        } else {
            'b'
        },
    ]
}

/// A position in Forsyth-Edwards notation. The number of the move is
/// always written as 0.
pub open spec fn fen_text(b: Board) -> Seq<char> {
    rows_text(b, 7) + seq![' '] + player_text(b) + seq![' '] + rights_text(b) + seq![' '] + ep_text(b) + seq![' '] + decimal(
        b.half_moves as nat,
    ) + seq![' ', '0']
}

fn write_piece(out: &mut String, color: Color, piece: Piece)
    ensures
        final(out)@ == old(out)@ + seq![piece_letter(color, piece)],
{
    proof {
        reveal_strlit("p");
        reveal_strlit("n");
        reveal_strlit("b");
        reveal_strlit("r");
        reveal_strlit("q");
        reveal_strlit("k");
    }
    let letter = match color {
        Color::White => letter_str(piece),
        Color::Black => match piece {
            Piece::Pawn => "p",
            Piece::Knight => "n",
            Piece::Bishop => "b",
            Piece::Rook => "r",
            Piece::Queen => "q",
            Piece::King => "k",
        },
    };
    assert(letter@ =~= seq![piece_letter(color, piece)]);
    out.append(letter);
}

fn write_run(out: &mut String, empties: u8)
    requires
        empties <= 8,
    ensures
        final(out)@ == old(out)@ + run_text(empties as int),
{
    if empties > 0 {
        out.append(digit_str(empties));
    }
    assert(out@ =~= old(out)@ + run_text(empties as int));
}

fn kind_first(b: &Board, sq: Square) -> (r: Option<Piece>)
    requires
        sq.valid(),
    ensures
        r == first_kind(*b, sq.spec_index()),
{
    let mask = Bitboard::at(sq);
    let ghost i = sq.spec_index();
    proof {
        assert forall|set: Bitboard| #[trigger]
            set@.intersect(mask@) != Set::<int>::empty() <==> set@.contains(i) by {
            if set@.contains(i) {
                assert(set@.intersect(mask@).contains(i));
            } else {
                assert(set@.intersect(mask@) =~= Set::<int>::empty());
            }
        }
    }
    if (b.pawns & mask).is_populated() {
        Some(Piece::Pawn)
    } else if (b.knights & mask).is_populated() {
        Some(Piece::Knight)
    } else if (b.bishops & mask).is_populated() {
        Some(Piece::Bishop)
    } else if (b.rooks & mask).is_populated() {
        Some(Piece::Rook)
    } else if (b.queens & mask).is_populated() {
        Some(Piece::Queen)
    } else if (b.kings & mask).is_populated() {
        Some(Piece::King)
    } else {
        None
    }
}

fn serialize_row(out: &mut String, b: &Board, y: u8)
    requires
        y < 8,
        b.wf(),
    ensures
        final(out)@ == old(out)@ + row_text(*b, y as int, 0, 0),
{
    let mut empty_spaces: u8 = 0;
    let mut x: u8 = 0;
    while x < 8
        invariant
            x <= 8,
            y < 8,
            empty_spaces <= x,
            b.wf(),
            out@ + row_text(*b, y as int, x as int, empty_spaces as int) == old(out)@ + row_text(
                *b,
                y as int,
                0,
                0,
            ),
        decreases 8 - x,
    {
        let sq = Square { x, y };
        let square = Bitboard::at(sq);
        let ghost i = sq.spec_index();
        let ghost before = out@;
        let ghost rest = row_text(*b, y as int, x as int, empty_spaces as int);
        let white = (square & b.white).is_populated();
        let black = (square & b.black).is_populated();
        proof {
            assert forall|set: Bitboard| #[trigger]
                square@.intersect(set@) != Set::<int>::empty() <==> set@.contains(i) by {
                if set@.contains(i) {
                    assert(square@.intersect(set@).contains(i));
                } else {
                    assert(square@.intersect(set@) =~= Set::<int>::empty());
                }
            }
            assert(white == b.white@.contains(i));
            assert(black == b.black@.contains(i));
        }
        if white || black {
            let color = if white {
                Color::White
            } else {
                Color::Black
            };
            match kind_first(b, sq) {
                Some(piece) => {
                    write_run(out, empty_spaces);
                    write_piece(out, color, piece);
                    empty_spaces = 0;
                    proof {
                        assert(out@ + row_text(*b, y as int, x + 1, 0) =~= before + rest);
                    }
                },
                None => {
                    proof {
                        assert(b.occupied().contains(i));
                        let p = choose|p: Piece| #[trigger] b.kind(p)@.contains(i);
                        assert(b.kind(p)@.contains(i));
                        assert(false);
                    }
                },
            }
        } else {
            empty_spaces = empty_spaces + 1;
        }
        x += 1;
    }
    write_run(out, empty_spaces);
    proof {
        assert(row_text(*b, y as int, 8, empty_spaces as int) == run_text(empty_spaces as int));
    }
}

fn serialize_board(out: &mut String, b: &Board)
    requires
        b.wf(),
    ensures
        final(out)@ == old(out)@ + rows_text(*b, 7),
{
    let mut n: u8 = 0;
    while n < 8
        invariant
            n <= 8,
            b.wf(),
            out@ + rows_text(*b, 7 - n) == old(out)@ + rows_text(*b, 7),
        decreases 8 - n,
    {
        let y: u8 = 7 - n;
        let ghost before = out@;
        serialize_row(out, b, y);
        if y > 0 {
            proof {
                reveal_strlit("/");
            }
            out.append("/");
        }
        proof {
            assert(out@ + rows_text(*b, y - 1) =~= before + rows_text(*b, y as int));
        }
        n += 1;
    }
    assert(out@ =~= old(out)@ + rows_text(*b, 7));
}

fn serialize_player(out: &mut String, c: Color)
    ensures
        final(out)@ == old(out)@ + seq![
            if c == Color::White {
                'w'
            } else {
                'b'
            },
        ],
{
    proof {
        reveal_strlit("w");
        reveal_strlit("b");
    }
    let letter = match c {
        Color::White => "w",
        Color::Black => "b",
    };
    assert(letter@ =~= seq![
        if c == Color::White {
            'w'
        } else {
            'b'
        },
    ]);
    out.append(letter);
}

fn serialize_castling_rights(out: &mut String, board: &Board)
    ensures
        final(out)@ == old(out)@ + rights_text(*board),
{
    if board.short_castling_allowed(Color::White) {
        write_piece(out, Color::White, Piece::King);
    }
    if board.long_castling_allowed(Color::White) {
        write_piece(out, Color::White, Piece::Queen);
    }
    if board.short_castling_allowed(Color::Black) {
        write_piece(out, Color::Black, Piece::King);
    }
    if board.long_castling_allowed(Color::Black) {
        write_piece(out, Color::Black, Piece::Queen);
    }
    assert(out@ =~= old(out)@ + rights_text(*board));
}

fn serialize_en_passant(out: &mut String, board: &Board)
    requires
        board.en_passant <= 8,
    ensures
        final(out)@ == old(out)@ + ep_text(*board),
{
    proof {
        reveal_strlit("-");
        reveal_strlit("6");
        reveal_strlit("3");
    }
    if board.en_passant == 0 {
        out.append("-");
    } else {
        out.append(file_str(board.en_passant - 1));
        out.append(
            match board.player {
                Color::White => "6",
                Color::Black => "3",
            },
        );
    }
    assert(out@ =~= old(out)@ + ep_text(*board));
}

/// A position, to be written in Forsyth-Edwards notation.
pub struct FEN<'a>(pub &'a Board);

impl<'a> FEN<'a> {
    /// The position in Forsyth-Edwards notation.
    pub fn to_string(&self) -> (r: String)
        requires
            self.0.wf(),
        ensures
            r@ == fen_text(*self.0),
    {
        proof {
            reveal_strlit(" ");
            reveal_strlit(" 0");
        }
        let mut out = String::new();
        serialize_board(&mut out, self.0);
        out.append(" ");
        serialize_player(&mut out, self.0.player);
        out.append(" ");
        serialize_castling_rights(&mut out, self.0);
        out.append(" ");
        serialize_en_passant(&mut out, self.0);
        out.append(" ");
        push_decimal(&mut out, self.0.half_moves as u64);
        out.append(" 0");
        assert(out@ =~= fen_text(*self.0));
        out
    }
}

impl Board {
    /// The position, to be written in Forsyth-Edwards notation.
    pub fn fen<'a>(&'a self) -> (r: FEN<'a>)
        ensures
            r.0 == self,
    {
        FEN(self)
    }
}


/// Square `i` is read before the square on file `x` and rank `y` when
/// the ranks are read from the eighth down and each from the a-file on.
pub open spec fn read_before(i: int, y: int, x: int) -> bool {
    0 <= i < 64 && (crate::coords::rank_of(i) > y || (crate::coords::rank_of(i) == y
        && crate::coords::file_of(i) < x))
}

/// The squares of `set` that are read before the square on file `x` and
/// rank `y`.
pub open spec fn read_part(set: Set<int>, y: int, x: int) -> Set<int> {
    Set::new(|i: int| set.contains(i) && read_before(i, y, x))
}

/// The pieces of `b` on the squares read before the square on file `x`
/// and rank `y`, on a board that holds nothing else.
pub open spec fn read_so_far(b: Board, y: int, x: int) -> Board {
    Board {
        white: Bitboard::of(read_part(b.white@, y, x)),
        black: Bitboard::of(read_part(b.black@, y, x)),
        pawns: Bitboard::of(read_part(b.pawns@, y, x)),
        knights: Bitboard::of(read_part(b.knights@, y, x)),
        bishops: Bitboard::of(read_part(b.bishops@, y, x)),
        rooks: Bitboard::of(read_part(b.rooks@, y, x)),
        queens: Bitboard::of(read_part(b.queens@, y, x)),
        kings: Bitboard::of(read_part(b.kings@, y, x)),
        player: Color::White,
        half_moves: 0,
        castling_rights: 0,
        en_passant: 0,
    }
}

/// The pieces of `b`, with the side to move and the rights as in the
/// position without any piece.
pub open spec fn pieces_only(b: Board) -> Board {
    Board { player: Color::White, half_moves: 0, castling_rights: 0, en_passant: 0, ..b }
}

/// The text after rank `y`: `/` and the ranks below it.
pub open spec fn rest_text(b: Board, y: int) -> Seq<char> {
    (if y > 0 {
        seq!['/']
    } else {
        Seq::empty()
    }) + rows_text(b, y - 1)
}

proof fn lemma_letters(c: Color, p: Piece)
    ensures
        piece_of_letter(piece_letter(c, p)) == Some(p),
        color_of_letter(piece_letter(c, p)) == Some(c),
        !('0' <= piece_letter(c, p) <= '9'),
        piece_letter(c, p) != '/',
{
}

proof fn lemma_filtered_view(set: Bitboard, y: int, x: int)
    ensures
        Bitboard::of(read_part(set@, y, x))@ == read_part(set@, y, x),
{
    crate::utils::lemma_bits_bounded(set.0);
    Bitboard::lemma_of_view(read_part(set@, y, x));
}

/// Putting the piece of the next square on the board read so far gives
/// the board read up to the square after it.
proof fn lemma_read_one_more(b: Board, y: int, x: int)
    requires
        b.wf(),
        0 <= y < 8,
        0 <= x < 8,
    ensures
        ({
            let i = square_at(x, y);
            let c = if b.white@.contains(i) {
                Color::White
            } else {
                Color::Black
            };
            &&& b.occupied().contains(i) ==> first_kind(b, i) is Some && with_piece(
                read_so_far(b, y, x),
                c,
                first_kind(b, i).unwrap(),
                i,
            ) == read_so_far(b, y, x + 1)
            &&& !b.occupied().contains(i) ==> read_so_far(b, y, x) == read_so_far(b, y, x + 1)
        }),
{
    crate::coords::lemma_square_numbering();
    let i = square_at(x, y);
    let old = read_so_far(b, y, x);
    let new = read_so_far(b, y, x + 1);
    crate::utils::lemma_bits_one(i);
    lemma_filtered_view(b.white, y, x);
    lemma_filtered_view(b.black, y, x);
    lemma_filtered_view(b.pawns, y, x);
    lemma_filtered_view(b.knights, y, x);
    lemma_filtered_view(b.bishops, y, x);
    lemma_filtered_view(b.rooks, y, x);
    lemma_filtered_view(b.queens, y, x);
    lemma_filtered_view(b.kings, y, x);
    assert forall|j: int| read_before(j, y, x + 1) <==> (read_before(j, y, x) || j == i) by {
        if 0 <= j < 64 {
            assert(j == square_at(crate::coords::file_of(j), crate::coords::rank_of(j)));
        }
    }
    assert forall|p: Piece| b.kind(p)@.contains(i) implies b.occupied().contains(i) by {}
    if b.occupied().contains(i) {
        let p = choose|p: Piece| #[trigger] b.kind(p)@.contains(i);
        assert(b.kind(p)@.contains(i));
        assert(first_kind(b, i) == Some(p)) by {
            assert(b.kind(Piece::Pawn)@.contains(i) ==> p == Piece::Pawn);
            assert(b.kind(Piece::Knight)@.contains(i) ==> p == Piece::Knight);
            assert(b.kind(Piece::Bishop)@.contains(i) ==> p == Piece::Bishop);
            assert(b.kind(Piece::Rook)@.contains(i) ==> p == Piece::Rook);
            assert(b.kind(Piece::Queen)@.contains(i) ==> p == Piece::Queen);
            assert(b.kind(Piece::King)@.contains(i) ==> p == Piece::King);
        }
        let c = if b.white@.contains(i) {
            Color::White
        } else {
            Color::Black
        };
        let put = with_piece(old, c, p, i);
        assert(b.kind(Piece::Pawn)@.contains(i) ==> p == Piece::Pawn);
        assert(b.kind(Piece::Knight)@.contains(i) ==> p == Piece::Knight);
        assert(b.kind(Piece::Bishop)@.contains(i) ==> p == Piece::Bishop);
        assert(b.kind(Piece::Rook)@.contains(i) ==> p == Piece::Rook);
        assert(b.kind(Piece::Queen)@.contains(i) ==> p == Piece::Queen);
        assert(b.kind(Piece::King)@.contains(i) ==> p == Piece::King);
        assert(b.white@.contains(i) != b.black@.contains(i));
        lemma_same_set(put.white, b.white, y, x + 1);
        lemma_same_set(put.black, b.black, y, x + 1);
        lemma_same_set(put.pawns, b.pawns, y, x + 1);
        lemma_same_set(put.knights, b.knights, y, x + 1);
        lemma_same_set(put.bishops, b.bishops, y, x + 1);
        lemma_same_set(put.rooks, b.rooks, y, x + 1);
        lemma_same_set(put.queens, b.queens, y, x + 1);
        lemma_same_set(put.kings, b.kings, y, x + 1);
    } else {
        assert(!b.kind(Piece::Pawn)@.contains(i));
        assert(!b.kind(Piece::Knight)@.contains(i));
        assert(!b.kind(Piece::Bishop)@.contains(i));
        assert(!b.kind(Piece::Rook)@.contains(i));
        assert(!b.kind(Piece::Queen)@.contains(i));
        assert(!b.kind(Piece::King)@.contains(i));
        lemma_same_set(old.white, b.white, y, x + 1);
        lemma_same_set(old.black, b.black, y, x + 1);
        lemma_same_set(old.pawns, b.pawns, y, x + 1);
        lemma_same_set(old.knights, b.knights, y, x + 1);
        lemma_same_set(old.bishops, b.bishops, y, x + 1);
        lemma_same_set(old.rooks, b.rooks, y, x + 1);
        lemma_same_set(old.queens, b.queens, y, x + 1);
        lemma_same_set(old.kings, b.kings, y, x + 1);
    }
}

/// A set that holds the squares of `set` read so far is the set read so far.
proof fn lemma_same_set(have: Bitboard, set: Bitboard, y: int, x: int)
    requires
        have@ =~= read_part(set@, y, x),
    ensures
        have == Bitboard::of(read_part(set@, y, x)),
{
    have.lemma_of();
}


/// Once all eight ranks are read, the board read so far holds the pieces
/// of the position.
proof fn lemma_read_all(b: Board)
    ensures
        read_so_far(b, 0, 8) == pieces_only(b),
{
    crate::coords::lemma_square_numbering();
    lemma_whole_set(b.white);
    lemma_whole_set(b.black);
    lemma_whole_set(b.pawns);
    lemma_whole_set(b.knights);
    lemma_whole_set(b.bishops);
    lemma_whole_set(b.rooks);
    lemma_whole_set(b.queens);
    lemma_whole_set(b.kings);
}

proof fn lemma_whole_set(set: Bitboard)
    ensures
        Bitboard::of(read_part(set@, 0, 8)) == set,
{
    crate::utils::lemma_bits_bounded(set.0);
    assert(read_part(set@, 0, 8) =~= set@);
    set.lemma_of();
}

/// The board read up to the end of a rank is the board read up to the
/// beginning of the rank below.
proof fn lemma_next_rank(b: Board, y: int)
    requires
        0 < y < 8,
    ensures
        read_so_far(b, y, 8) == read_so_far(b, y - 1, 0),
{
    assert forall|set: Set<int>| #[trigger] read_part(set, y, 8) == read_part(set, y - 1, 0) by {
        assert(read_part(set, y, 8) =~= read_part(set, y - 1, 0));
    }
}

/// Where the text from place `k` on begins with the character `c`, place
/// `k` holds `c`, and the text from the next place on is the rest.
proof fn lemma_first_char(s: Seq<char>, k: int, c: char, rest: Seq<char>)
    requires
        0 <= k <= s.len(),
        s.skip(k) =~= seq![c] + rest,
    ensures
        k < s.len(),
        s[k] == c,
        s.skip(k + 1) =~= rest,
{
    assert(s.skip(k).len() == 1 + rest.len());
    assert(s.skip(k)[0] == c);
    assert forall|j: int| 0 <= j < rest.len() implies s.skip(k + 1)[j] == rest[j] by {
        assert(s.skip(k)[j + 1] == rest[j]);
    }
}

/// After the last square of rank `y` the rest of the text reads on to
/// the pieces of the position.
proof fn lemma_rest_reads(b: Board, s: Seq<char>, k: int, y: int)
    requires
        b.wf(),
        0 <= y < 8,
        0 <= k <= s.len(),
        s.skip(k) =~= rest_text(b, y),
    ensures
        read_board_from(s, k, read_so_far(b, y, 8), 8, 7 - y) == Some(pieces_only(b)),
    decreases y, 0int,
{
    let acc = read_so_far(b, y, 8);
    if y > 0 {
        let below = rows_text(b, y - 1);
        assert(rest_text(b, y) =~= seq!['/'] + below);
        lemma_first_char(s, k, '/', below);
        assert(read_board_from(s, k, acc, 8, 7 - y) == read_board_from(s, k + 1, acc, 0, 8 - y));
        lemma_next_rank(b, y);
        assert(below =~= row_text(b, y - 1, 0, 0) + rest_text(b, y - 1)) by {
            lemma_rows_unfold(b, y - 1);
        }
        lemma_row_reads(b, s, k + 1, y - 1, 0, 0);
    } else {
        assert(rest_text(b, 0) =~= Seq::<char>::empty()) by {
            assert(rows_text(b, -1) =~= Seq::<char>::empty());
        }
        assert(s.skip(k).len() == 0);
        assert(k == s.len());
        lemma_read_all(b);
    }
}

/// The text of the ranks from rank `y` down is the text of rank `y` and
/// the rest.
proof fn lemma_rows_unfold(b: Board, y: int)
    requires
        0 <= y,
    ensures
        rows_text(b, y) =~= row_text(b, y, 0, 0) + rest_text(b, y),
{
}

/// From the square on file `x` of rank `y`, with a run of `e` empty
/// squares before it not yet written, the rest of the text reads on to
/// the pieces of the position.
proof fn lemma_row_reads(b: Board, s: Seq<char>, k: int, y: int, x: int, e: int)
    requires
        b.wf(),
        0 <= y < 8,
        0 <= e <= x <= 8,
        0 <= k <= s.len(),
        s.skip(k) =~= row_text(b, y, x, e) + rest_text(b, y),
    ensures
        read_board_from(s, k, read_so_far(b, y, x), x - e, 7 - y) == Some(pieces_only(b)),
    decreases y, 9 - x,
{
    let acc = read_so_far(b, y, x);
    let row = 7 - y;
    let text = row_text(b, y, x, e);
    let rest = rest_text(b, y);
    let digit = digit_char(e);
    if x == 8 {
        if e > 0 {
            assert(text =~= seq![digit]);
            lemma_first_char(s, k, digit, rest);
            lemma_digit_read(s, k, acc, 8 - e, row, e);
            lemma_rest_reads(b, s, k + 1, y);
        } else {
            assert(text =~= Seq::<char>::empty());
            lemma_rest_reads(b, s, k, y);
        }
    } else {
        let i = square_at(x, y);
        lemma_read_one_more(b, y, x);
        if b.occupied().contains(i) {
            let c = if b.white@.contains(i) {
                Color::White
            } else {
                Color::Black
            };
            let p = first_kind(b, i).unwrap();
            let letter = piece_letter(c, p);
            let after = row_text(b, y, x + 1, 0);
            assert(text =~= run_text(e) + seq![letter] + after);
            if e > 0 {
                assert(s.skip(k) =~= seq![digit] + (seq![letter] + after + rest));
                lemma_first_char(s, k, digit, seq![letter] + after + rest);
                lemma_digit_read(s, k, acc, x - e, row, e);
                lemma_first_char(s, k + 1, letter, after + rest);
                lemma_letter_read(s, k + 1, acc, x, row, c, p);
                lemma_row_reads(b, s, k + 2, y, x + 1, 0);
            } else {
                assert(s.skip(k) =~= seq![letter] + (after + rest));
                lemma_first_char(s, k, letter, after + rest);
                lemma_letter_read(s, k, acc, x, row, c, p);
                lemma_row_reads(b, s, k + 1, y, x + 1, 0);
            }
        } else {
            assert(text =~= row_text(b, y, x + 1, e + 1));
            lemma_row_reads(b, s, k, y, x + 1, e + 1);
        }
    }
}

/// Reading the digit of a run of `e` empty squares moves on by `e` columns.
proof fn lemma_digit_read(s: Seq<char>, k: int, acc: Board, col: int, row: int, e: int)
    requires
        0 <= k < s.len(),
        1 <= e <= 8,
        0 <= col,
        col + e <= 8,
        0 <= row < 8,
        s[k] == digit_char(e),
    ensures
        read_board_from(s, k, acc, col, row) == read_board_from(s, k + 1, acc, col + e, row),
{
}

/// Reading the letter of a piece puts the piece on the square and moves
/// on by one column.
proof fn lemma_letter_read(s: Seq<char>, k: int, acc: Board, col: int, row: int, c: Color, p: Piece)
    requires
        0 <= k < s.len(),
        0 <= col < 8,
        0 <= row < 8,
        s[k] == piece_letter(c, p),
    ensures
        read_board_from(s, k, acc, col, row) == read_board_from(
            s,
            k + 1,
            with_piece(acc, c, p, square_at(col, 7 - row)),
            col + 1,
            row,
        ),
{
    lemma_letters(c, p);
}

/// The pieces of a sound position read back from the text of its ranks.
pub proof fn lemma_rows_read_back(b: Board)
    requires
        b.wf(),
    ensures
        read_board(rows_text(b, 7)) == Some(pieces_only(b)),
{
    let s = rows_text(b, 7);
    assert(s.skip(0) =~= s);
    assert(s =~= row_text(b, 7, 0, 0) + rest_text(b, 7));
    assert forall|set: Set<int>| #[trigger] read_part(set, 7, 0) == Set::<int>::empty() by {
        assert(read_part(set, 7, 0) =~= Set::<int>::empty());
    }
    crate::utils::lemma_bits_zero();
    Bitboard::lemma_of_word(0, Set::<int>::empty());
    assert(read_so_far(b, 7, 0) == empty_board());
    lemma_row_reads(b, s, 0, 7, 0, 0);
}


/// The text holds no white space.
pub open spec fn no_space(t: Seq<char>) -> bool {
    forall|i: int| 0 <= i < t.len() ==> !is_space(#[trigger] t[i])
}

proof fn lemma_plain_chars(c: Color, p: Piece, n: int)
    requires
        0 <= n <= 9,
    ensures
        !is_space(piece_letter(c, p)),
        !is_space(digit_char(n)),
        !is_space('/'),
        !is_space('-'),
        !is_space('w'),
        !is_space('b'),
        !is_space('0'),
        !is_space('3'),
        !is_space('6'),
        0 <= n < 8 ==> !is_space(file_letter(n)),
        is_space(' '),
{
}

proof fn lemma_row_no_space(b: Board, y: int, x: int, e: int)
    requires
        0 <= e <= x <= 8,
    ensures
        no_space(row_text(b, y, x, e)),
        x < 8 || e > 0 ==> row_text(b, y, x, e).len() > 0,
    decreases 8 - x,
{
    lemma_plain_chars(Color::White, Piece::Pawn, e);
    if x < 8 {
        let i = square_at(x, y);
        if b.white@.contains(i) || b.black@.contains(i) {
            let c = if b.white@.contains(i) {
                Color::White
            } else {
                Color::Black
            };
            lemma_plain_chars(c, first_kind(b, i).unwrap(), e);
            lemma_row_no_space(b, y, x + 1, 0);
            let t = row_text(b, y, x, e);
            let after = row_text(b, y, x + 1, 0);
            let letter = piece_letter(c, first_kind(b, i).unwrap());
            assert(t =~= run_text(e) + seq![letter] + after);
            assert forall|j: int| 0 <= j < t.len() implies !is_space(#[trigger] t[j]) by {
                let head = run_text(e) + seq![letter];
                if j >= head.len() {
                    assert(t[j] == after[j - head.len()]);
                }
            }
        } else {
            lemma_row_no_space(b, y, x + 1, e + 1);
        }
    }
}

proof fn lemma_rows_no_space(b: Board, y: int)
    requires
        -1 <= y < 8,
    ensures
        no_space(rows_text(b, y)),
        y >= 0 ==> rows_text(b, y).len() > 0,
    decreases y + 1,
{
    if y >= 0 {
        lemma_rows_no_space(b, y - 1);
        lemma_row_no_space(b, y, 0, 0);
        lemma_plain_chars(Color::White, Piece::Pawn, 0);
        let row = row_text(b, y, 0, 0);
        let sep: Seq<char> = if y > 0 {
            seq!['/']
        } else {
            Seq::empty()
        };
        let below = rows_text(b, y - 1);
        let t = rows_text(b, y);
        assert(t =~= row + sep + below);
        assert forall|j: int| 0 <= j < t.len() implies !is_space(#[trigger] t[j]) by {
            if j < row.len() {
                assert(t[j] == row[j]);
            } else if j < row.len() + sep.len() {
                assert(t[j] == '/');
            } else {
                assert(t[j] == below[j - row.len() - sep.len()]);
            }
        }
    }
}

/// A word without white space that stands at place `k` ends where the
/// text ends or white space follows.
proof fn lemma_skip_word(s: Seq<char>, k: int, w: Seq<char>, rest: Seq<char>)
    requires
        0 <= k <= s.len(),
        s.skip(k) =~= w + rest,
        no_space(w),
        rest.len() == 0 || is_space(rest[0]),
    ensures
        skip_word(s, k) == k + w.len(),
        s.subrange(k, k + w.len()) =~= w,
        s.skip(k + w.len()) =~= rest,
    decreases w.len(),
{
    assert(s.skip(k).len() == w.len() + rest.len());
    if w.len() > 0 {
        let tail = w.skip(1);
        assert(s.skip(k) =~= seq![w[0]] + (tail + rest));
        lemma_first_char(s, k, w[0], tail + rest);
        assert forall|i: int| 0 <= i < tail.len() implies !is_space(#[trigger] tail[i]) by {
            assert(tail[i] == w[i + 1]);
        }
        lemma_skip_word(s, k + 1, tail, rest);
        assert(!is_space(w[0]));
        assert(s.subrange(k, k + w.len()) =~= seq![w[0]] + s.subrange(k + 1, k + 1 + tail.len()));
        assert(seq![w[0]] + tail =~= w);
    } else {
        assert(s.skip(k) =~= rest);
        if rest.len() > 0 {
            assert(s.skip(k)[0] == rest[0]);
            assert(s[k] == rest[0]);
        }
        assert(s.subrange(k, k) =~= w);
    }
}

/// A field that stands at place `k` with one space and more text after it.
proof fn lemma_field(s: Seq<char>, k: int, w: Seq<char>, next: Seq<char>)
    requires
        0 <= k <= s.len(),
        s.skip(k) =~= w + seq![' '] + next,
        w.len() > 0,
        no_space(w),
        next.len() > 0,
        !is_space(next[0]),
    ensures
        skip_spaces(s, k) == k,
        skip_word(s, k) == k + w.len(),
        skip_spaces(s, k + w.len()) == k + w.len() + 1,
        s.subrange(k, k + w.len()) =~= w,
        s.skip(k + w.len() + 1) =~= next,
        k + w.len() + 1 < s.len(),
{
    let rest = seq![' '] + next;
    assert(s.skip(k) =~= w + rest);
    assert(is_space(rest[0]));
    lemma_skip_word(s, k, w, rest);
    assert(s.skip(k)[0] == w[0]);
    assert(s.skip(k).len() == w.len() + 1 + next.len());
    assert(s[k] == w[0]);
    let e = k + w.len();
    lemma_first_char(s, e, ' ', next);
    assert(s.skip(e + 1)[0] == next[0]);
    assert(s.skip(e + 1).len() == next.len());
    assert(s[e + 1] == next[0]);
    assert(skip_spaces(s, e + 1) == e + 1);
}

/// A field that stands at place `k` and ends the text.
proof fn lemma_last_field(s: Seq<char>, k: int, w: Seq<char>)
    requires
        0 <= k <= s.len(),
        s.skip(k) =~= w,
        w.len() > 0,
        no_space(w),
    ensures
        skip_spaces(s, k) == k,
        k < s.len(),
        skip_word(s, k) == s.len(),
        s.subrange(k, s.len() as int) =~= w,
{
    assert(s.skip(k) =~= w + Seq::<char>::empty());
    lemma_skip_word(s, k, w, Seq::<char>::empty());
    assert(s.skip(k).len() == w.len());
    assert(s.skip(k)[0] == w[0]);
    assert(s[k] == w[0]);
}


proof fn lemma_flag_sums(r: u8)
    by (bit_vector)
    requires
        r < 16,
    ensures
        ({
            let h1 = if r & 8 != 0 {
                8u8 | 0u8
            } else {
                0u8
            };
            let h2 = if r & 4 != 0 {
                4u8 | h1
            } else {
                h1
            };
            let h3 = if r & 2 != 0 {
                2u8 | h2
            } else {
                h2
            };
            let h4 = if r & 1 != 0 {
                1u8 | h3
            } else {
                h3
            };
            &&& 8u8 & 0u8 == 0
            &&& 4u8 & h1 == 0
            &&& 2u8 & h2 == 0
            &&& 1u8 & h3 == 0
            &&& h4 == r
        }),
{
}

/// The letter of a right, where the text has it at place `k`, adds the
/// flag of the right to those read so far.
proof fn lemma_right_step(
    s: Seq<char>,
    k: int,
    present: bool,
    c: char,
    flag: u8,
    have: u8,
    rest: Seq<char>,
)
    requires
        0 <= k <= s.len(),
        s.skip(k) =~= (if present {
            seq![c]
        } else {
            Seq::<char>::empty()
        }) + rest,
        right_of_letter(c) == Some(flag),
        flag & have == 0,
    ensures
        present ==> read_rights_from(s, k, have) == read_rights_from(s, k + 1, flag | have)
            && s.skip(k + 1) =~= rest && k < s.len(),
        !present ==> s.skip(k) =~= rest,
{
    if present {
        lemma_first_char(s, k, c, rest);
    }
}

/// The rights to castle read back from their letters.
proof fn lemma_rights_read_back(b: Board)
    requires
        b.castling_rights < 16,
    ensures
        read_rights_from(rights_text(b), 0, 0) == Some(b.castling_rights),
{
    let r = b.castling_rights;
    let s = rights_text(b);
    lemma_flag_sums(r);
    let wk = r & 8 != 0;
    let wq = r & 4 != 0;
    let bk = r & 2 != 0;
    let bq = r & 1 != 0;
    assert(wk == b.may_castle_short(Color::White));
    assert(wq == b.may_castle_long(Color::White));
    assert(bk == b.may_castle_short(Color::Black));
    assert(bq == b.may_castle_long(Color::Black));
    let t1: Seq<char> = if wk {
        seq!['K']
    } else {
        Seq::empty()
    };
    let t2: Seq<char> = if wq {
        seq!['Q']
    } else {
        Seq::empty()
    };
    let t3: Seq<char> = if bk {
        seq!['k']
    } else {
        Seq::empty()
    };
    let t4: Seq<char> = if bq {
        seq!['q']
    } else {
        Seq::empty()
    };
    let h1: u8 = if wk {
        8u8 | 0u8
    } else {
        0u8
    };
    let h2: u8 = if wq {
        4u8 | h1
    } else {
        h1
    };
    let h3: u8 = if bk {
        2u8 | h2
    } else {
        h2
    };
    let h4: u8 = if bq {
        1u8 | h3
    } else {
        h3
    };
    assert(s =~= t1 + (t2 + (t3 + t4)));
    assert(s.skip(0) =~= s);
    let k1: int = if wk {
        1
    } else {
        0
    };
    lemma_right_step(s, 0, wk, 'K', 8, 0, t2 + (t3 + t4));
    let k2: int = if wq {
        k1 + 1
    } else {
        k1
    };
    lemma_right_step(s, k1, wq, 'Q', 4, h1, t3 + t4);
    let k3: int = if bk {
        k2 + 1
    } else {
        k2
    };
    lemma_right_step(s, k2, bk, 'k', 2, h2, t4);
    let k4: int = if bq {
        k3 + 1
    } else {
        k3
    };
    lemma_right_step(s, k3, bq, 'q', 1, h3, Seq::<char>::empty());
    assert(s.skip(k4).len() == 0);
    assert(k4 == s.len());
    assert(read_rights_from(s, k4, h4) == Some(h4));
}

/// Each field of a written position holds at least one character and no
/// white space, where a right to castle is left.
proof fn lemma_fields_plain(b: Board)
    requires
        b.wf(),
        b.castling_rights != 0,
    ensures
        no_space(rows_text(b, 7)) && rows_text(b, 7).len() > 0,
        no_space(player_text(b)) && player_text(b).len() > 0,
        no_space(rights_text(b)) && rights_text(b).len() > 0,
        no_space(ep_text(b)) && ep_text(b).len() > 0,
        no_space(decimal(b.half_moves as nat)) && decimal(b.half_moves as nat).len() > 0,
        no_space(seq!['0']),
{
    lemma_plain_chars(Color::White, Piece::Pawn, 0);
    lemma_rows_no_space(b, 7);
    lemma_decimal_reads_back(b.half_moves as nat);
    let f4 = decimal(b.half_moves as nat);
    assert forall|i: int| 0 <= i < f4.len() implies !is_space(#[trigger] f4[i]) by {
        assert(crate::text::digit_value(f4[i]) is Some);
    }
    if b.en_passant != 0 {
        lemma_plain_chars(Color::White, Piece::Pawn, b.en_passant - 1);
    }
    let r = b.castling_rights;
    assert(r & 8 != 0 || r & 4 != 0 || r & 2 != 0 || r & 1 != 0) by (bit_vector)
        requires
            r < 16 && r != 0,
    ;
    let f2 = rights_text(b);
    assert forall|i: int| 0 <= i < f2.len() implies !is_space(#[trigger] f2[i]) by {
        assert(f2[i] == 'K' || f2[i] == 'Q' || f2[i] == 'k' || f2[i] == 'q');
    }
}

/// The fields of `fields` from place `i` on, with one space between them.
pub open spec fn joined(fields: Seq<Seq<char>>, i: int) -> Seq<char>
    decreases fields.len() - i,
{
    if i < 0 || i >= fields.len() {
        Seq::empty()
    } else if i == fields.len() - 1 {
        fields[i]
    } else {
        fields[i] + seq![' '] + joined(fields, i + 1)
    }
}

/// The place at which field `i` begins in the fields joined.
pub open spec fn offset(fields: Seq<Seq<char>>, i: int) -> int
    decreases i,
{
    if i <= 0 {
        0
    } else {
        offset(fields, i - 1) + fields[i - 1].len() + 1
    }
}

/// Every field holds at least one character and no white space.
pub open spec fn all_plain(fields: Seq<Seq<char>>) -> bool {
    forall|j: int| 0 <= j < fields.len() ==> (#[trigger] fields[j]).len() > 0 && no_space(fields[j])
}

/// Fields joined by single spaces begin with the first character of the
/// first of them.
proof fn lemma_joined_begins(fields: Seq<Seq<char>>, i: int)
    requires
        0 <= i < fields.len(),
        all_plain(fields),
    ensures
        joined(fields, i).len() > 0,
        joined(fields, i)[0] == fields[i][0],
        !is_space(joined(fields, i)[0]),
{
    assert(fields[i].len() > 0 && no_space(fields[i]));
    assert(!is_space(fields[i][0]));
}

/// Fields joined by single spaces are found again as the fields of the text.
proof fn lemma_joined_fields(fields: Seq<Seq<char>>, i: nat)
    requires
        i < fields.len(),
        all_plain(fields),
    ensures
        0 <= offset(fields, i as int) < joined(fields, 0).len(),
        field_start(joined(fields, 0), i) == offset(fields, i as int),
        joined(fields, 0).skip(offset(fields, i as int)) =~= joined(fields, i as int),
        field(joined(fields, 0), i) == Some(fields[i as int]),
    decreases i,
{
    let s = joined(fields, 0);
    let a = offset(fields, i as int);
    if i == 0 {
        assert(s.skip(0) =~= s);
    } else {
        lemma_joined_fields(fields, (i - 1) as nat);
        let before = offset(fields, i - 1);
        let w = fields[i - 1];
        let next = joined(fields, i as int);
        lemma_joined_begins(fields, i as int);
        assert(fields[i - 1].len() > 0 && no_space(fields[i - 1]));
        assert(joined(fields, i - 1) =~= w + seq![' '] + next);
        lemma_field(s, before, w, next);
    }
    let w = fields[i as int];
    assert(w.len() > 0 && no_space(w));
    if i == fields.len() - 1 {
        assert(joined(fields, i as int) =~= w);
        lemma_last_field(s, a, w);
    } else {
        let next = joined(fields, i as int + 1);
        lemma_joined_begins(fields, i as int + 1);
        assert(joined(fields, i as int) =~= w + seq![' '] + next);
        lemma_field(s, a, w, next);
    }
}

/// The six fields of a written position, where a right to castle is left.
proof fn lemma_fen_fields(b: Board)
    requires
        b.wf(),
        b.castling_rights != 0,
    ensures
        field(fen_text(b), 0) == Some(rows_text(b, 7)),
        field(fen_text(b), 1) == Some(player_text(b)),
        field(fen_text(b), 2) == Some(rights_text(b)),
        field(fen_text(b), 3) == Some(ep_text(b)),
        field(fen_text(b), 4) == Some(decimal(b.half_moves as nat)),
        field(fen_text(b), 5) == Some(seq!['0']),
{
    let f0 = rows_text(b, 7);
    let f1 = player_text(b);
    let f2 = rights_text(b);
    let f3 = ep_text(b);
    let f4 = decimal(b.half_moves as nat);
    let f5: Seq<char> = seq!['0'];
    let fields = seq![f0, f1, f2, f3, f4, f5];
    lemma_fields_plain(b);
    assert(all_plain(fields));
    lemma_six_joined(fields);
    assert(seq![' ', '0'] =~= seq![' '] + f5);
    assert(fen_text(b) =~= joined(fields, 0));
    lemma_joined_fields(fields, 0);
    lemma_joined_fields(fields, 1);
    lemma_joined_fields(fields, 2);
    lemma_joined_fields(fields, 3);
    lemma_joined_fields(fields, 4);
    lemma_joined_fields(fields, 5);
}

/// Six fields joined, written out.
proof fn lemma_six_joined(fields: Seq<Seq<char>>)
    requires
        fields.len() == 6,
    ensures
        joined(fields, 0) =~= fields[0] + seq![' '] + fields[1] + seq![' '] + fields[2] + seq![' ']
            + fields[3] + seq![' '] + fields[4] + seq![' '] + fields[5],
{
    let sp: Seq<char> = seq![' '];
    assert(joined(fields, 5) =~= fields[5]);
    assert(joined(fields, 4) =~= fields[4] + sp + fields[5]);
    assert(joined(fields, 3) =~= fields[3] + sp + (fields[4] + sp + fields[5]));
    assert(joined(fields, 2) =~= fields[2] + sp + (fields[3] + sp + (fields[4] + sp + fields[5])));
    assert(joined(fields, 1) =~= fields[1] + sp + joined(fields, 2));
    assert(joined(fields, 0) =~= fields[0] + sp + joined(fields, 1));
}

/// The side to move and the en passant file read back from their fields.
proof fn lemma_small_fields_read_back(b: Board)
    requires
        b.en_passant <= 8,
    ensures
        read_player(player_text(b)) == Some(b.player),
        read_ep(ep_text(b)) == Some(b.en_passant),
        number(seq!['0'], true) == Some(0int),
        number(decimal(b.half_moves as nat), false) == Some(b.half_moves as int),
{
    let f1 = player_text(b);
    if b.player == Color::White {
        assert(f1 =~= seq!['w']);
    } else {
        assert(f1 =~= seq!['b']);
        assert(f1[0] != 'w');
        assert(!(f1 =~= seq!['w']));
    }
    let f3 = ep_text(b);
    if b.en_passant != 0 {
        assert(f3.len() == 2);
        assert(!(f3 =~= seq!['-']));
    } else {
        assert(f3 =~= seq!['-']);
    }
    lemma_decimal_reads_back(0);
    assert(seq!['0'] =~= decimal(0));
    lemma_decimal_reads_back(b.half_moves as nat);
}

/// A sound position with a right to castle left reads back from its
/// text in Forsyth-Edwards notation, as the position before move 0.
pub proof fn lemma_written_position_reads_back(b: Board)
    requires
        b.wf(),
        b.castling_rights != 0,
    ensures
        read_fen(fen_text(b)) == Some((b, ply_of(0, b.player) as i64)),
{
    lemma_fen_fields(b);
    lemma_rows_read_back(b);
    lemma_rights_read_back(b);
    lemma_small_fields_read_back(b);
    lemma_read_fen(
        fen_text(b),
        rows_text(b, 7),
        player_text(b),
        rights_text(b),
        ep_text(b),
        decimal(b.half_moves as nat),
        seq!['0'],
        b,
    );
}

/// What a text of six fields reads as, once each field is read.
proof fn lemma_read_fen(
    s: Seq<char>,
    f0: Seq<char>,
    f1: Seq<char>,
    f2: Seq<char>,
    f3: Seq<char>,
    f4: Seq<char>,
    f5: Seq<char>,
    b: Board,
)
    requires
        field(s, 0) == Some(f0),
        field(s, 1) == Some(f1),
        field(s, 2) == Some(f2),
        field(s, 3) == Some(f3),
        field(s, 4) == Some(f4),
        field(s, 5) == Some(f5),
        read_board(f0) == Some(pieces_only(b)),
        read_player(f1) == Some(b.player),
        read_rights_from(f2, 0, 0) == Some(b.castling_rights),
        read_ep(f3) == Some(b.en_passant),
        number(f4, false) == Some(b.half_moves as int),
        number(f5, true) == Some(0int),
    ensures
        read_fen(s) == Some((b, ply_of(0, b.player) as i64)),
{
}

} // verus!
