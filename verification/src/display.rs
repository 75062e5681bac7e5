//! Pictures in text: of a set of squares, of a position, of the moves of
//! a game.

use crate::bitboard::Bitboard;
use crate::board::Board;
use crate::coords::{square_at, Square};
use crate::move_log::MoveLog;
use crate::moves::{move_text, AlgebraicMove};
use crate::patterns::Tables;
use crate::piece::{Color, Piece};
use crate::text::{digit_char, digit_str, push_signed_decimal, signed_decimal};
use crate::utils::group_bits;
use vstd::prelude::*;
use vstd::string::StringExecFns;

verus! {

broadcast use group_bits;

/// The sign that stands for a piece in a picture of the board.
pub open spec fn symbol_of(p: Piece, c: Color) -> char {
    match c {
        Color::Black => match p {
            Piece::Pawn => '\u{2659}',
            Piece::Knight => '\u{2658}',
            Piece::Bishop => '\u{2657}',
            Piece::Rook => '\u{2656}',
            Piece::Queen => '\u{2655}',
            Piece::King => '\u{2654}',
        },
        Color::White => match p {
            Piece::Pawn => '\u{265f}',
            Piece::Knight => '\u{265e}',
            Piece::Bishop => '\u{265d}',
            Piece::Rook => '\u{265c}',
            Piece::Queen => '\u{265b}',
            Piece::King => '\u{265a}',
        },
    }
}

/// The name of a kind of piece.
pub open spec fn piece_name(p: Piece) -> Seq<char> {
    match p {
        Piece::Pawn => "pawn"@,
        Piece::Knight => "knight"@,
        Piece::Bishop => "bishop"@,
        Piece::Rook => "rook"@,
        Piece::Queen => "queen"@,
        Piece::King => "king"@,
    }
}

/// The name of a side.
pub open spec fn color_name(c: Color) -> Seq<char> {
    match c {
        Color::White => "white"@,
        Color::Black => "black"@,
    }
}

/// The first kind of piece, from pawn to king, that stands on square `i`.
pub open spec fn first_kind(b: Board, i: int) -> Option<Piece> {
    if b.pawns@.contains(i) {
        Some(Piece::Pawn)
    } else if b.knights@.contains(i) {
        Some(Piece::Knight)
    } else if b.bishops@.contains(i) {
        Some(Piece::Bishop)
    } else if b.rooks@.contains(i) {
        Some(Piece::Rook)
    } else if b.queens@.contains(i) {
        Some(Piece::Queen)
    } else if b.kings@.contains(i) {
        Some(Piece::King)
    } else {
        None
    }
}

/// The side and kind of the piece that a picture shows on square `i`:
/// Black's before White's where both sides claim the square; none where
/// no side or no kind of piece does.
pub open spec fn shown(b: Board, i: int) -> Option<(Color, Piece)> {
    match first_kind(b, i) {
        None => None,
        Some(p) => if b.black@.contains(i) {
            Some((Color::Black, p))
        } else if b.white@.contains(i) {
            Some((Color::White, p))
        } else {
            None
        },
    }
}

/// The character in place `k` of the sixteen that show the squares of a
/// rank: the sign of a square, then a space, and after the last square a
/// new line.
pub open spec fn rank_char(signs: spec_fn(int) -> char, k: int) -> char {
    if k % 2 == 0 {
        signs(k / 2)
    } else if k == 15 {
        '\n'
    } else {
        ' '
    }
}

/// A rank in a picture: its number, a space, and the signs of its eight
/// squares from the a-file on.
pub open spec fn rank_picture(y: int, signs: spec_fn(int) -> char) -> Seq<char> {
    seq![digit_char(y + 1), ' '] + Seq::new(16, |k: int| rank_char(signs, k))
}

/// The ranks of a picture from rank `y` down to the first.
pub open spec fn ranks_picture(y: int, signs: spec_fn(int, int) -> char) -> Seq<char>
    decreases y + 1,
{
    if y < 0 {
        Seq::empty()
    } else {
        rank_picture(y, |x: int| signs(x, y)) + ranks_picture(y - 1, signs)
    }
}

/// The line of letters under a picture.
pub open spec fn files_line() -> Seq<char> {
    "  a b c d e f g h"@
}

/// A picture: the eight ranks from the eighth down, and the line of letters.
pub open spec fn picture(signs: spec_fn(int, int) -> char) -> Seq<char> {
    ranks_picture(7, signs) + files_line()
}

/// The sign of the square on file `x` and rank `y` in the picture of a
/// set of squares: `1` for a square of the set, `0` for any other.
pub open spec fn set_sign(set: Bitboard, x: int, y: int) -> char {
    if set@.contains(square_at(x, y)) {
        '1'
    } else {
        '0'
    }
}

/// The sign of the square on file `x` and rank `y` in the picture of a
/// position: that of its piece, or `_`.
pub open spec fn board_sign(b: Board, x: int, y: int) -> char {
    match shown(b, square_at(x, y)) {
        Some((c, p)) => symbol_of(p, c),
        None => '_',
    }
}

/// The picture of a position.
pub open spec fn board_picture(b: Board) -> Seq<char> {
    picture(|x: int, y: int| board_sign(b, x, y))
}

/// What is shown of a position to the players: that the side to move is
/// in check, where it is; then the picture of the position.
pub open spec fn board_report(b: Board) -> Seq<char> {
    (if b.in_check_spec(b.player) {
        "Player "@ + color_name(b.player) + " is in check!\n"@
    } else {
        Seq::empty()
    }) + board_picture(b) + seq!['\n']
}

/// The moves of `moves` from place `i` on as a log shows them, when the
/// count of half-moves stands at `ply`: at an even count the number of
/// the move, a full stop, a space and the move; at an odd count a space,
/// the move and a new line, and the count goes up by one.
pub open spec fn log_text(moves: Seq<AlgebraicMove>, i: int, ply: int) -> Seq<char>
    decreases moves.len() - i,
{
    if i < 0 || i >= moves.len() {
        Seq::empty()
    } else if ply % 2 == 0 {
        signed_decimal(1 + ply / 2) + seq!['.', ' '] + move_text(moves[i]) + log_text(
            moves,
            i + 1,
            ply,
        )
    } else {
        seq![' '] + move_text(moves[i]) + seq!['\n'] + log_text(moves, i + 1, ply + 1)
    }
}

impl Piece {
    /// The sign that stands for this kind of piece of side `color` in a
    /// picture of the board.
    pub fn to_unicode(self, color: Color) -> (r: &'static str)
        ensures
            r@ == seq![symbol_of(self, color)],
    {
        proof {
            reveal_strlit("\u{2659}");
            reveal_strlit("\u{2658}");
            reveal_strlit("\u{2657}");
            reveal_strlit("\u{2656}");
            reveal_strlit("\u{2655}");
            reveal_strlit("\u{2654}");
            reveal_strlit("\u{265f}");
            reveal_strlit("\u{265e}");
            reveal_strlit("\u{265d}");
            reveal_strlit("\u{265c}");
            reveal_strlit("\u{265b}");
            reveal_strlit("\u{265a}");
        }
        let r = match color {
            Color::Black => match self {
                Piece::Pawn => "\u{2659}",
                Piece::Knight => "\u{2658}",
                Piece::Bishop => "\u{2657}",
                Piece::Rook => "\u{2656}",
                Piece::Queen => "\u{2655}",
                Piece::King => "\u{2654}",
            },
            Color::White => match self {
                Piece::Pawn => "\u{265f}",
                Piece::Knight => "\u{265e}",
                Piece::Bishop => "\u{265d}",
                Piece::Rook => "\u{265c}",
                Piece::Queen => "\u{265b}",
                Piece::King => "\u{265a}",
            },
        };
        assert(r@ =~= seq![symbol_of(self, color)]);
        r
    }

    /// The name of this kind of piece.
    pub fn name(self) -> (r: &'static str)
        ensures
            r@ == piece_name(self),
    {
        match self {
            Piece::Pawn => "pawn",
            Piece::Knight => "knight",
            Piece::Bishop => "bishop",
            Piece::Rook => "rook",
            Piece::Queen => "queen",
            Piece::King => "king",
        }
    }

    /// The name of this kind of piece.
    pub fn to_string(&self) -> (r: String)
        ensures
            r@ == piece_name(*self),
    {
        String::from_str(self.name())
    }
}

impl Color {
    /// The name of this side.
    pub fn name(self) -> (r: &'static str)
        ensures
            r@ == color_name(self),
    {
        match self {
            Color::White => "white",
            Color::Black => "black",
        }
    }

    /// The name of this side.
    pub fn to_string(&self) -> (r: String)
        ensures
            r@ == color_name(*self),
    {
        String::from_str(self.name())
    }
}

/// The side and kind of the piece that a picture shows on a square.
fn piece_shown(b: &Board, sq: Square) -> (r: Option<(Color, Piece)>)
    requires
        sq.valid(),
    ensures
        r == shown(*b, sq.spec_index()),
{
    let mask = Bitboard::at(sq);
    let ghost i = sq.spec_index();
    proof {
        assert forall|set: Bitboard| #[trigger]
            set@.intersect(mask@) != Set::<int>::empty() <==> set@.contains(i) by {
            if set@.contains(i) {
                assert(set@.intersect(mask@).contains(i));
            } else {
                assert(set@.intersect(mask@) =~= Set::<int>::empty());
            }
        }
    }
    let kind = if (b.pawns & mask).is_populated() {
        Some(Piece::Pawn)
    } else if (b.knights & mask).is_populated() {
        Some(Piece::Knight)
    } else if (b.bishops & mask).is_populated() {
        Some(Piece::Bishop)
    } else if (b.rooks & mask).is_populated() {
        Some(Piece::Rook)
    } else if (b.queens & mask).is_populated() {
        Some(Piece::Queen)
    } else if (b.kings & mask).is_populated() {
        Some(Piece::King)
    } else {
        None
    };
    match kind {
        None => None,
        Some(p) => if (b.black & mask).is_populated() {
            Some((Color::Black, p))
        } else if (b.white & mask).is_populated() {
            Some((Color::White, p))
        } else {
            None
        },
    }
}

/// Adds the picture of rank `y` of a set of squares to `out`.
fn push_set_rank(out: &mut String, set: Bitboard, y: u8)
    requires
        y < 8,
    ensures
        final(out)@ == old(out)@ + rank_picture(y as int, |x: int| set_sign(set, x, y as int)),
{
    let ghost signs = |x: int| set_sign(set, x, y as int);
    proof {
        reveal_strlit(" ");
        reveal_strlit("\n");
        reveal_strlit("0");
        reveal_strlit("1");
    }
    out.append(digit_str(y + 1));
    out.append(" ");
    let ghost head = out@;
    assert(head =~= old(out)@ + seq![digit_char(y + 1), ' ']);
    let mut x: u8 = 0;
    while x < 8
        invariant
            x <= 8,
            y < 8,
            signs == (|x: int| set_sign(set, x, y as int)),
            out@ == head + Seq::new(2 * x as nat, |k: int| rank_char(signs, k)),
            " "@ == seq![' '],
            "\n"@ == seq!['\n'],
            "0"@ == seq!['0'],
            "1"@ == seq!['1'],
        decreases 8 - x,
    {
        let here = (set & Bitboard::at(Square { x, y })).is_populated();
        proof {
            let i = square_at(x as int, y as int);
            if set@.contains(i) {
                assert(set@.intersect(set![i]).contains(i));
            } else {
                assert(set@.intersect(set![i]) =~= Set::<int>::empty());
            }
        }
        out.append(if here { "1" } else { "0" });
        out.append(if x == 7 { "\n" } else { " " });
        assert(out@ =~= head + Seq::new(2 * (x + 1) as nat, |k: int| rank_char(signs, k)));
        x += 1;
    }
    assert(out@ =~= old(out)@ + rank_picture(y as int, signs));
}

/// Adds the picture of rank `y` of a position to `out`.
fn push_board_rank(out: &mut String, b: &Board, y: u8)
    requires
        y < 8,
    ensures
        final(out)@ == old(out)@ + rank_picture(y as int, |x: int| board_sign(*b, x, y as int)),
{
    let ghost signs = |x: int| board_sign(*b, x, y as int);
    proof {
        reveal_strlit(" ");
        reveal_strlit("\n");
        reveal_strlit("_");
    }
    out.append(digit_str(y + 1));
    out.append(" ");
    let ghost head = out@;
    assert(head =~= old(out)@ + seq![digit_char(y + 1), ' ']);
    let mut x: u8 = 0;
    while x < 8
        invariant
            x <= 8,
            y < 8,
            signs == (|x: int| board_sign(*b, x, y as int)),
            out@ == head + Seq::new(2 * x as nat, |k: int| rank_char(signs, k)),
            " "@ == seq![' '],
            "\n"@ == seq!['\n'],
            "_"@ == seq!['_'],
        decreases 8 - x,
    {
        let sign = match piece_shown(b, Square { x, y }) {
            Some((c, p)) => p.to_unicode(c),
            None => "_",
        };
        out.append(sign);
        out.append(if x == 7 { "\n" } else { " " });
        assert(out@ =~= head + Seq::new(2 * (x + 1) as nat, |k: int| rank_char(signs, k)));
        x += 1;
    }
    assert(out@ =~= old(out)@ + rank_picture(y as int, signs));
}

impl Bitboard {
    /// The picture of the set: `1` for each of its squares, `0` for each
    /// other square.
    pub fn to_string(&self) -> (r: String)
        ensures
            r@ == picture(|x: int, y: int| set_sign(*self, x, y)),
    {
        let ghost signs = |x: int, y: int| set_sign(*self, x, y);
        let mut out = String::new();
        let mut n: u8 = 0;
        while n < 8
            invariant
                n <= 8,
                signs == (|x: int, y: int| set_sign(*self, x, y)),
                out@ + ranks_picture(7 - n, signs) == ranks_picture(7, signs),
            decreases 8 - n,
        {
            let y: u8 = 7 - n;
            let ghost before = out@;
            push_set_rank(&mut out, *self, y);
            proof {
                assert((|x: int| set_sign(*self, x, y as int)) =~= (|x: int| signs(x, y as int)));
                assert(out@ + ranks_picture(y - 1, signs) =~= before + (rank_picture(
                    y as int,
                    |x: int| signs(x, y as int),
                ) + ranks_picture(y - 1, signs)));
            }
            n += 1;
        }
        assert(out@ =~= ranks_picture(7, signs));
        out.append("  a b c d e f g h");
        out
    }
}

impl Board {
    /// The picture of the position.
    pub fn to_string(&self) -> (r: String)
        ensures
            r@ == board_picture(*self),
    {
        let ghost signs = |x: int, y: int| board_sign(*self, x, y);
        let mut out = String::new();
        let mut n: u8 = 0;
        while n < 8
            invariant
                n <= 8,
                signs == (|x: int, y: int| board_sign(*self, x, y)),
                out@ + ranks_picture(7 - n, signs) == ranks_picture(7, signs),
            decreases 8 - n,
        {
            let y: u8 = 7 - n;
            let ghost before = out@;
            push_board_rank(&mut out, self, y);
            proof {
                assert((|x: int| board_sign(*self, x, y as int)) =~= (|x: int| signs(x, y as int)));
                assert(out@ + ranks_picture(y - 1, signs) =~= before + (rank_picture(
                    y as int,
                    |x: int| signs(x, y as int),
                ) + ranks_picture(y - 1, signs)));
            }
            n += 1;
        }
        assert(out@ =~= ranks_picture(7, signs));
        out.append("  a b c d e f g h");
        out
    }

    /// What is shown of the position to the players: that the side to
    /// move is in check, where it is; then the picture of the position.
    pub fn display(&self, tables: &Tables) -> (r: String)
        ensures
            r@ == board_report(*self),
    {
        let mut out = String::new();
        if self.in_check(tables, self.player) {
            out.append("Player ");
            out.append(self.player.name());
            out.append(" is in check!\n");
        }
        let picture = self.to_string();
        out.append(picture.as_str());
        proof {
            reveal_strlit("\n");
        }
        out.append("\n");
        assert(out@ =~= board_report(*self));
        out
    }
}

impl MoveLog {
    /// The moves of the log as a list: the number of each move, White's
    /// move and Black's.
    pub fn to_string(&self) -> (r: String)
        requires
            self.ply < i64::MAX - self.moves.len(),
            forall|i: int| 0 <= i < self.moves.len() ==> (#[trigger] self.moves[i]).valid(),
        ensures
            r@ == log_text(self.moves@, 0, self.ply as int),
    {
        proof {
            reveal_strlit(". ");
            reveal_strlit(" ");
            reveal_strlit("\n");
        }
        let mut out = String::new();
        let mut ply = self.ply;
        let mut i: usize = 0;
        while i < self.moves.len()
            invariant
                i <= self.moves.len(),
                self.ply <= ply <= self.ply + i,
                self.ply < i64::MAX - self.moves.len(),
                forall|i: int| 0 <= i < self.moves.len() ==> (#[trigger] self.moves[i]).valid(),
                out@ + log_text(self.moves@, i as int, ply as int) == log_text(
                    self.moves@,
                    0,
                    self.ply as int,
                ),
                ". "@ == seq!['.', ' '],
                " "@ == seq![' '],
                "\n"@ == seq!['\n'],
            decreases self.moves.len() - i,
        {
            let ghost before = out@;
            let ghost rest = log_text(self.moves@, i as int, ply as int);
            let mv = self.moves[i].to_string();
            if ply % 2 == 0 {
                push_signed_decimal(&mut out, 1 + ply / 2);
                out.append(". ");
                out.append(mv.as_str());
                proof {
                    assert(out@ + log_text(self.moves@, i + 1, ply as int) =~= before + rest);
                }
            } else {
                out.append(" ");
                out.append(mv.as_str());
                out.append("\n");
                proof {
                    assert(out@ + log_text(self.moves@, i + 1, ply + 1) =~= before + rest);
                }
                ply = ply + 1;
            }
            i += 1;
        }
        assert(out@ =~= log_text(self.moves@, 0, self.ply as int));
        out
    }
}

} // verus!
