//! Sets of squares, held as 64-bit words.

use crate::coords::{file_of, rank_of, square_at, Line, Square};
use crate::piece::{Color, Piece};
use crate::utils::{
    bit,
    bit_at,
    bits_of,
    byte_mirror,
    byte_swapped,
    group_bits,
    highest_bit,
    lemma_bits_bounded,
    lemma_bits_byte_swapped,
    lemma_bits_one,
    lemma_bits_zero,
    lemma_bitwise,
    lemma_highest_bit,
    lemma_lanes,
    lemma_lowest_bit,
    lemma_zero_iff_empty,
    lowest_bit,
    one_bit,
};
use vstd::prelude::*;
use vstd::std_specs::ops::{BitAndSpecImpl, BitOrSpecImpl, BitXorSpecImpl, NotSpecImpl, SubSpecImpl};
use vstd::wrapping::u64_specs::wrapping_sub;

verus! {

broadcast use group_bits;

/// A set of squares. Bit `63 - x - 8 * y` stands for the square on file `x`
/// and rank `y`.
#[derive(Copy, Clone, PartialEq, Eq, Structural, Debug)]
pub struct Bitboard(pub u64);

impl View for Bitboard {
    type V = Set<int>;

    /// The bits that stand for the squares of the set.
    open spec fn view(&self) -> Set<int> {
        bits_of(self.0)
    }
}

impl Default for Bitboard {
    fn default() -> (r: Bitboard)
        ensures
            r.0 == 0,
    {
        Bitboard(0)
    }
}

impl core::ops::BitAnd for Bitboard {
    type Output = Bitboard;

    fn bitand(self, other: Bitboard) -> (r: Bitboard) {
        Bitboard(self.0 & other.0)
    }
}

impl BitAndSpecImpl for Bitboard {
    open spec fn obeys_bitand_spec() -> bool {
        true
    }

    open spec fn bitand_req(self, other: Bitboard) -> bool {
        true
    }

    open spec fn bitand_spec(self, other: Bitboard) -> Bitboard {
        Bitboard(self.0 & other.0)
    }
}

impl core::ops::BitOr for Bitboard {
    type Output = Bitboard;

    fn bitor(self, other: Bitboard) -> (r: Bitboard) {
        Bitboard(self.0 | other.0)
    }
}

impl BitOrSpecImpl for Bitboard {
    open spec fn obeys_bitor_spec() -> bool {
        true
    }

    open spec fn bitor_req(self, other: Bitboard) -> bool {
        true
    }

    open spec fn bitor_spec(self, other: Bitboard) -> Bitboard {
        Bitboard(self.0 | other.0)
    }
}

impl core::ops::BitXor for Bitboard {
    type Output = Bitboard;

    fn bitxor(self, other: Bitboard) -> (r: Bitboard) {
        Bitboard(self.0 ^ other.0)
    }
}

impl BitXorSpecImpl for Bitboard {
    open spec fn obeys_bitxor_spec() -> bool {
        true
    }

    open spec fn bitxor_req(self, other: Bitboard) -> bool {
        true
    }

    open spec fn bitxor_spec(self, other: Bitboard) -> Bitboard {
        Bitboard(self.0 ^ other.0)
    }
}

impl core::ops::Not for Bitboard {
    type Output = Bitboard;

    fn not(self) -> (r: Bitboard) {
        Bitboard(!self.0)
    }
}

impl NotSpecImpl for Bitboard {
    open spec fn obeys_not_spec() -> bool {
        true
    }

    open spec fn not_req(self) -> bool {
        true
    }

    open spec fn not_spec(self) -> Bitboard {
        Bitboard(!self.0)
    }
}

impl core::ops::Sub for Bitboard {
    type Output = Bitboard;

    /// The difference of the two words, wrapping around below zero.
    fn sub(self, other: Bitboard) -> (r: Bitboard) {
        Bitboard(self.0.wrapping_sub(other.0))
    }
}

impl SubSpecImpl for Bitboard {
    open spec fn obeys_sub_spec() -> bool {
        true
    }

    open spec fn sub_req(self, other: Bitboard) -> bool {
        true
    }

    open spec fn sub_spec(self, other: Bitboard) -> Bitboard {
        Bitboard(wrapping_sub(self.0, other.0))
    }
}

/// The squares on which the pieces of one kind and side start the game.
pub open spec fn initial_squares(color: Color, kind: Piece) -> Set<int> {
    let back: int = if color == Color::White { 0 } else { 7 };
    let front: int = if color == Color::White { 1 } else { 6 };
    match kind {
        Piece::Pawn => Set::new(|i: int| 0 <= i < 64 && rank_of(i) == front),
        Piece::Knight => set![square_at(1, back), square_at(6, back)],
        Piece::Bishop => set![square_at(2, back), square_at(5, back)],
        Piece::Rook => set![square_at(0, back), square_at(7, back)],
        Piece::Queen => set![square_at(3, back)],
        Piece::King => set![square_at(4, back)],
    }
}

/// The squares of a whole file or rank.
pub open spec fn line_squares(l: Line) -> Set<int> {
    match l {
        Line::AtX(x) => Set::new(|i: int| 0 <= i < 64 && file_of(i) == x),
        Line::AtY(y) => Set::new(|i: int| 0 <= i < 64 && rank_of(i) == y),
    }
}

impl Bitboard {
    /// The set holds exactly one square.
    pub open spec fn is_square(self) -> bool {
        self.0 != 0 && self@ == set![highest_bit(self.0)]
    }

    /// The bit of the highest-numbered square of the set: of its only
    /// square, when it holds exactly one.
    pub open spec fn spec_index(self) -> int {
        highest_bit(self.0)
    }

    /// A set that holds the one square of bit `i` is the word with that bit alone.
    pub proof fn lemma_square(self, i: int)
        requires
            self@ == set![i],
        ensures
            self.is_square(),
            self.spec_index() == i,
            0 <= i < 64,
            self.0 == one_bit(i),
    {
        assert(self@.contains(i));
        if self.0 == 0 {
            lemma_bits_zero();
        }
        lemma_highest_bit(self.0);
        lemma_bits_one(i);
        crate::utils::lemma_bits_injective(self.0, one_bit(i));
    }

    /// The set that holds exactly the squares of `squares`, where these
    /// lie on the board.
    pub open spec fn of(squares: Set<int>) -> Bitboard {
        Bitboard(choose|w: u64| bits_of(w) == squares)
    }

    /// Every set is the set of its squares.
    pub proof fn lemma_of(self)
        ensures
            Bitboard::of(self@) == self,
    {
        let w = choose|w: u64| bits_of(w) == self@;
        assert(bits_of(self.0) == self@);
        crate::utils::lemma_bits_injective(w, self.0);
    }

    /// Where a word holds exactly the squares of `squares`, it is the set
    /// of these squares.
    pub proof fn lemma_of_word(w: u64, squares: Set<int>)
        requires
            bits_of(w) == squares,
        ensures
            Bitboard::of(squares) == Bitboard(w),
            Bitboard::of(squares)@ == squares,
    {
        Bitboard(w).lemma_of();
    }

    /// The word whose bits below bit `k` are the squares of `squares`.
    pub open spec fn word_below(squares: Set<int>, k: int) -> u64
        decreases k,
    {
        if k <= 0 {
            0
        } else if squares.contains(k - 1) {
            Bitboard::word_below(squares, k - 1) | one_bit(k - 1)
        } else {
            Bitboard::word_below(squares, k - 1)
        }
    }

    proof fn lemma_word_below(squares: Set<int>, k: int)
        requires
            0 <= k <= 64,
        ensures
            forall|i: int|
                #![trigger bits_of(Bitboard::word_below(squares, k)).contains(i)]
                bits_of(Bitboard::word_below(squares, k)).contains(i) <==> (0 <= i < k
                    && squares.contains(i)),
        decreases k,
    {
        if k > 0 {
            Bitboard::lemma_word_below(squares, k - 1);
            lemma_bits_one(k - 1);
            let before = Bitboard::word_below(squares, k - 1);
            let now = Bitboard::word_below(squares, k);
            assert forall|i: int|
                bits_of(now).contains(i) <==> (0 <= i < k && squares.contains(i)) by {
                assert(bits_of(before).contains(i) <==> (0 <= i < k - 1 && squares.contains(i)));
                if squares.contains(k - 1) {
                    assert(now == before | one_bit(k - 1));
                    assert(bits_of(now).contains(i) <==> (bits_of(before).contains(i) || i == k
                        - 1));
                } else {
                    assert(now == before);
                }
            }
        } else {
            lemma_bits_zero();
        }
    }

    /// The set of the squares of `squares` holds exactly these squares,
    /// where all of them lie on the board.
    pub proof fn lemma_of_view(squares: Set<int>)
        requires
            forall|i: int| squares.contains(i) ==> 0 <= i < 64,
        ensures
            Bitboard::of(squares)@ == squares,
    {
        Bitboard::lemma_word_below(squares, 64);
        let w = Bitboard::word_below(squares, 64);
        assert(bits_of(w) =~= squares);
        Bitboard::lemma_of_word(w, squares);
    }

    /// Whether the set holds exactly one square.
    pub fn is_single(self) -> (r: bool)
        ensures
            r == self.is_square(),
    {
        if self.0 == 0 {
            false
        } else {
            let rest = self.0 & self.0.wrapping_sub(1);
            proof {
                lemma_lowest_bit(self.0);
                lemma_highest_bit(self.0);
                lemma_zero_iff_empty(rest);
                let l = lowest_bit(self.0);
                if rest == 0 {
                    assert(self@ =~= set![l]);
                    self.lemma_square(l);
                } else {
                    lemma_lowest_bit(rest);
                    assert(self@.contains(lowest_bit(rest)) && lowest_bit(rest) != l);
                }
            }
            rest == 0
        }
    }

    /// The set whose eight ranks, from Black's back rank down, are the
    /// eight bytes; in each byte bit 7 is the a-file.
    pub fn from_bytes(bytes: [u8; 8]) -> (r: Bitboard)
        ensures
            forall|i: int| 0 <= i < 64 ==> (r@.contains(i) <==> bit(bytes[i / 8] as u64, i % 8)),
    {
        let mut acc: u64 = 0;
        let mut k: usize = 0;
        proof {
            lemma_bits_zero();
        }
        while k < 8
            invariant
                k <= 8,
                forall|i: int|
                    0 <= i < 64 ==> (bits_of(acc).contains(i) <==> (i / 8 < k && bit(
                        bytes[i / 8] as u64,
                        i % 8,
                    ))),
            decreases 8 - k,
        {
            let lane: u64 = (bytes[k] as u64) << (8 * k as u64);
            proof {
                lemma_lanes(bytes[k as int], k as u64);
                lemma_bitwise(acc, lane);
                assert forall|i: int| 0 <= i < 64 implies (bits_of(acc | lane).contains(i) <==> (i
                    / 8 < k + 1 && bit(bytes[i / 8] as u64, i % 8))) by {
                    let j = i as u64;
                    assert(bit_at(acc | lane, j) == (bit_at(acc, j) || bit_at(lane, j)));
                    assert(bit_at(lane, j) == (j / 8 == k && bit_at(bytes[k as int] as u64, j % 8)));
                }
            }
            acc = acc | lane;
            k += 1;
        }
        Bitboard(acc)
    }

    /// The bit of the highest-numbered square of a set that is not empty.
    pub fn to_index(self) -> (r: usize)
        requires
            self.0 != 0,
        ensures
            r == self.spec_index(),
            r < 64,
            self@.contains(r as int),
            forall|i: int| self@.contains(i) ==> i <= r,
    {
        proof {
            lemma_highest_bit(self.0);
            lemma_bits_bounded(self.0);
        }
        (63 - self.0.leading_zeros()) as usize
    }

    /// The rank of the highest-numbered square of a set that is not empty.
    pub fn rank(self) -> (r: usize)
        requires
            self.0 != 0,
        ensures
            r == rank_of(self.spec_index()),
            r < 8,
    {
        7 - self.to_index() / 8
    }

    /// The file of the highest-numbered square of a set that is not empty.
    pub fn file(self) -> (r: usize)
        requires
            self.0 != 0,
        ensures
            r == file_of(self.spec_index()),
            r < 8,
    {
        7 - self.to_index() % 8
    }

    /// File and rank of the highest-numbered square of a set that is not empty.
    pub fn coords(self) -> (r: (usize, usize))
        requires
            self.0 != 0,
        ensures
            r.0 == file_of(self.spec_index()),
            r.1 == rank_of(self.spec_index()),
            r.0 < 8,
            r.1 < 8,
    {
        (self.file(), self.rank())
    }

    /// The squares on which White's pieces of one kind start the game.
    pub fn initial_white(kind: Piece) -> (r: Bitboard)
        ensures
            r@ == initial_squares(Color::White, kind),
    {
        let r = match kind {
            Piece::Pawn => Bitboard::line(Line::AtY(1)),
            Piece::Knight => Bitboard::at(Square::xy(1, 0)) | Bitboard::at(Square::xy(6, 0)),
            Piece::Bishop => Bitboard::at(Square::xy(2, 0)) | Bitboard::at(Square::xy(5, 0)),
            Piece::Rook => Bitboard::at(Square::xy(0, 0)) | Bitboard::at(Square::xy(7, 0)),
            Piece::Queen => Bitboard::at(Square::xy(3, 0)),
            Piece::King => Bitboard::at(Square::xy(4, 0)),
        };
        assert(r@ =~= initial_squares(Color::White, kind));
        r
    }

    /// The squares on which the pieces of one kind and side start the game.
    pub fn initial(color: Color, kind: Piece) -> (r: Bitboard)
        ensures
            r@ == initial_squares(color, kind),
    {
        match color {
            Color::White => Bitboard::initial_white(kind),
            Color::Black => {
                let r = Bitboard::initial_white(kind).flip();
                assert(r@ =~= initial_squares(color, kind)) by {
                    assert forall|i: int| 0 <= i < 64 implies (initial_squares(
                        Color::White,
                        kind,
                    ).contains(byte_mirror(i)) <==> initial_squares(Color::Black, kind).contains(
                        i,
                    )) by {}
                }
                r
            },
        }
    }

    /// The set mirrored top to bottom: each square moves from rank `y` to
    /// rank `7 - y` on its file.
    pub fn flip(self) -> (r: Bitboard)
        ensures
            r.0 == byte_swapped(self.0),
            forall|i: int| 0 <= i < 64 ==> (r@.contains(i) <==> self@.contains(byte_mirror(i))),
            forall|x: int, y: int|
                crate::coords::on_board(x, y) ==> (r@.contains(#[trigger] square_at(x, y))
                    <==> self@.contains(square_at(x, 7 - y))),
    {
        let w = self.0;
        let r = Bitboard(
            ((w & 0xff) << 56) | ((w & 0xff00) << 40) | ((w & 0xff0000) << 24) | ((w & 0xff000000)
                << 8) | ((w >> 8) & 0xff000000) | ((w >> 24) & 0xff0000) | ((w >> 40) & 0xff00) | ((w
                >> 56) & 0xff),
        );
        proof {
            lemma_bits_byte_swapped(self.0);
            assert(r.0 == byte_swapped(self.0));
            assert forall|i: int| 0 <= i < 64 implies (r@.contains(i) <==> self@.contains(
                byte_mirror(i),
            )) by {
                assert(bit(byte_swapped(self.0), i) <==> bit(self.0, byte_mirror(i)));
            }
            assert forall|x: int, y: int| crate::coords::on_board(x, y) implies (r@.contains(
                #[trigger] square_at(x, y),
            ) <==> self@.contains(square_at(x, 7 - y))) by {
                assert(byte_mirror(square_at(x, y)) == square_at(x, 7 - y));
            }
        }
        r
    }

    /// The set without any square.
    pub fn empty() -> (r: Bitboard)
        ensures
            r.0 == 0,
            r@ == Set::<int>::empty(),
    {
        proof {
            lemma_bits_zero();
        }
        Bitboard(0)
    }

    /// The set holds a square.
    pub fn is_populated(self) -> (r: bool)
        ensures
            r == (self.0 != 0),
            r == (self@ != Set::<int>::empty()),
    {
        proof {
            lemma_zero_iff_empty(self.0);
        }
        self.0 != 0
    }

    /// The set holds no square.
    pub fn is_empty(self) -> (r: bool)
        ensures
            r == (self.0 == 0),
            r == (self@ == Set::<int>::empty()),
    {
        proof {
            lemma_zero_iff_empty(self.0);
        }
        self.0 == 0
    }

    /// The number of squares in the set.
    pub fn popcnt(self) -> (r: i32)
        ensures
            r == self@.len(),
            0 <= r <= 64,
    {
        let mut rest: u64 = self.0;
        let mut n: i32 = 0;
        proof {
            lemma_bits_bounded(self.0);
        }
        while rest != 0
            invariant
                0 <= n,
                bits_of(rest).finite(),
                n + bits_of(rest).len() == self@.len(),
                self@.len() <= 64,
            decreases bits_of(rest).len(),
        {
            proof {
                lemma_lowest_bit(rest);
                lemma_bits_bounded((rest & wrapping_sub(rest, 1)) as u64);
            }
            rest = rest & rest.wrapping_sub(1);
            n += 1;
        }
        proof {
            lemma_bits_zero();
        }
        n
    }

    /// The set that holds one square.
    pub fn at(point: Square) -> (r: Bitboard)
        requires
            point.valid(),
        ensures
            r@ == set![point.spec_index()],
            r.is_square(),
            r.spec_index() == point.spec_index(),
            r.0 == one_bit(point.spec_index()),
    {
        let r = Bitboard(1u64 << (63 - point.x - point.y * 8));
        proof {
            lemma_bits_one(point.spec_index());
            r.lemma_square(point.spec_index());
        }
        r
    }

    /// The squares of a whole file or rank.
    pub fn line(l: Line) -> (r: Bitboard)
        requires
            l matches Line::AtX(x) ==> x < 8,
            l matches Line::AtY(y) ==> y < 8,
        ensures
            r@ == line_squares(l),
    {
        match l {
            Line::AtX(x) => {
                let k: u64 = (7 - x) as u64;
                let r = Bitboard(0x0101010101010101u64 << k);
                proof {
                    lemma_lanes(0, k);
                    assert forall|i: int| r@.contains(i) <==> line_squares(l).contains(i) by {
                        if 0 <= i < 64 {
                            assert(bit_at(0x0101010101010101u64 << k, i as u64) == ((i as u64) % 8
                                == k));
                        }
                    }
                    assert(r@ =~= line_squares(l));
                }
                r
            },
            Line::AtY(y) => {
                let k: u64 = (7 - y) as u64;
                let r = Bitboard(0xffu64 << (8 * k));
                proof {
                    lemma_lanes(0, k);
                    assert forall|i: int| r@.contains(i) <==> line_squares(l).contains(i) by {
                        if 0 <= i < 64 {
                            assert(bit_at(0xffu64 << ((8 * k) as u64), i as u64) == ((i as u64) / 8
                                == k));
                        }
                    }
                    assert(r@ =~= line_squares(l));
                }
                r
            },
        }
    }

    /// The squares that lie in at least one of the sets.
    pub fn union<const N: usize>(boards: [Bitboard; N]) -> (r: Bitboard)
        ensures
            forall|i: int|
                r@.contains(i) <==> exists|k: int| 0 <= k < N && (#[trigger] boards[k])@.contains(i),
    {
        let mut pattern: u64 = 0;
        let mut n: usize = 0;
        proof {
            lemma_bits_zero();
        }
        while n < N
            invariant
                n <= N,
                forall|i: int|
                    bits_of(pattern).contains(i) <==> exists|k: int|
                        0 <= k < n && (#[trigger] boards[k])@.contains(i),
            decreases N - n,
        {
            let ghost before = pattern;
            pattern = pattern | boards[n].0;
            proof {
                assert forall|i: int| bits_of(pattern).contains(i) <==> exists|k: int|
                    0 <= k < n + 1 && (#[trigger] boards[k])@.contains(i) by {
                    if bits_of(before).contains(i) {
                        let k = choose|k: int| 0 <= k < n && (#[trigger] boards[k])@.contains(i);
                        assert(0 <= k < n + 1 && boards[k]@.contains(i));
                    }
                    if boards[n as int]@.contains(i) {
                        assert(0 <= n < n + 1 && boards[n as int]@.contains(i));
                    }
                }
            }
            n += 1;
        }
        Bitboard(pattern)
    }

    /// The squares that lie in every one of the sets.
    pub fn intersection<const N: usize>(boards: [Bitboard; N]) -> (r: Bitboard)
        ensures
            forall|i: int|
                r@.contains(i) <==> (0 <= i < 64 && forall|k: int|
                    0 <= k < N ==> (#[trigger] boards[k])@.contains(i)),
    {
        let mut pattern: u64 = !0u64;
        let mut n: usize = 0;
        proof {
            lemma_bits_zero();
            vstd::set_lib::lemma_int_range(0, 64);
        }
        while n < N
            invariant
                n <= N,
                forall|i: int|
                    bits_of(pattern).contains(i) <==> (0 <= i < 64 && forall|k: int|
                        0 <= k < n ==> (#[trigger] boards[k])@.contains(i)),
            decreases N - n,
        {
            pattern = pattern & boards[n].0;
            proof {
                assert forall|i: int| bits_of(pattern).contains(i) <==> (0 <= i < 64 && forall|
                    k: int,
                | 0 <= k < n + 1 ==> (#[trigger] boards[k])@.contains(i)) by {
                    if 0 <= i < 64 && forall|k: int|
                        0 <= k < n + 1 ==> (#[trigger] boards[k])@.contains(i) {
                        assert(boards[n as int]@.contains(i));
                    }
                }
            }
            n += 1;
        }
        Bitboard(pattern)
    }
}

} // verus!
