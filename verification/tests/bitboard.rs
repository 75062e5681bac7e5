use chess_for_crabs::bitboard::Bitboard;
use chess_for_crabs::coords::{Line, Square};
use chess_for_crabs::piece::{Color, Piece};
use chess_for_crabs::utils::{lsb, msb};

#[test]
fn bb_rank_file() {
    for x in 0..8 {
        for y in 0..8 {
            let bb = Bitboard::at(Square::xy(x, y));
            assert!(bb.file() == x as usize);
            assert!(bb.rank() == y as usize);
        }
    }
}

#[test]
fn at_numbers_squares_from_h8_up_to_a1() {
    assert_eq!(Bitboard::at(Square::xy(0, 0)), Bitboard(1 << 63));
    assert_eq!(Bitboard::at(Square::xy(7, 7)), Bitboard(1));
    assert_eq!(Bitboard::at(Square::xy(4, 0)), Bitboard(1 << 59));
    assert_eq!(Bitboard::at(Square::xy(4, 0)).to_index(), 59);
    assert_eq!(Bitboard::at(Square::xy(3, 6)).coords(), (3, 6));
}

#[test]
fn from_bytes_puts_the_first_byte_on_the_eighth_rank() {
    assert_eq!(Bitboard::from_bytes([0b1000_0000, 0, 0, 0, 0, 0, 0, 0]), Bitboard::at(Square::xy(0, 7)));
    assert_eq!(Bitboard::from_bytes([0, 0, 0, 0, 0, 0, 0, 0b0000_1000]), Bitboard::at(Square::xy(4, 0)));
    assert_eq!(
        Bitboard::from_bytes([1, 2, 3, 4, 5, 6, 7, 8]),
        Bitboard(u64::from_le_bytes([1, 2, 3, 4, 5, 6, 7, 8]))
    );
}

#[test]
fn lines_hold_eight_squares() {
    assert_eq!(Bitboard::line(Line::AtY(0)), Bitboard(0xff00_0000_0000_0000));
    assert_eq!(Bitboard::line(Line::AtY(7)), Bitboard(0xff));
    assert_eq!(Bitboard::line(Line::AtX(0)), Bitboard(0x8080_8080_8080_8080));
    assert_eq!(Bitboard::line(Line::AtX(7)), Bitboard(0x0101_0101_0101_0101));
    for i in 0..8 {
        assert_eq!(Bitboard::line(Line::AtX(i)).popcnt(), 8);
        assert_eq!(Bitboard::line(Line::AtY(i)).popcnt(), 8);
    }
}

#[test]
fn initial_sets_match_the_starting_layout() {
    assert_eq!(Bitboard::initial_white(Piece::Pawn), Bitboard::from_bytes([0, 0, 0, 0, 0, 0, 0xff, 0]));
    assert_eq!(Bitboard::initial_white(Piece::Knight), Bitboard::from_bytes([0, 0, 0, 0, 0, 0, 0, 0b0100_0010]));
    assert_eq!(Bitboard::initial_white(Piece::Bishop), Bitboard::from_bytes([0, 0, 0, 0, 0, 0, 0, 0b0010_0100]));
    assert_eq!(Bitboard::initial_white(Piece::Rook), Bitboard::from_bytes([0, 0, 0, 0, 0, 0, 0, 0b1000_0001]));
    assert_eq!(Bitboard::initial_white(Piece::Queen), Bitboard::from_bytes([0, 0, 0, 0, 0, 0, 0, 0b0001_0000]));
    assert_eq!(Bitboard::initial_white(Piece::King), Bitboard::from_bytes([0, 0, 0, 0, 0, 0, 0, 0b0000_1000]));
    assert_eq!(Bitboard::initial(Color::Black, Piece::Pawn), Bitboard::from_bytes([0, 0xff, 0, 0, 0, 0, 0, 0]));
    assert_eq!(Bitboard::initial(Color::Black, Piece::King), Bitboard::from_bytes([0b0000_1000, 0, 0, 0, 0, 0, 0, 0]));
    assert_eq!(Bitboard::initial(Color::White, Piece::Queen), Bitboard::initial_white(Piece::Queen));
}

#[test]
fn flip_mirrors_top_to_bottom() {
    for x in 0..8 {
        for y in 0..8 {
            assert_eq!(Bitboard::at(Square::xy(x, y)).flip(), Bitboard::at(Square::xy(x, 7 - y)));
        }
    }
    assert_eq!(Bitboard(0x0123_4567_89ab_cdef).flip(), Bitboard(0xefcd_ab89_6745_2301));
    assert_eq!(Bitboard(0x0123_4567_89ab_cdef).flip().flip(), Bitboard(0x0123_4567_89ab_cdef));
}

#[test]
fn set_operations() {
    let a = Bitboard(0b1100);
    let b = Bitboard(0b1010);
    assert_eq!(a & b, Bitboard(0b1000));
    assert_eq!(a | b, Bitboard(0b1110));
    assert_eq!(a ^ b, Bitboard(0b0110));
    assert_eq!(!a, Bitboard(!0b1100u64));
    assert_eq!(a - b, Bitboard(2));
    assert_eq!(b - a, Bitboard(u64::MAX - 1));
    assert_eq!(Bitboard::default(), Bitboard::empty());
    assert!(Bitboard::empty().is_empty());
    assert!(!Bitboard::empty().is_populated());
    assert!(a.is_populated());
    assert!(!a.is_empty());
}

#[test]
fn popcnt_counts_squares() {
    assert_eq!(Bitboard(0).popcnt(), 0);
    assert_eq!(Bitboard(u64::MAX).popcnt(), 64);
    assert_eq!(Bitboard(0x8000_0000_0000_0001).popcnt(), 2);
    assert_eq!(Bitboard(0x0f0f).popcnt(), 8);
}

#[test]
fn union_and_intersection_of_many() {
    let a = Bitboard(0b0110);
    let b = Bitboard(0b0011);
    let c = Bitboard(0b1010);
    assert_eq!(Bitboard::union([a, b, c]), Bitboard(0b1111));
    assert_eq!(Bitboard::intersection([a, b, c]), Bitboard(0b0010));
    assert_eq!(Bitboard::union::<0>([]), Bitboard(0));
    assert_eq!(Bitboard::intersection::<0>([]), Bitboard(u64::MAX));
}

#[test]
fn occupied_hands_out_squares_lowest_bit_first() {
    let mut it = Bitboard(0b1001_0100).occupied();
    assert_eq!(it.next(), Some(Bitboard(0b100)));
    assert_eq!(it.next(), Some(Bitboard(0b1_0000)));
    assert_eq!(it.next(), Some(Bitboard(0b1000_0000)));
    assert_eq!(it.next(), None);
    assert_eq!(it.next(), None);
    let mut top = Bitboard(1 << 63).occupied();
    assert_eq!(top.next(), Some(Bitboard(1 << 63)));
    assert_eq!(top.next(), None);
}

#[test]
fn lowest_and_highest_bit() {
    assert_eq!(lsb(0), 0);
    assert_eq!(msb(0), 0);
    assert_eq!(lsb(0b0110_1000), 0b1000);
    assert_eq!(msb(0b0110_1000), 0b0100_0000);
    assert_eq!(lsb(u64::MAX), 1);
    assert_eq!(msb(u64::MAX), 1 << 63);
}

#[test]
fn squares_and_pieces() {
    assert_eq!(Square::xy_checked(3, 4), Some(Square { x: 3, y: 4 }));
    assert_eq!(Square::xy_checked(-1, 4), None);
    assert_eq!(Square::xy_checked(3, 8), None);
    assert_eq!(Square::xy_checked(8, 0), None);
    assert_eq!(Square::xy_checked(0, -1), None);
    assert_eq!(Square::algebraic('e', 3), Some(Square { x: 4, y: 3 }));
    assert_eq!(Square::algebraic('i', 3), None);
    assert_eq!(Square::algebraic('`', 3), None);
    assert_eq!(Square::algebraic('a', 8), None);
    assert_eq!(Square::xy(0, 0).index(), 63);
    assert_eq!(Square::xy(7, 7).index(), 0);
    assert_eq!(Square::xy(2, 5).index(), 63 - 2 - 40);
    for p in Piece::list() {
        assert_eq!(Piece::from_algebraic(p.algebraic()), Some(p));
    }
    assert_eq!(Piece::from_algebraic('x'), None);
    assert_eq!(Piece::Knight.algebraic(), 'N');
    assert_eq!(Color::list(), [Color::Black, Color::White]);
    assert_eq!(Color::White.opponent(), Color::Black);
    assert_eq!(Color::Black.opponent(), Color::White);
    assert_eq!(Color::White.advance_direction(), 1);
    assert_eq!(Color::Black.advance_direction(), -1);
}
