use chess_for_crabs::bitboard::Bitboard;
use chess_for_crabs::board::{Board, IllegalMove};
use chess_for_crabs::coords::Square;
use chess_for_crabs::eval::{Evaluator, MaterialCount};
use chess_for_crabs::moves::{AlgebraicMove, Move, SimpleAlgebraicMove, SimpleMove};
use chess_for_crabs::patterns::Tables;
use chess_for_crabs::piece::{Color, Piece};
use chess_for_crabs::search::IDAB;

fn sq(name: &str) -> Square {
    let b = name.as_bytes();
    Square::xy((b[0] - b'a') as i32, (b[1] - b'1') as i32)
}

fn at(name: &str) -> Bitboard {
    Bitboard::at(sq(name))
}

fn go(piece: Piece, to: &str) -> AlgebraicMove {
    AlgebraicMove::Simple(SimpleAlgebraicMove {
        piece,
        disambiguate: (None, None),
        dst_square: sq(to),
        captures: false,
        check: false,
        checkmate: false,
        promotion: None,
    })
}

fn take(piece: Piece, to: &str) -> AlgebraicMove {
    AlgebraicMove::Simple(SimpleAlgebraicMove {
        piece,
        disambiguate: (None, None),
        dst_square: sq(to),
        captures: true,
        check: false,
        checkmate: false,
        promotion: None,
    })
}

fn from_file(mv: AlgebraicMove, file: u8) -> AlgebraicMove {
    match mv {
        AlgebraicMove::Simple(m) => AlgebraicMove::Simple(SimpleAlgebraicMove {
            disambiguate: (Some(file), m.disambiguate.1),
            ..m
        }),
        other => other,
    }
}

fn promote(mv: AlgebraicMove, to: Piece) -> AlgebraicMove {
    match mv {
        AlgebraicMove::Simple(m) => AlgebraicMove::Simple(SimpleAlgebraicMove { promotion: Some(to), ..m }),
        other => other,
    }
}

fn play(tables: &Tables, board: Board, moves: &[AlgebraicMove]) -> Board {
    let mut b = board;
    for alg in moves {
        let mv = b.is_legal(tables, alg).unwrap();
        b = b.apply(&mv);
    }
    b
}

fn put(board: &mut Board, color: Color, piece: Piece, name: &str) {
    let bb = at(name);
    match color {
        Color::White => board.white = board.white | bb,
        Color::Black => board.black = board.black | bb,
    }
    match piece {
        Piece::Pawn => board.pawns = board.pawns | bb,
        Piece::Knight => board.knights = board.knights | bb,
        Piece::Bishop => board.bishops = board.bishops | bb,
        Piece::Rook => board.rooks = board.rooks | bb,
        Piece::Queen => board.queens = board.queens | bb,
        Piece::King => board.kings = board.kings | bb,
    }
}

fn legal_moves(tables: &Tables, board: &Board) -> Vec<Move> {
    let mut all = Vec::new();
    board.pre_legal_moves(tables, &mut all);
    all.into_iter().filter(|m| !board.apply(m).in_check(tables, board.player)).collect()
}

fn walk(occ: Bitboard, x: i32, y: i32, dirs: &[(i32, i32)]) -> Bitboard {
    let mut seen = Bitboard::empty();
    for (dx, dy) in dirs {
        let (mut cx, mut cy) = (x + dx, y + dy);
        while let Some(s) = Square::xy_checked(cx, cy) {
            let b = Bitboard::at(s);
            seen = seen | b;
            if (occ & b).is_populated() {
                break;
            }
            cx += dx;
            cy += dy;
        }
    }
    seen
}

const ROOK_DIRS: [(i32, i32); 4] = [(1, 0), (-1, 0), (0, 1), (0, -1)];
const BISHOP_DIRS: [(i32, i32); 4] = [(1, 1), (-1, 1), (1, -1), (-1, -1)];

fn naive(tables: &Tables, pos: Board, player: Color, depth: u64) -> i64 {
    if depth == 0 {
        return MaterialCount().evaluate(&pos);
    }
    let mut moves = Vec::new();
    pos.pre_legal_moves(tables, &mut moves);
    if moves.is_empty() {
        return if pos.in_check(tables, pos.player) {
            match pos.player {
                Color::White => i64::MIN,
                Color::Black => i64::MAX,
            }
        } else {
            0
        };
    }
    let mut best = match player {
        Color::White => i64::MIN,
        Color::Black => i64::MAX,
    };
    for m in moves.iter() {
        let s = naive(tables, pos.apply(m), player.opponent(), depth - 1);
        best = match player {
            Color::White => best.max(s),
            Color::Black => best.min(s),
        };
    }
    best
}

#[test]
fn sliding_reach_matches_a_walk_along_each_ray() {
    let tables = Tables::new();
    let mut boards = vec![Board::initial(), Board::empty()];
    boards.push(play(
        &tables,
        Board::initial(),
        &[go(Piece::Pawn, "e4"), go(Piece::Pawn, "e5"), go(Piece::Knight, "f3"), go(Piece::Knight, "c6"), go(Piece::Bishop, "b5"), go(Piece::Pawn, "a6")],
    ));
    let mut scattered = Board::empty();
    scattered.white = Bitboard(0x0040_2010_0804_a201);
    scattered.black = Bitboard(0x8100_0042_2400_0018);
    boards.push(scattered);
    for b in boards.iter() {
        let occ = b.occupancy();
        for x in 0..8 {
            for y in 0..8 {
                let s = Bitboard::at(Square::xy(x, y));
                assert_eq!(b.rook_reach(&tables, s), walk(occ, x, y, &ROOK_DIRS));
                assert_eq!(b.bishop_reach(&tables, s), walk(occ, x, y, &BISHOP_DIRS));
                assert_eq!(
                    b.queen_reach(&tables, s),
                    walk(occ, x, y, &ROOK_DIRS) | walk(occ, x, y, &BISHOP_DIRS)
                );
            }
        }
    }
}

#[test]
fn attackers_match_a_walk_from_the_attacked_square() {
    let tables = Tables::new();
    let b = play(
        &tables,
        Board::initial(),
        &[go(Piece::Pawn, "e4"), go(Piece::Pawn, "d5"), go(Piece::Bishop, "c4"), go(Piece::Queen, "d6")],
    );
    for color in Color::list() {
        for x in 0..8 {
            for y in 0..8 {
                let t = Bitboard::at(Square::xy(x, y));
                let own = b.color_set(color);
                let occ = b.occupancy();
                let rooks = walk(occ, x, y, &ROOK_DIRS) & own & (b.rooks | b.queens);
                let bishops = walk(occ, x, y, &BISHOP_DIRS) & own & (b.bishops | b.queens);
                let mut jumps = Bitboard::empty();
                for (dx, dy) in [(1, 2), (2, 1), (-1, 2), (-2, 1), (1, -2), (2, -1), (-1, -2), (-2, -1)] {
                    if let Some(s) = Square::xy_checked(x + dx, y + dy) {
                        jumps = jumps | Bitboard::at(s);
                    }
                }
                let mut near = Bitboard::empty();
                for dx in -1..=1 {
                    for dy in -1..=1 {
                        if (dx, dy) != (0, 0) {
                            if let Some(s) = Square::xy_checked(x + dx, y + dy) {
                                near = near | Bitboard::at(s);
                            }
                        }
                    }
                }
                let mut pawns = Bitboard::empty();
                for dx in [-1, 1] {
                    if let Some(s) = Square::xy_checked(x + dx, y - color.advance_direction()) {
                        pawns = pawns | Bitboard::at(s);
                    }
                }
                let expected = rooks | bishops | (jumps & own & b.knights) | (near & own & b.kings) | (pawns & own & b.pawns);
                assert_eq!(b.capture_to(&tables, color, t), expected);
            }
        }
    }
}

#[test]
fn knight_and_king_reach() {
    let tables = Tables::new();
    let b = Board::initial();
    assert_eq!(b.knight_reach(&tables, at("b1")), at("a3") | at("c3") | at("d2"));
    assert_eq!(b.knight_reach(&tables, at("e4")).popcnt(), 8);
    assert_eq!(b.king_reach(&tables, at("e1")), at("d1") | at("d2") | at("e2") | at("f2") | at("f1"));
    assert_eq!(b.king_reach(&tables, at("a8")), at("a7") | at("b7") | at("b8"));
    assert_eq!(tables.pawn_attacks(Color::White, at("e4")), at("d5") | at("f5"));
    assert_eq!(tables.pawn_attacks(Color::Black, at("a7")), at("b6"));
    assert_eq!(tables.pawn_single_moves(Color::White, at("e2")), at("e3"));
    assert_eq!(tables.pawn_double_moves(Color::White, at("e2")), at("e4"));
    assert_eq!(tables.pawn_double_moves(Color::White, at("e3")), Bitboard::empty());
    assert_eq!(tables.pawn_double_moves(Color::Black, at("c7")), at("c5"));
    assert_eq!(tables.rev_pawn_moves(Color::White, at("e4")), at("e3"));
    assert_eq!(tables.rev_pawn_dbl_moves(Color::White, at("e4")), at("e2"));
    assert_eq!(tables.rev_pawn_attacks(Color::Black, at("e4")), at("d5") | at("f5"));
    assert_eq!(tables.files(at("c5")), Bitboard::from_bytes([0x20; 8]));
    assert_eq!(tables.ranks(at("c1")), Bitboard::from_bytes([0, 0, 0, 0, 0, 0, 0, 0xff]));
    assert_eq!(tables.nw_diagonals(at("a1")).popcnt(), 8);
    assert_eq!(tables.sw_diagonals(at("a1")), at("a1"));
    assert_eq!(tables.rank_attacks(0, 0), Bitboard(0x7f));
    assert_eq!(tables.rank_attacks(3, 0b100100), Bitboard(0b0110_1000));
    assert_eq!(tables.rank_attacks(7, 0b000001), Bitboard(0b0000_0010));
    let info = tables.pawn_ep_info(Color::White, 5);
    assert_eq!(info.kill_square, at("e5"));
    assert_eq!(info.target_square, at("e6"));
    assert_eq!(info.source_squares, at("d5") | at("f5"));
    let none = tables.pawn_ep_info(Color::Black, 0);
    assert!(none.kill_square.is_empty() && none.target_square.is_empty() && none.source_squares.is_empty());
}

#[test]
fn the_initial_position() {
    let b = Board::initial();
    assert!(b.is_well_formed());
    assert_eq!(b.occupancy(), Bitboard(0xffff_0000_0000_ffff));
    assert_eq!(b.white, Bitboard(0xffff_0000_0000_0000));
    assert_eq!(b.kings, at("e1") | at("e8"));
    assert_eq!(b.player, Color::White);
    assert_eq!(b.castling_rights, 15);
    assert_eq!(b.en_passant, 0);
    for c in Color::list() {
        assert!(b.short_castling_allowed(c));
        assert!(b.long_castling_allowed(c));
    }
    let e = Board::empty();
    assert!(e.is_well_formed());
    assert!(e.occupancy().is_empty());
    assert!(!e.short_castling_allowed(Color::White));
    let tables = Tables::new();
    let mut moves = Vec::new();
    b.pre_legal_moves(&tables, &mut moves);
    assert_eq!(moves.len(), 20);
    assert_eq!(legal_moves(&tables, &b).len(), 20);
    let mut again = Vec::new();
    b.pre_legal_moves(&tables, &mut again);
    assert_eq!(moves, again);
}

#[test]
fn a_board_with_two_pieces_on_a_square_is_not_well_formed() {
    let mut b = Board::initial();
    b.knights = b.knights | at("e1");
    assert!(!b.is_well_formed());
    let mut c = Board::initial();
    c.white = c.white | at("e8");
    assert!(!c.is_well_formed());
    let mut d = Board::initial();
    d.pawns = d.pawns | at("e4");
    assert!(!d.is_well_formed());
    let mut e = Board::initial();
    e.en_passant = 9;
    assert!(!e.is_well_formed());
    let mut f = Board::initial();
    f.castling_rights = 16;
    assert!(!f.is_well_formed());
}

#[test]
fn apply_moves_the_piece_and_passes_the_turn() {
    let tables = Tables::new();
    let b = Board::initial();
    let mv = b.is_legal(&tables, &go(Piece::Pawn, "e4")).unwrap();
    assert_eq!(
        mv,
        Move::Simple(SimpleMove { delete: at("e2") | at("e4"), piece: Piece::Pawn, add: at("e4") })
    );
    let after = b.apply(&mv);
    assert_eq!(after.player, Color::Black);
    assert_eq!(after.pawns, (b.pawns ^ at("e2")) | at("e4"));
    assert_eq!(after.white, (b.white ^ at("e2")) | at("e4"));
    assert_eq!(after.black, b.black);
    assert_eq!(after.en_passant, 5);
    assert_eq!(after.castling_rights, 15);
    assert_eq!(b.player, Color::White);
    assert!(after.is_well_formed());
}

#[test]
fn queen_raid_scenario() {
    let tables = Tables::new();
    let b = play(
        &tables,
        Board::initial(),
        &[go(Piece::Pawn, "e4"), go(Piece::Pawn, "e5"), go(Piece::Queen, "h5")],
    );
    assert_eq!(b.queens & b.white, at("h5"));
    let b = play(&tables, b, &[go(Piece::Knight, "c6")]);
    assert_eq!(
        b.is_legal(&tables, &take(Piece::Queen, "e5")),
        Ok(Move::Simple(SimpleMove { delete: at("h5") | at("e5"), piece: Piece::Queen, add: at("e5") }))
    );
    assert_eq!(
        b.is_legal(&tables, &take(Piece::Queen, "h7")),
        Ok(Move::Simple(SimpleMove { delete: at("h5") | at("h7"), piece: Piece::Queen, add: at("h7") }))
    );
    assert_eq!(b.is_legal(&tables, &go(Piece::Queen, "e5")), Err(IllegalMove::CaptureMismatch));
    assert_eq!(b.is_legal(&tables, &take(Piece::Queen, "h6")), Err(IllegalMove::CaptureMismatch));
    assert_eq!(b.is_legal(&tables, &take(Piece::Queen, "h8")), Err(IllegalMove::Unreachable));
    assert_eq!(b.is_legal(&tables, &take(Piece::Queen, "d8")), Err(IllegalMove::Unreachable));
    assert_eq!(b.is_legal(&tables, &go(Piece::Queen, "h2")), Err(IllegalMove::OccupiedSquare));
}

#[test]
fn fools_mate() {
    let tables = Tables::new();
    let b = play(
        &tables,
        Board::initial(),
        &[go(Piece::Pawn, "f3"), go(Piece::Pawn, "e5"), go(Piece::Pawn, "g4"), go(Piece::Queen, "h4")],
    );
    assert_eq!(b.player, Color::White);
    assert!(b.in_check(&tables, Color::White));
    assert!(!b.in_check(&tables, Color::Black));
    assert_eq!(legal_moves(&tables, &b).len(), 0);
    let mut search = IDAB::new(MaterialCount());
    let score = search.evaluate(&tables, b, Color::White, 2, i64::MIN, i64::MAX);
    assert_eq!(score, -(u32::MAX as i64));
    assert_eq!(search.evaluate(&tables, b, Color::White, 0, i64::MIN, i64::MAX), 0);
}

#[test]
fn a_side_without_moves_scores_as_mated_or_drawn() {
    let tables = Tables::new();
    let mut stuck = Board::empty();
    put(&mut stuck, Color::White, Piece::Pawn, "a2");
    put(&mut stuck, Color::Black, Piece::Pawn, "a3");
    let mut none = Vec::new();
    stuck.pre_legal_moves(&tables, &mut none);
    assert!(none.is_empty());
    let mut search = IDAB::new(MaterialCount());
    assert_eq!(search.evaluate(&tables, stuck, Color::White, 3, i64::MIN, i64::MAX), 0);
    assert_eq!(search.searched_positions, 1);
    let mut mated = Board::empty();
    put(&mut mated, Color::White, Piece::King, "a1");
    put(&mut mated, Color::White, Piece::Rook, "a2");
    for name in ["a3", "a4", "a5", "a6", "a7", "a8", "b1", "b2"] {
        put(&mut mated, Color::White, Piece::Pawn, name);
    }
    put(&mut mated, Color::Black, Piece::Knight, "b3");
    put(&mut mated, Color::Black, Piece::King, "h8");
    assert!(mated.is_well_formed());
    let mut none = Vec::new();
    mated.pre_legal_moves(&tables, &mut none);
    assert!(none.is_empty());
    assert!(mated.in_check(&tables, Color::White));
    for depth in 1..4 {
        assert_eq!(search.evaluate(&tables, mated, Color::White, depth, i64::MIN, i64::MAX), i64::MIN);
    }
    assert_eq!(search.evaluate(&tables, mated, Color::White, 0, i64::MIN, i64::MAX), 500 + 800 - 320);
    let mut black = Board::empty();
    put(&mut black, Color::Black, Piece::King, "h8");
    put(&mut black, Color::Black, Piece::Rook, "h7");
    for name in ["h6", "h5", "h4", "h3", "h2", "h1", "g8", "g7"] {
        put(&mut black, Color::Black, Piece::Pawn, name);
    }
    put(&mut black, Color::White, Piece::Knight, "g6");
    black.player = Color::Black;
    let mut none = Vec::new();
    black.pre_legal_moves(&tables, &mut none);
    assert!(none.is_empty());
    assert_eq!(search.evaluate(&tables, black, Color::Black, 2, i64::MIN, i64::MAX), i64::MAX);
}

#[test]
fn search_with_the_full_window_equals_plain_minimax() {
    let tables = Tables::new();
    let b = Board::initial();
    let mut search = IDAB::new(MaterialCount());
    let first = search.evaluate(&tables, b, Color::White, 3, i64::MIN, i64::MAX);
    let counted = search.searched_positions;
    let second = search.evaluate(&tables, b, Color::White, 3, i64::MIN, i64::MAX);
    assert_eq!(first, second);
    assert_eq!(search.searched_positions, 2 * counted);
    assert_eq!(first, naive(&tables, b, Color::White, 3));
    assert_eq!(first, 0);
    let open = play(
        &tables,
        b,
        &[go(Piece::Pawn, "e4"), go(Piece::Pawn, "d5"), go(Piece::Knight, "c3"), go(Piece::Pawn, "d4")],
    );
    for depth in 0..4 {
        let mut s = IDAB::new(MaterialCount());
        assert_eq!(
            s.evaluate(&tables, open, open.player, depth, i64::MIN, i64::MAX),
            naive(&tables, open, open.player, depth)
        );
    }
    let mut narrow = IDAB::new(MaterialCount());
    let exact = naive(&tables, open, open.player, 2);
    assert!(narrow.evaluate(&tables, open, open.player, 2, exact - 1, exact + 1) == exact);
    assert!(narrow.evaluate(&tables, open, open.player, 2, exact + 50, exact + 60) <= exact + 50);
    assert!(narrow.evaluate(&tables, open, open.player, 2, exact - 60, exact - 50) >= exact - 50);
}

#[test]
fn material_count() {
    let mut ev = MaterialCount();
    assert_eq!(ev.evaluate(&Board::initial()), 0);
    assert_eq!(ev.evaluate(&Board::empty()), 0);
    let mut b = Board::initial();
    b.black = b.black ^ at("d8");
    b.queens = b.queens ^ at("d8");
    assert_eq!(ev.evaluate(&b), 900);
    b.white = b.white ^ at("a1") ^ at("b1") ^ at("c1") ^ at("a2");
    b.rooks = b.rooks ^ at("a1");
    b.knights = b.knights ^ at("b1");
    b.bishops = b.bishops ^ at("c1");
    b.pawns = b.pawns ^ at("a2");
    assert_eq!(ev.evaluate(&b), 900 - 500 - 320 - 330 - 100);
    b.white = b.white ^ at("e1");
    b.kings = b.kings ^ at("e1");
    assert_eq!(ev.evaluate(&b), 900 - 500 - 320 - 330 - 100 - 4294967295);
}

#[test]
fn castling_edge_cases() {
    let tables = Tables::new();
    let long = AlgebraicMove::CastleLong { check: false, checkmate: false };
    let short = AlgebraicMove::CastleShort { check: false, checkmate: false };
    let b = Board::initial();
    assert_eq!(b.is_legal(&tables, &short), Err(IllegalMove::CastlingThroughPiece));
    assert_eq!(b.is_legal(&tables, &long), Err(IllegalMove::CastlingThroughPiece));
    let mut open = Board::empty();
    put(&mut open, Color::White, Piece::King, "e1");
    put(&mut open, Color::White, Piece::Rook, "a1");
    put(&mut open, Color::White, Piece::Rook, "h1");
    put(&mut open, Color::Black, Piece::King, "e8");
    put(&mut open, Color::Black, Piece::Rook, "a8");
    put(&mut open, Color::Black, Piece::Rook, "h8");
    assert_eq!(open.is_legal(&tables, &short), Err(IllegalMove::NoCastlingPermissions));
    open.castling_rights = 15;
    assert_eq!(open.is_legal(&tables, &short), Ok(Move::CastleShort));
    assert_eq!(open.is_legal(&tables, &long), Ok(Move::CastleLong));
    let castled = open.apply(&Move::CastleShort);
    assert_eq!(castled.kings & castled.white, at("g1"));
    assert_eq!(castled.rooks & castled.white, at("f1") | at("a1"));
    assert_eq!(castled.castling_rights, 3);
    assert_eq!(castled.player, Color::Black);
    let castled = open.apply(&Move::CastleLong);
    assert_eq!(castled.kings & castled.white, at("c1"));
    assert_eq!(castled.rooks & castled.white, at("d1") | at("h1"));
    assert_eq!(castled.castling_rights, 3);
    let mut black = open;
    black.player = Color::Black;
    let castled = black.apply(&Move::CastleLong);
    assert_eq!(castled.kings & castled.black, at("c8"));
    assert_eq!(castled.rooks & castled.black, at("d8") | at("h8"));
    assert_eq!(castled.castling_rights, 12);
    let mut watched = open;
    put(&mut watched, Color::Black, Piece::Bishop, "a6");
    assert_eq!(watched.is_legal(&tables, &short), Err(IllegalMove::CastlingThroughCheck));
    assert_eq!(watched.is_legal(&tables, &long), Ok(Move::CastleLong));
    let mut checked = open;
    put(&mut checked, Color::Black, Piece::Knight, "d3");
    assert_eq!(checked.is_legal(&tables, &short), Err(IllegalMove::CastlingThroughCheck));
    assert_eq!(checked.is_legal(&tables, &long), Err(IllegalMove::CastlingThroughCheck));
    let mut landing = open;
    put(&mut landing, Color::Black, Piece::Rook, "g5");
    assert_eq!(landing.is_legal(&tables, &short), Err(IllegalMove::InCheck));
    let mut blocked = open;
    put(&mut blocked, Color::White, Piece::Knight, "b1");
    assert_eq!(blocked.is_legal(&tables, &long), Err(IllegalMove::CastlingThroughPiece));
    assert_eq!(blocked.is_legal(&tables, &short), Ok(Move::CastleShort));
    let there_and_back = play(
        &tables,
        open,
        &[go(Piece::Rook, "h2"), go(Piece::King, "d8"), go(Piece::Rook, "h1"), go(Piece::King, "e8")],
    );
    assert_eq!(there_and_back.rooks, open.rooks);
    assert_eq!(there_and_back.kings, open.kings);
    assert_eq!(there_and_back.castling_rights, 4);
    assert_eq!(there_and_back.is_legal(&tables, &short), Err(IllegalMove::NoCastlingPermissions));
    assert_eq!(there_and_back.is_legal(&tables, &long), Ok(Move::CastleLong));
    let taken = play(&tables, open, &[take(Piece::Rook, "a8")]);
    assert_eq!(taken.castling_rights, 8 | 2);
    let mut moves = Vec::new();
    open.king_moves(&tables, &mut moves);
    assert_eq!(moves.len(), 7);
    assert_eq!(moves[5], Move::CastleShort);
    assert_eq!(moves[6], Move::CastleLong);
}

#[test]
fn en_passant_window() {
    let tables = Tables::new();
    let b = play(
        &tables,
        Board::initial(),
        &[go(Piece::Pawn, "e4"), go(Piece::Pawn, "a6"), go(Piece::Pawn, "e5"), go(Piece::Pawn, "d5")],
    );
    assert_eq!(b.en_passant, 4);
    let capture = from_file(take(Piece::Pawn, "d6"), 4);
    let mv = b.is_legal(&tables, &capture).unwrap();
    assert_eq!(
        mv,
        Move::Simple(SimpleMove { delete: at("e5") | at("d5"), piece: Piece::Pawn, add: at("d6") })
    );
    assert_eq!(
        mv,
        Move::Simple(SimpleMove { delete: Bitboard((1 << 27) | (1 << 28)), piece: Piece::Pawn, add: Bitboard(1 << 20) })
    );
    match capture {
        AlgebraicMove::Simple(ref described) => assert_eq!(b.is_pre_legal(&tables, described), Ok(mv)),
        _ => panic!("a pawn's capture is no castling"),
    }
    let after = b.apply(&mv);
    assert_eq!(after.occupancy() & (at("e5") | at("d5")), Bitboard::empty());
    assert_eq!(after.pawns & after.black & at("d5"), Bitboard::empty());
    assert_eq!(after.pawns & after.white & at("d6"), at("d6"));
    assert_eq!(after.en_passant, 0);
    assert!(after.is_well_formed());
    assert_eq!(b.is_legal(&tables, &take(Piece::Pawn, "f6")), Err(IllegalMove::CaptureMismatch));
    assert_eq!(b.is_legal(&tables, &go(Piece::Pawn, "d6")), Err(IllegalMove::Unreachable));
    let mut generated = Vec::new();
    b.pawn_moves(&tables, &mut generated);
    assert!(generated.contains(&mv));
    let later = play(&tables, b, &[go(Piece::Pawn, "h3"), go(Piece::Pawn, "h6")]);
    assert_eq!(later.en_passant, 0);
    assert_eq!(later.is_legal(&tables, &capture), Err(IllegalMove::CaptureMismatch));
    let mut generated = Vec::new();
    later.pawn_moves(&tables, &mut generated);
    assert!(!generated.contains(&mv));
    let black = play(
        &tables,
        Board::initial(),
        &[go(Piece::Pawn, "a3"), go(Piece::Pawn, "h5"), go(Piece::Pawn, "a4"), go(Piece::Pawn, "h4"), go(Piece::Pawn, "g4")],
    );
    assert_eq!(black.en_passant, 7);
    let mv = black.is_legal(&tables, &take(Piece::Pawn, "g3")).unwrap();
    assert_eq!(
        mv,
        Move::Simple(SimpleMove { delete: at("h4") | at("g4"), piece: Piece::Pawn, add: at("g3") })
    );
    let single = play(&tables, Board::initial(), &[go(Piece::Pawn, "e3")]);
    assert_eq!(single.en_passant, 0);
    assert_eq!(single.en_passant_target(), None);
    assert_eq!(b.en_passant_target(), Some(sq("d6")));
    assert_eq!(black.en_passant_target(), Some(sq("g3")));
}

#[test]
fn each_reason_for_turning_a_move_down() {
    let tables = Tables::new();
    let b = Board::initial();
    assert_eq!(b.is_legal(&tables, &go(Piece::Knight, "d2")), Err(IllegalMove::OccupiedSquare));
    assert_eq!(b.is_legal(&tables, &go(Piece::Knight, "e4")), Err(IllegalMove::Unreachable));
    assert_eq!(b.is_legal(&tables, &take(Piece::Knight, "f3")), Err(IllegalMove::CaptureMismatch));
    assert_eq!(b.is_legal(&tables, &promote(go(Piece::Pawn, "e4"), Piece::Queen)), Err(IllegalMove::IllegalPromotion));
    assert_eq!(b.is_legal(&tables, &promote(go(Piece::Knight, "f3"), Piece::Queen)), Err(IllegalMove::IllegalPromotion));
    let mut pinned = Board::empty();
    put(&mut pinned, Color::White, Piece::King, "e1");
    put(&mut pinned, Color::White, Piece::Knight, "e2");
    put(&mut pinned, Color::Black, Piece::Rook, "e8");
    put(&mut pinned, Color::Black, Piece::King, "a8");
    assert_eq!(pinned.is_legal(&tables, &go(Piece::Knight, "c3")), Err(IllegalMove::InCheck));
    assert_eq!(pinned.is_legal(&tables, &go(Piece::King, "d1")), Ok(Move::Simple(SimpleMove { delete: at("e1") | at("d1"), piece: Piece::King, add: at("d1") })));
    let mut two = Board::empty();
    put(&mut two, Color::White, Piece::King, "e1");
    put(&mut two, Color::White, Piece::Knight, "b1");
    put(&mut two, Color::White, Piece::Knight, "f3");
    put(&mut two, Color::Black, Piece::King, "a8");
    assert_eq!(two.is_legal(&tables, &go(Piece::Knight, "d2")), Err(IllegalMove::Ambiguous));
    assert_eq!(
        two.is_legal(&tables, &from_file(go(Piece::Knight, "d2"), 1)),
        Ok(Move::Simple(SimpleMove { delete: at("b1") | at("d2"), piece: Piece::Knight, add: at("d2") }))
    );
    let mut one_pinned = Board::empty();
    put(&mut one_pinned, Color::White, Piece::King, "e1");
    put(&mut one_pinned, Color::White, Piece::Knight, "f2");
    put(&mut one_pinned, Color::White, Piece::Knight, "b1");
    put(&mut one_pinned, Color::Black, Piece::Bishop, "h4");
    put(&mut one_pinned, Color::Black, Piece::King, "a8");
    assert_eq!(one_pinned.is_legal(&tables, &go(Piece::Knight, "d3")), Err(IllegalMove::InCheck));
    assert_eq!(one_pinned.is_legal(&tables, &go(Piece::Knight, "e4")), Err(IllegalMove::InCheck));
    assert_eq!(one_pinned.is_legal(&tables, &go(Piece::Knight, "b3")), Err(IllegalMove::Unreachable));
    let mut both = Board::empty();
    put(&mut both, Color::White, Piece::King, "e1");
    put(&mut both, Color::White, Piece::Knight, "f2");
    put(&mut both, Color::White, Piece::Knight, "b2");
    put(&mut both, Color::Black, Piece::Bishop, "h4");
    put(&mut both, Color::Black, Piece::King, "a8");
    assert_eq!(
        both.is_legal(&tables, &go(Piece::Knight, "d3")),
        Ok(Move::Simple(SimpleMove { delete: at("b2") | at("d3"), piece: Piece::Knight, add: at("d3") }))
    );
    assert_eq!(IllegalMove::OccupiedSquare.as_str(), "Destination square is occupied");
    assert_eq!(IllegalMove::Unreachable.as_str(), "Piece cannot reach that square");
    assert_eq!(IllegalMove::CaptureMismatch.as_str(), "Capture mismatch");
    assert_eq!(IllegalMove::InCheck.as_str(), "Move would put you in check");
    assert_eq!(IllegalMove::CastlingThroughPiece.as_str(), "Piece in the way of castling");
    assert_eq!(IllegalMove::CastlingThroughCheck.as_str(), "Castling through a check");
    assert_eq!(IllegalMove::NoCastlingPermissions.as_str(), "Castling without rights");
    assert_eq!(IllegalMove::Ambiguous.as_str(), "Ambiguous");
    assert_eq!(IllegalMove::IllegalPromotion.as_str(), "Illegal promotion (incorrect piece or rank)");
}

#[test]
fn promotion() {
    let tables = Tables::new();
    let mut b = Board::empty();
    put(&mut b, Color::White, Piece::King, "e1");
    put(&mut b, Color::Black, Piece::King, "a5");
    put(&mut b, Color::White, Piece::Pawn, "g7");
    put(&mut b, Color::Black, Piece::Rook, "h8");
    let queen = b.is_legal(&tables, &promote(go(Piece::Pawn, "g8"), Piece::Queen)).unwrap();
    assert_eq!(
        queen,
        Move::Simple(SimpleMove { delete: at("g7") | at("g8"), piece: Piece::Queen, add: at("g8") })
    );
    let after = b.apply(&queen);
    assert_eq!(after.queens & after.white, at("g8"));
    assert!((after.pawns & at("g8")).is_empty());
    assert!((after.pawns & at("g7")).is_empty());
    assert!(after.is_well_formed());
    let knight = b.is_legal(&tables, &promote(take(Piece::Pawn, "h8"), Piece::Knight)).unwrap();
    let after = b.apply(&knight);
    assert_eq!(after.knights & after.white, at("h8"));
    assert!((after.rooks & at("h8")).is_empty());
    assert!((after.black & at("h8")).is_empty());
    assert_eq!(b.is_legal(&tables, &promote(go(Piece::Pawn, "g8"), Piece::King)), Err(IllegalMove::IllegalPromotion));
    assert_eq!(b.is_legal(&tables, &promote(go(Piece::Pawn, "g8"), Piece::Pawn)), Err(IllegalMove::IllegalPromotion));
    let mut moves = Vec::new();
    b.pawn_moves(&tables, &mut moves);
    assert_eq!(moves.len(), 8);
    assert!(moves.contains(&queen));
    assert!(moves.contains(&knight));
    for m in moves.iter() {
        match m {
            Move::Simple(s) => assert!(s.piece != Piece::Pawn && s.piece != Piece::King),
            _ => panic!("a pawn does not castle"),
        }
    }
}

#[test]
fn every_move_returned_as_legal_leaves_the_king_safe() {
    let tables = Tables::new();
    let mut b = Board::empty();
    put(&mut b, Color::White, Piece::King, "e1");
    put(&mut b, Color::White, Piece::Queen, "e2");
    put(&mut b, Color::White, Piece::Rook, "a1");
    put(&mut b, Color::White, Piece::Pawn, "c2");
    put(&mut b, Color::Black, Piece::King, "e8");
    put(&mut b, Color::Black, Piece::Rook, "e7");
    put(&mut b, Color::Black, Piece::Bishop, "a5");
    put(&mut b, Color::Black, Piece::Knight, "f3");
    b.castling_rights = 4;
    for piece in Piece::list() {
        for x in 0..8 {
            for y in 0..8 {
                for captures in [false, true] {
                    let alg = AlgebraicMove::Simple(SimpleAlgebraicMove {
                        piece,
                        disambiguate: (None, None),
                        dst_square: Square::xy(x, y),
                        captures,
                        check: false,
                        checkmate: false,
                        promotion: None,
                    });
                    if let Ok(mv) = b.is_legal(&tables, &alg) {
                        assert!(!b.apply(&mv).in_check(&tables, Color::White));
                    }
                }
            }
        }
    }
    assert!(b.in_check(&tables, Color::White));
    assert_eq!(
        b.is_legal(&tables, &AlgebraicMove::CastleLong { check: false, checkmate: false }),
        Err(IllegalMove::CastlingThroughCheck)
    );
}

#[test]
fn tables_built_twice_are_the_same() {
    let a = Tables::new();
    let b = Tables::new();
    for x in 0..8 {
        for y in 0..8 {
            let s = Bitboard::at(Square::xy(x, y));
            assert_eq!(a.knight_attacks(s), b.knight_attacks(s));
            assert_eq!(a.king_attacks(s), b.king_attacks(s));
            assert_eq!(a.files(s), b.files(s));
            assert_eq!(a.ranks(s), b.ranks(s));
            assert_eq!(a.nw_diagonals(s), b.nw_diagonals(s));
            assert_eq!(a.sw_diagonals(s), b.sw_diagonals(s));
            for c in Color::list() {
                assert_eq!(a.pawn_single_moves(c, s), b.pawn_single_moves(c, s));
                assert_eq!(a.pawn_double_moves(c, s), b.pawn_double_moves(c, s));
                assert_eq!(a.pawn_attacks(c, s), b.pawn_attacks(c, s));
                assert_eq!(a.rev_pawn_moves(c, s), b.rev_pawn_moves(c, s));
                assert_eq!(a.rev_pawn_dbl_moves(c, s), b.rev_pawn_dbl_moves(c, s));
                assert_eq!(a.rev_pawn_attacks(c, s), b.rev_pawn_attacks(c, s));
            }
        }
    }
    for f in 0..8 {
        for p in 0..64 {
            assert_eq!(a.rank_attacks(f, p), b.rank_attacks(f, p));
        }
    }
}

#[test]
fn looking_at_every_line_agrees_with_the_window() {
    let tables = Tables::new();
    let b = play(
        &tables,
        Board::initial(),
        &[go(Piece::Pawn, "e4"), go(Piece::Pawn, "d5"), go(Piece::Knight, "c3"), go(Piece::Pawn, "d4")],
    );
    for depth in 0..3 {
        let mut plain = IDAB::new(MaterialCount());
        let mut windowed = IDAB::new(MaterialCount());
        let all = plain.evaluate_naive(&tables, b, b.player, depth);
        assert_eq!(all, windowed.evaluate(&tables, b, b.player, depth, i64::MIN, i64::MAX));
        assert_eq!(all, naive(&tables, b, b.player, depth));
        assert!(plain.searched_positions >= windowed.searched_positions);
    }
    let mut leaf = IDAB::new(MaterialCount());
    assert_eq!(leaf.evaluate_naive(&tables, b, b.player, 0), 0);
    assert_eq!(leaf.searched_positions, 1);
    let mut one = IDAB::new(MaterialCount());
    one.evaluate_naive(&tables, Board::initial(), Color::White, 1);
    assert_eq!(one.searched_positions, 1 + 20 + 21);
    let mut wrapped = IDAB::new(MaterialCount());
    wrapped.searched_positions = i64::MAX;
    wrapped.evaluate(&tables, Board::initial(), Color::White, 0, 0, 0);
    assert_eq!(wrapped.searched_positions, i64::MIN);
}

fn rights_are_real(b: &Board) -> bool {
    let whole = |c: Color, x: &str, flag: u8| {
        b.castling_rights & flag == 0
            || ((b.kings & b.color_set(c) & at(if c == Color::White { "e1" } else { "e8" })).is_populated()
                && (b.rooks & b.color_set(c) & at(x)).is_populated())
    };
    whole(Color::White, "h1", 8) && whole(Color::White, "a1", 4) && whole(Color::Black, "h8", 2) && whole(Color::Black, "a8", 1)
}

#[test]
fn every_generated_move_leaves_a_sound_position() {
    let tables = Tables::new();
    let mut level = vec![
        Board::initial(),
        play(&tables, Board::initial(), &[go(Piece::Pawn, "e4"), go(Piece::Pawn, "a6"), go(Piece::Pawn, "e5"), go(Piece::Pawn, "d5")]),
    ];
    let mut open = Board::empty();
    for (c, p, n) in [
        (Color::White, Piece::King, "e1"),
        (Color::White, Piece::Rook, "a1"),
        (Color::White, Piece::Rook, "h1"),
        (Color::White, Piece::Pawn, "b7"),
        (Color::Black, Piece::King, "e8"),
        (Color::Black, Piece::Rook, "a8"),
        (Color::Black, Piece::Rook, "h8"),
        (Color::Black, Piece::Pawn, "g2"),
    ] {
        put(&mut open, c, p, n);
    }
    open.castling_rights = 15;
    level.push(open);
    let mut seen = 0;
    for _ in 0..2 {
        let mut next = Vec::new();
        for b in level.iter() {
            let mut moves = Vec::new();
            b.pre_legal_moves(&tables, &mut moves);
            for m in moves.iter() {
                let after = b.apply(m);
                assert!(after.is_well_formed());
                assert!(rights_are_real(&after));
                assert!(after.castling_rights & !b.castling_rights == 0);
                assert_eq!(after.player, b.player.opponent());
                if after.en_passant != 0 {
                    let file = (after.en_passant - 1) as i32;
                    let (from, to, over) = if b.player == Color::White { (1, 3, 2) } else { (6, 4, 5) };
                    assert!((after.pawns & after.color_set(b.player) & Bitboard::at(Square::xy(file, to))).is_populated());
                    assert!((b.pawns & b.color_set(b.player) & Bitboard::at(Square::xy(file, from))).is_populated());
                    assert!((after.occupancy() & Bitboard::at(Square::xy(file, over))).is_empty());
                }
                seen += 1;
                next.push(after);
            }
        }
        level = next;
    }
    assert!(seen > 1000);
}

#[test]
fn the_side_that_has_won() {
    let b = Board::initial();
    assert_eq!(b.winner(), None);
    let mut no_white_king = b;
    no_white_king.kings = no_white_king.kings ^ at("e1");
    no_white_king.white = no_white_king.white ^ at("e1");
    assert_eq!(no_white_king.winner(), Some(Color::Black));
    let mut no_black_king = b;
    no_black_king.kings = no_black_king.kings ^ at("e8");
    no_black_king.black = no_black_king.black ^ at("e8");
    assert_eq!(no_black_king.winner(), Some(Color::White));
    assert_eq!(Board::empty().winner(), Some(Color::Black));
    let mut swapped = Board::empty();
    put(&mut swapped, Color::Black, Piece::King, "e1");
    put(&mut swapped, Color::White, Piece::Queen, "e8");
    assert_eq!(swapped.winner(), Some(Color::Black));
}

fn every_description() -> Vec<AlgebraicMove> {
    let pieces = [Piece::Pawn, Piece::Knight, Piece::Bishop, Piece::Rook, Piece::Queen, Piece::King];
    let becomes = [None, Some(Piece::Knight), Some(Piece::Queen)];
    let mut lines: Vec<Option<u8>> = vec![None];
    lines.extend((0..8).map(Some));
    let mut all = vec![
        AlgebraicMove::CastleShort { check: false, checkmate: false },
        AlgebraicMove::CastleLong { check: false, checkmate: false },
    ];
    for piece in pieces {
        for x in 0..8 {
            for y in 0..8 {
                for captures in [false, true] {
                    for file in &lines {
                        for rank in &lines {
                            for promotion in becomes {
                                all.push(AlgebraicMove::Simple(SimpleAlgebraicMove {
                                    piece,
                                    disambiguate: (*file, *rank),
                                    dst_square: Square::xy(x, y),
                                    captures,
                                    check: false,
                                    checkmate: false,
                                    promotion,
                                }));
                            }
                        }
                    }
                }
            }
        }
    }
    all
}

#[test]
fn a_mated_side_has_no_accepted_move() {
    let tables = Tables::new();
    let b = play(
        &tables,
        Board::initial(),
        &[go(Piece::Pawn, "f3"), go(Piece::Pawn, "e5"), go(Piece::Pawn, "g4"), go(Piece::Queen, "h4")],
    );
    let mut generated = Vec::new();
    b.pre_legal_moves(&tables, &mut generated);
    assert!(!generated.is_empty());
    for m in &generated {
        assert!(b.apply(m).in_check(&tables, Color::White));
    }
    for d in every_description() {
        assert!(b.is_legal(&tables, &d).is_err());
    }
}

#[test]
fn accepted_moves_are_generated() {
    let tables = Tables::new();
    let opening = Board::initial();
    let passing = play(
        &tables,
        Board::initial(),
        &[go(Piece::Pawn, "e4"), go(Piece::Pawn, "a6"), go(Piece::Pawn, "e5"), go(Piece::Pawn, "d5")],
    );
    let mut crowning = Board::empty();
    put(&mut crowning, Color::White, Piece::King, "e1");
    put(&mut crowning, Color::White, Piece::Rook, "h1");
    put(&mut crowning, Color::White, Piece::Pawn, "b7");
    put(&mut crowning, Color::Black, Piece::Rook, "a8");
    put(&mut crowning, Color::Black, Piece::King, "h8");
    crowning.castling_rights = 8;
    for b in [opening, passing, crowning] {
        let mut generated = Vec::new();
        b.pre_legal_moves(&tables, &mut generated);
        let mut accepted = 0;
        for d in every_description() {
            if let Ok(m) = b.is_legal(&tables, &d) {
                accepted += 1;
                assert!(!b.apply(&m).in_check(&tables, b.player));
                let same = generated.contains(&m);
                let crowned = match m {
                    Move::Simple(y) => {
                        y.piece == Piece::Pawn
                            && generated.contains(&Move::Simple(SimpleMove {
                                delete: y.delete,
                                piece: Piece::Queen,
                                add: y.add,
                            }))
                    }
                    _ => false,
                };
                assert!(same || crowned);
            }
        }
        assert!(accepted > 0);
    }
}
