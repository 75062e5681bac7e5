use chess_for_crabs::args::{Args, ArgsError};
use chess_for_crabs::bitboard::Bitboard;
use chess_for_crabs::board::{Board, IllegalMove};
use chess_for_crabs::command::Command;
use chess_for_crabs::coords::Square;
use chess_for_crabs::fen::parse;
use chess_for_crabs::game::Game;
use chess_for_crabs::move_log::MoveLog;
use chess_for_crabs::moves::{AlgebraicMove, Move, SimpleAlgebraicMove, SimpleMove, Token};
use chess_for_crabs::patterns::Tables;
use chess_for_crabs::piece::{Color, Piece};
use chess_for_crabs::text::{chars_of, read_i64, read_u8};

fn simple(piece: Piece, x: u8, y: u8) -> SimpleAlgebraicMove {
    SimpleAlgebraicMove {
        piece,
        disambiguate: (None, None),
        dst_square: Square { x, y },
        captures: false,
        check: false,
        checkmate: false,
        promotion: None,
    }
}

fn same(a: Option<AlgebraicMove>, b: Option<AlgebraicMove>) -> bool {
    format!("{:?}", a) == format!("{:?}", b)
}

fn read(tables: &Tables, board: &Board, text: &str) -> Result<Move, IllegalMove> {
    board.is_legal(tables, &AlgebraicMove::parse(text).unwrap())
}

fn play(tables: &Tables, moves: &[&str]) -> Board {
    let mut b = Board::initial();
    for text in moves {
        let mv = read(tables, &b, text).unwrap();
        b = b.apply(&mv);
    }
    b
}

const START: &str = "rnbqkbnr/pppppppp/8/8/8/8/PPPPPPPP/RNBQKBNR w KQkq - 0 1";

#[test]
fn tokens() {
    assert_eq!(Token::parse('N'), Some(Token::Piece(Piece::Knight)));
    assert_eq!(Token::parse('B'), Some(Token::Piece(Piece::Bishop)));
    assert_eq!(Token::parse('b'), Some(Token::File(1)));
    assert_eq!(Token::parse('h'), Some(Token::File(7)));
    assert_eq!(Token::parse('i'), None);
    assert_eq!(Token::parse('1'), Some(Token::Rank(0)));
    assert_eq!(Token::parse('8'), Some(Token::Rank(7)));
    assert_eq!(Token::parse('9'), None);
    assert_eq!(Token::parse('0'), Some(Token::Oh));
    assert_eq!(Token::parse('O'), Some(Token::Oh));
    assert_eq!(Token::parse('x'), Some(Token::Captures));
    assert_eq!(Token::parse('+'), Some(Token::Check));
    assert_eq!(Token::parse('#'), Some(Token::Checkmate));
    assert_eq!(Token::parse('='), Some(Token::Equals));
    assert_eq!(Token::parse('-'), Some(Token::Dash));
    assert_eq!(Token::parse(' '), None);
    assert_eq!(Token::parse('\u{265a}'), None);
}

#[test]
fn reading_written_moves() {
    assert!(same(AlgebraicMove::parse("e4"), Some(AlgebraicMove::Simple(simple(Piece::Pawn, 4, 3)))));
    assert!(same(AlgebraicMove::parse("Nf3"), Some(AlgebraicMove::Simple(simple(Piece::Knight, 5, 2)))));
    assert!(same(
        AlgebraicMove::parse("exd5"),
        Some(AlgebraicMove::Simple(SimpleAlgebraicMove {
            disambiguate: (Some(4), None),
            captures: true,
            ..simple(Piece::Pawn, 3, 4)
        }))
    ));
    assert!(same(
        AlgebraicMove::parse("R1a3"),
        Some(AlgebraicMove::Simple(SimpleAlgebraicMove { disambiguate: (None, Some(0)), ..simple(Piece::Rook, 0, 2) }))
    ));
    assert!(same(
        AlgebraicMove::parse("Qh4xe1"),
        Some(AlgebraicMove::Simple(SimpleAlgebraicMove {
            disambiguate: (Some(7), Some(3)),
            captures: true,
            ..simple(Piece::Queen, 4, 0)
        }))
    ));
    assert!(same(
        AlgebraicMove::parse("e8=Q"),
        Some(AlgebraicMove::Simple(SimpleAlgebraicMove { promotion: Some(Piece::Queen), ..simple(Piece::Pawn, 4, 7) }))
    ));
    assert!(same(
        AlgebraicMove::parse("dxe8=N"),
        Some(AlgebraicMove::Simple(SimpleAlgebraicMove {
            promotion: Some(Piece::Knight),
            captures: true,
            disambiguate: (Some(3), None),
            ..simple(Piece::Pawn, 4, 7)
        }))
    ));
    assert!(same(AlgebraicMove::parse("O-O"), Some(AlgebraicMove::CastleShort { check: false, checkmate: false })));
    assert!(same(AlgebraicMove::parse("0-0"), Some(AlgebraicMove::CastleShort { check: false, checkmate: false })));
    assert!(same(AlgebraicMove::parse("O-O-O"), Some(AlgebraicMove::CastleLong { check: false, checkmate: false })));
    assert!(same(AlgebraicMove::parse("O-O+"), Some(AlgebraicMove::CastleShort { check: true, checkmate: false })));
    assert!(same(AlgebraicMove::parse("O-O-O#"), Some(AlgebraicMove::CastleLong { check: false, checkmate: true })));
    assert!(same(AlgebraicMove::parse("Qh4#"), Some(AlgebraicMove::Simple(simple(Piece::Queen, 7, 3)))));
    assert!(same(AlgebraicMove::parse("Qh4+"), Some(AlgebraicMove::Simple(simple(Piece::Queen, 7, 3)))));
    assert!(same(AlgebraicMove::parse("e4\u{e9}-O"), Some(AlgebraicMove::Simple(simple(Piece::Pawn, 4, 3)))));
    for bad in ["", "e", "4", "e9", "i4", "Ke", "xx", "e4e", "=Qe8", "Ne8=Q", "e8Q", "O-", "O-O-", "O-O-x", "O", "-O", "e4 ", " e4", "NNf3", "Nf3x", "\u{265a}e4", "O-OO"] {
        assert!(AlgebraicMove::parse(bad).is_none(), "{}", bad);
    }
}

#[test]
fn writing_moves() {
    assert_eq!(AlgebraicMove::Simple(simple(Piece::Pawn, 4, 3)).to_string(), "e4");
    assert_eq!(AlgebraicMove::Simple(simple(Piece::Knight, 5, 2)).to_string(), "Nf3");
    assert_eq!(
        AlgebraicMove::Simple(SimpleAlgebraicMove { captures: true, ..simple(Piece::Bishop, 0, 7) }).to_string(),
        "Bxa8"
    );
    assert_eq!(
        AlgebraicMove::Simple(SimpleAlgebraicMove { disambiguate: (Some(1), Some(0)), ..simple(Piece::Knight, 3, 1) }).to_string(),
        "N10d2"
    );
    assert_eq!(
        AlgebraicMove::Simple(SimpleAlgebraicMove { disambiguate: (Some(7), None), ..simple(Piece::Rook, 3, 1) }).to_string(),
        "R7d2"
    );
    assert_eq!(
        AlgebraicMove::Simple(SimpleAlgebraicMove { disambiguate: (None, Some(6)), ..simple(Piece::Rook, 3, 1) }).to_string(),
        "R6d2"
    );
    assert_eq!(
        AlgebraicMove::Simple(SimpleAlgebraicMove { promotion: Some(Piece::Queen), check: true, ..simple(Piece::Pawn, 7, 7) }).to_string(),
        "h8=Q+"
    );
    assert_eq!(
        AlgebraicMove::Simple(SimpleAlgebraicMove { checkmate: true, check: true, ..simple(Piece::Queen, 7, 3) }).to_string(),
        "Qh4*"
    );
    assert_eq!(AlgebraicMove::CastleShort { check: false, checkmate: false }.to_string(), "O-O");
    assert_eq!(AlgebraicMove::CastleLong { check: true, checkmate: false }.to_string(), "O-O-O+");
    assert_eq!(AlgebraicMove::CastleLong { check: true, checkmate: true }.to_string(), "O-O-O+#");
    assert_eq!(AlgebraicMove::CastleShort { check: false, checkmate: true }.to_string(), "O-O#");
    for text in ["e4", "Nf3", "Qxh7", "e8=Q", "O-O", "O-O-O", "a1", "h8", "Kxe2"] {
        assert_eq!(AlgebraicMove::parse(text).unwrap().to_string(), text);
    }
    assert_eq!(Square { x: 4, y: 3 }.to_string(), "e4");
    assert_eq!(Square { x: 0, y: 0 }.to_string(), "a1");
    assert_eq!(Square { x: 7, y: 7 }.to_string(), "h8");
}

#[test]
fn names_and_signs() {
    assert_eq!(Piece::Pawn.to_string(), "pawn");
    assert_eq!(Piece::Knight.name(), "knight");
    assert_eq!(Piece::Bishop.name(), "bishop");
    assert_eq!(Piece::Rook.name(), "rook");
    assert_eq!(Piece::Queen.name(), "queen");
    assert_eq!(Piece::King.to_string(), "king");
    assert_eq!(Color::White.to_string(), "white");
    assert_eq!(Color::Black.name(), "black");
    assert_eq!(Piece::Pawn.to_unicode(Color::Black), "♙");
    assert_eq!(Piece::Pawn.to_unicode(Color::White), "♟");
    assert_eq!(Piece::Knight.to_unicode(Color::Black), "♘");
    assert_eq!(Piece::Bishop.to_unicode(Color::White), "♝");
    assert_eq!(Piece::Rook.to_unicode(Color::Black), "♖");
    assert_eq!(Piece::Queen.to_unicode(Color::White), "♛");
    assert_eq!(Piece::King.to_unicode(Color::Black), "♔");
    assert_eq!(Piece::King.to_unicode(Color::White), "♚");
}

#[test]
fn reading_numbers() {
    let u = |s: &str| read_u8(&chars_of(s));
    assert_eq!(u("0"), Some(0));
    assert_eq!(u("255"), Some(255));
    assert_eq!(u("256"), None);
    assert_eq!(u("+7"), Some(7));
    assert_eq!(u("007"), Some(7));
    assert_eq!(u("0000000000000000000000000255"), Some(255));
    assert_eq!(u("-1"), None);
    assert_eq!(u("-0"), None);
    assert_eq!(u(""), None);
    assert_eq!(u("+"), None);
    assert_eq!(u("1a"), None);
    assert_eq!(u("99999999999999999999999999"), None);
    let i = |s: &str| read_i64(&chars_of(s));
    assert_eq!(i("0"), Some(0));
    assert_eq!(i("-0"), Some(0));
    assert_eq!(i("+12"), Some(12));
    assert_eq!(i("-12"), Some(-12));
    assert_eq!(i("9223372036854775807"), Some(i64::MAX));
    assert_eq!(i("9223372036854775808"), None);
    assert_eq!(i("-9223372036854775808"), Some(i64::MIN));
    assert_eq!(i("-9223372036854775809"), None);
    assert_eq!(i("-"), None);
    assert_eq!(i("--1"), None);
    assert_eq!(i("1-"), None);
    assert_eq!(i(""), None);
    for text in ["0", "17", "255", "+3", "x", "", "300", "-4"] {
        assert_eq!(u(text), text.parse::<u8>().ok());
        assert_eq!(i(text), text.parse::<i64>().ok());
    }
    assert_eq!(chars_of("a\u{e9}\u{265a}"), vec!['a', '\u{e9}', '\u{265a}']);
}

#[test]
fn reading_positions() {
    let g = parse(START).unwrap();
    assert_eq!(g.board, Board::initial());
    assert_eq!(g.log.ply, 2);
    assert!(g.log.moves.is_empty());
    let g = parse("rnbqkbnr/pppppppp/8/8/4P3/8/PPPP1PPP/RNBQKBNR b KQkq e3 0 1").unwrap();
    assert_eq!(g.board.player, Color::Black);
    assert_eq!(g.board.en_passant, 5);
    assert_eq!(g.log.ply, 3);
    assert_eq!(g.board.pawns & g.board.white & Bitboard::at(Square::xy(4, 3)), Bitboard::at(Square::xy(4, 3)));
    assert!(g.board.is_well_formed());
    let g = parse("  8/8/8/8/8/8/8/4K2k \t w  -  -  17   40 ").unwrap();
    assert_eq!(g.board.kings, Bitboard::at(Square::xy(4, 0)) | Bitboard::at(Square::xy(7, 0)));
    assert_eq!(g.board.white, Bitboard::at(Square::xy(4, 0)));
    assert_eq!(g.board.castling_rights, 0);
    assert_eq!(g.board.half_moves, 17);
    assert_eq!(g.log.ply, 80);
    assert_eq!(parse("8/8/8/8/8/8/8/8 w Kq - 0 1").unwrap().board.castling_rights, 9);
    assert_eq!(parse("8/8/8/8/8/8/8/8 w KQ- - 0 1").unwrap().board.castling_rights, 0);
    assert_eq!(parse("8/8/8/8/8/8/8/8 w KQkq a0x 0 -3").unwrap().log.ply, -6);
    assert_eq!(parse("8/8/8/8/8/8/8/8 w KQkq h7 0 1").unwrap().board.en_passant, 8);
    assert_eq!(parse("r w - - 0 1").unwrap().board.rooks, Bitboard::at(Square::xy(0, 7)));
    for bad in [
        "",
        "8/8/8/8/8/8/8/8 w - - 0",
        "8/8/8/8/8/8/8/8 x - - 0 1",
        "8/8/8/8/8/8/8/8 w KK - 0 1",
        "8/8/8/8/8/8/8/8 w X - 0 1",
        "8/8/8/8/8/8/8/8 w - e8 0 1",
        "8/8/8/8/8/8/8/8 w - i3 0 1",
        "8/8/8/8/8/8/8/8 w - e 0 1",
        "8/8/8/8/8/8/8/8 w - -- 0 1",
        "8/8/8/8/8/8/8/8 w - - 256 1",
        "8/8/8/8/8/8/8/8 w - - -1 1",
        "8/8/8/8/8/8/8/8 w - - 0 x",
        "8/8/8/8/8/8/8/8 w - - 0 4611686018427387904",
        "8/8/8/8/8/8/8/8 b - - 0 4611686018427387903x",
        "9/8/8/8/8/8/8/8 w - - 0 1",
        "0/8/8/8/8/8/8/8 w - - 0 1",
        "8x8/8/8/8/8/8/8 w - - 0 1",
        "z7/8/8/8/8/8/8/8 w - - 0 1",
        "8/8/8/8/8/8/8/8/K w - - 0 1",
    ] {
        assert!(parse(bad).is_none(), "{}", bad);
    }
    assert_eq!(parse("8/8/8/8/8/8/8/8 b - - 0 4611686018427387903").unwrap().log.ply, i64::MAX);
    assert_eq!(parse("8/8/8/8/8/8/8/8 w - - 0 -4611686018427387904").unwrap().log.ply, i64::MIN);
    assert!(parse("8/8/8/8/8/8/8/8 b - - 0 -4611686018427387905").is_none());
}

#[test]
fn writing_positions() {
    let tables = Tables::new();
    assert_eq!(Board::initial().fen().to_string(), "rnbqkbnr/pppppppp/8/8/8/8/PPPPPPPP/RNBQKBNR w KQkq - 0 0");
    assert_eq!(Board::empty().fen().to_string(), "8/8/8/8/8/8/8/8 w  - 0 0");
    let b = play(&tables, &["e4", "c5", "Nf3"]);
    assert_eq!(b.fen().to_string(), "rnbqkbnr/pp1ppppp/8/2p5/4P3/5N2/PPPP1PPP/RNBQKB1R b KQkq - 0 0");
    let b = play(&tables, &["e4"]);
    assert_eq!(b.fen().to_string(), "rnbqkbnr/pppppppp/8/8/4P3/8/PPPP1PPP/RNBQKBNR b KQkq e3 0 0");
    let b = play(&tables, &["e4", "e5", "Ke2"]);
    assert_eq!(b.fen().to_string(), "rnbqkbnr/pppp1ppp/8/4p3/4P3/8/PPPPKPPP/RNBQ1BNR b kq - 0 0");
    let b = play(&tables, &["h3", "d5"]);
    assert_eq!(b.fen().to_string(), "rnbqkbnr/ppp1pppp/8/3p4/8/7P/PPPPPPP1/RNBQKBNR w KQkq d6 0 0");
    let again = parse(&b.fen().to_string()).unwrap();
    assert_eq!(again.board, b);
    for moves in [&["e4", "e5", "Nf3"][..], &["d4", "d5", "c4", "dxc4"][..], &["h4", "a5", "Rh3"][..]] {
        let reached = play(&tables, moves);
        let read = parse(&reached.fen().to_string()).unwrap();
        assert_eq!(read.board, reached);
        assert_eq!(read.log.ply, if reached.player == Color::Black { 1 } else { 0 });
    }
    assert!(parse(&Board::empty().fen().to_string()).is_none());
    let mut counted = Board::initial();
    counted.half_moves = 203;
    assert_eq!(counted.fen().to_string(), "rnbqkbnr/pppppppp/8/8/8/8/PPPPPPPP/RNBQKBNR w KQkq - 203 0");
}

#[test]
fn pictures() {
    let tables = Tables::new();
    let b = Board::initial();
    let expected = "8 ♖ ♘ ♗ ♕ ♔ ♗ ♘ ♖\n7 ♙ ♙ ♙ ♙ ♙ ♙ ♙ ♙\n6 _ _ _ _ _ _ _ _\n5 _ _ _ _ _ _ _ _\n4 _ _ _ _ _ _ _ _\n3 _ _ _ _ _ _ _ _\n2 ♟ ♟ ♟ ♟ ♟ ♟ ♟ ♟\n1 ♜ ♞ ♝ ♛ ♚ ♝ ♞ ♜\n  a b c d e f g h";
    assert_eq!(b.to_string(), expected);
    assert_eq!(b.display(&tables), format!("{}\n", expected));
    let mated = play(&tables, &["f3", "e5", "g4", "Qh4"]);
    assert!(mated.display(&tables).starts_with("Player white is in check!\n8 ♖ ♘ ♗ _ ♔"));
    let set = Bitboard::at(Square::xy(0, 0)) | Bitboard::at(Square::xy(7, 7)) | Bitboard::at(Square::xy(2, 4));
    assert_eq!(
        set.to_string(),
        "8 0 0 0 0 0 0 0 1\n7 0 0 0 0 0 0 0 0\n6 0 0 0 0 0 0 0 0\n5 0 0 1 0 0 0 0 0\n4 0 0 0 0 0 0 0 0\n3 0 0 0 0 0 0 0 0\n2 0 0 0 0 0 0 0 0\n1 1 0 0 0 0 0 0 0\n  a b c d e f g h"
    );
    let mut odd = Board::empty();
    odd.white = Bitboard::at(Square::xy(0, 0));
    assert!(odd.to_string().ends_with("1 _ _ _ _ _ _ _ _\n  a b c d e f g h"));
    odd.pawns = Bitboard::at(Square::xy(0, 0)) | Bitboard::at(Square::xy(1, 0));
    odd.kings = Bitboard::at(Square::xy(0, 0));
    odd.black = Bitboard::at(Square::xy(0, 0));
    assert!(odd.to_string().ends_with("1 ♙ _ _ _ _ _ _ _\n  a b c d e f g h"));
}

#[test]
fn the_log_of_a_game() {
    let mut log = MoveLog::new();
    assert_eq!(log.ply, 0);
    assert_eq!(log.to_string(), "");
    log.append(AlgebraicMove::parse("e4").unwrap());
    log.append(AlgebraicMove::parse("e5").unwrap());
    assert_eq!(log.ply, 2);
    assert_eq!(log.moves.len(), 2);
    assert_eq!(log.to_string(), "2. e42. e5");
    let odd = MoveLog { ply: 1, moves: vec![AlgebraicMove::parse("e5").unwrap(), AlgebraicMove::parse("Nf3").unwrap(), AlgebraicMove::parse("Nc6").unwrap()] };
    assert_eq!(odd.to_string(), " e5\n2. Nf32. Nc6");
    let back = MoveLog { ply: -3, moves: vec![AlgebraicMove::parse("e5").unwrap(), AlgebraicMove::parse("O-O").unwrap()] };
    assert_eq!(back.to_string(), " e5\n0. O-O");
}

#[test]
fn a_game_made_and_taken_back() {
    let tables = Tables::new();
    let mut game = Game::new();
    assert_eq!(game.board, Board::initial());
    let mut boards = vec![game.board];
    for text in ["e4", "e5", "Nf3", "Nc6", "Bb5", "a6", "O-O"] {
        let alg = AlgebraicMove::parse(text).unwrap();
        let mv = game.board.is_legal(&tables, &alg).unwrap();
        game.make_move(&alg, &mv);
        boards.push(game.board);
    }
    assert_eq!(game.log.ply, 7);
    assert_eq!(game.log.moves.len(), 7);
    assert_eq!(game.board.fen().to_string(), "r1bqkbnr/1ppp1ppp/p1n5/1B2p3/4P3/5N2/PPPP1PPP/RNBQ1RK1 b kq - 0 0");
    assert_eq!(Game::replayed(&tables, &game.log.moves, 7), Some(game.board));
    assert_eq!(Game::replayed(&tables, &game.log.moves, 3), Some(boards[3]));
    assert_eq!(Game::replayed(&tables, &game.log.moves, 0), Some(Board::initial()));
    for n in (0..7).rev() {
        game.undo_last_move(&tables);
        assert_eq!(game.log.ply, n as i64);
        assert_eq!(game.log.moves.len(), n);
        assert_eq!(game.board, boards[n]);
    }
    let wrong = vec![AlgebraicMove::parse("e4").unwrap(), AlgebraicMove::parse("e4").unwrap()];
    assert_eq!(Game::replayed(&tables, &wrong, 2), None);
    assert_eq!(Game::replayed(&tables, &wrong, 1).map(|b| b.en_passant), Some(5));
}

#[test]
fn a_described_move_is_read_as_the_same_move() {
    let tables = Tables::new();
    let mut boards = vec![
        Board::initial(),
        play(&tables, &["e4", "a6", "e5", "d5"]),
        play(&tables, &["e4", "e5", "Nf3", "Nc6", "Bc4", "Bc5"]),
        play(&tables, &["f3", "e5", "g4", "Qh4"]),
        play(&tables, &["e4", "d5", "exd5", "Qxd5", "Nc3", "Qe5"]),
        parse("r3k2r/pPp2ppp/8/3pP3/8/8/PPP2PpP/R3K2R w KQkq d6 0 1").unwrap().board,
        parse("r3k2r/pPp2ppp/8/8/3pP3/8/PPP2PpP/R3K2R b KQkq e3 0 1").unwrap().board,
        parse("4k3/8/8/8/8/2n5/1N1N4/4K3 w - - 0 1").unwrap().board,
    ];
    boards.push(parse("R6R/8/8/8/8/8/8/R3K2R w KQ - 0 1").unwrap().board);
    let mut seen = 0;
    for b in boards.iter() {
        assert!(b.is_well_formed());
        let mut moves = Vec::new();
        b.pre_legal_moves(&tables, &mut moves);
        for m in moves.iter() {
            let described = b.to_algebraic(m).unwrap();
            let expected = if b.apply(m).in_check(&tables, b.player) { Err(IllegalMove::InCheck) } else { Ok(*m) };
            assert_eq!(b.is_legal(&tables, &described), expected);
            seen += 1;
        }
    }
    assert!(seen > 200);
    let b = Board::initial();
    assert!(b.to_algebraic(&Move::Simple(SimpleMove { delete: Bitboard(0), piece: Piece::Pawn, add: Bitboard(1) })).is_none());
    assert!(b
        .to_algebraic(&Move::Simple(SimpleMove {
            delete: Bitboard::at(Square::xy(0, 1)),
            piece: Piece::Pawn,
            add: Bitboard(3)
        }))
        .is_none());
    assert!(same(
        b.to_algebraic(&Move::Simple(SimpleMove {
            delete: Bitboard::at(Square::xy(1, 0)) | Bitboard::at(Square::xy(2, 2)),
            piece: Piece::Knight,
            add: Bitboard::at(Square::xy(2, 2))
        })),
        Some(AlgebraicMove::Simple(SimpleAlgebraicMove { disambiguate: (Some(1), Some(0)), ..simple(Piece::Knight, 2, 2) }))
    ));
    assert_eq!(b.kind_at(Bitboard::at(Square::xy(3, 0))), Some(Piece::Queen));
    assert_eq!(b.kind_at(Bitboard::at(Square::xy(3, 3))), None);
    assert!(Bitboard(16).is_single());
    assert!(!Bitboard(0).is_single());
    assert!(!Bitboard(17).is_single());
    assert!(Bitboard(1 << 63).is_single());
}

#[test]
fn commands_and_arguments() {
    assert!(matches!(Command::parse(":q"), Ok(Command::Quit)));
    assert!(matches!(Command::parse(":mN"), Ok(Command::ShowMoves(Piece::Knight))));
    assert!(matches!(Command::parse(":mP"), Ok(Command::ShowMoves(Piece::Pawn))));
    assert!(matches!(Command::parse(":mx"), Err("Invalid piece")));
    assert!(matches!(Command::parse(":m\u{e9}"), Err("I cannot parse that")));
    assert!(matches!(Command::parse(":m"), Err("I cannot parse that")));
    assert!(matches!(Command::parse(":quit"), Err("I cannot parse that")));
    assert!(matches!(Command::parse(""), Err("I cannot parse that")));
    assert!(matches!(Command::parse("e4"), Ok(Command::Move(AlgebraicMove::Simple(_)))));
    assert!(matches!(Command::parse("O-O"), Ok(Command::Move(AlgebraicMove::CastleShort { .. }))));
    let words = |list: &[&str]| list.iter().map(|s| s.to_string()).collect::<Vec<String>>();
    assert!(matches!(Args::parse(&words(&[])), Err(ArgsError::Missing)));
    assert!(matches!(Args::parse(&words(&["chess"])), Ok(Args::Interactive)));
    assert!(matches!(Args::parse(&words(&["chess", "--fen"])), Err(ArgsError::Missing)));
    assert!(matches!(Args::parse(&words(&["chess", "--fan", "x"])), Err(ArgsError::Unexpected)));
    assert!(matches!(Args::parse(&words(&["chess", "--fen2", "x"])), Err(ArgsError::Unexpected)));
    assert!(matches!(Args::parse(&words(&["chess", "--fe"])), Err(ArgsError::Unexpected)));
    match Args::parse(&words(&["chess", "--fen", START, "more"])) {
        Ok(Args::FEN(s)) => assert_eq!(s, START),
        _ => panic!("a position was given"),
    }
    assert!(AlgebraicMove::parse("e4").unwrap().is_valid());
    assert!(AlgebraicMove::CastleLong { check: true, checkmate: true }.is_valid());
    assert!(!AlgebraicMove::Simple(simple(Piece::Pawn, 8, 0)).is_valid());
    assert!(!AlgebraicMove::Simple(simple(Piece::Pawn, 0, 8)).is_valid());
    assert!(!AlgebraicMove::Simple(SimpleAlgebraicMove { disambiguate: (Some(8), None), ..simple(Piece::Pawn, 0, 0) }).is_valid());
    assert!(!AlgebraicMove::Simple(SimpleAlgebraicMove { disambiguate: (None, Some(9)), ..simple(Piece::Pawn, 0, 0) }).is_valid());
}
