use chess_core::bitboard::BitBoard;
use chess_core::board::Board;
use chess_core::castling_rights::CastlingRights;
use chess_core::chess_move::{Move, MoveFlag, Promotion};
use chess_core::color::Color;
use chess_core::display::uci_text;
use chess_core::evaluation::{board_value, piece_value, raw_piece_value, Evaluation};
use chess_core::piece::Piece;
use chess_core::piece_square_table::piece_square_table;
use chess_core::square::Square;
use chess_core::tables::{
    between, get_bishop_attacks, get_king_attacks, get_knight_attacks, get_rook_attacks,
    line_through,
};
use chess_core::uci_move::UCIMove;
use chess_core::zobrist::{castle_keys, piece_keys, scrambled, side_keys};

fn set(squares: &[Square]) -> BitBoard {
    let mut bb = BitBoard::empty();
    for s in squares {
        bb = bb.with(*s);
    }
    bb
}

#[test]
fn piece_symbols() {
    assert_eq!(Piece::Knight.to_ascii(Color::White), 'N');
    assert_eq!(Piece::Knight.to_ascii(Color::Black), 'n');
    assert_eq!(Piece::King.to_unicode(Color::White), '♔');
    assert_eq!(Piece::Pawn.to_unicode(Color::Black), '♟');
    assert_eq!(Promotion::Queen.as_piece(), Piece::Queen);
}

#[test]
fn squares_and_sets() {
    assert_eq!(Square::E4.to_index(), 28);
    assert_eq!(Square::from(3, 4), Square::E4);
    assert_eq!(Square::E4.file(), 4);
    assert_eq!(Square::E4.rank(), 3);
    assert_eq!(Square::E4.forward(Color::White), Some(Square::E5));
    assert_eq!(Square::E4.forward(Color::Black), Some(Square::E3));
    assert_eq!(Square::E8.forward(Color::White), None);
    assert_eq!(Square::E1.forward(Color::Black), None);
    let bb = set(&[Square::A1, Square::C3, Square::H8]);
    assert_eq!(bb.popcnt(), 3);
    assert_eq!(bb.bit_scan(), Square::A1);
    assert!(bb.has_square(Square::C3));
    assert!(!bb.is_single());
    assert!(BitBoard::from_square(Square::D4).is_single());
    assert_eq!(BitBoard::from_square(Square::D4).shift(8), BitBoard::from_square(Square::D5));
    assert_eq!(BitBoard::from_square(Square::D4).shift(-9), BitBoard::from_square(Square::C3));
    assert_eq!(BitBoard::mask_file(7), BitBoard(0x8080_8080_8080_8080));
    assert_eq!(BitBoard::mask_rank(1), BitBoard(0xff00));
}

#[test]
fn attack_sets() {
    assert_eq!(
        get_knight_attacks(Square::G1),
        set(&[Square::E2, Square::F3, Square::H3])
    );
    assert_eq!(
        get_king_attacks(Square::A1),
        set(&[Square::A2, Square::B1, Square::B2])
    );
    let occupancy = set(&[Square::D6, Square::B4, Square::F4]);
    assert_eq!(
        get_rook_attacks(Square::D4, occupancy),
        set(&[
            Square::D5, Square::D6, Square::D3, Square::D2, Square::D1, Square::C4, Square::B4,
            Square::E4, Square::F4,
        ])
    );
    assert_eq!(
        get_bishop_attacks(Square::C1, set(&[Square::E3])),
        set(&[Square::B2, Square::A3, Square::D2, Square::E3])
    );
    assert_eq!(between(Square::A1, Square::D4), set(&[Square::B2, Square::C3]));
    assert_eq!(between(Square::H1, Square::H4), set(&[Square::H2, Square::H3]));
    assert_eq!(between(Square::A1, Square::B3), BitBoard::empty());
    assert_eq!(between(Square::A1, Square::A2), BitBoard::empty());
    assert_eq!(
        line_through(Square::B2, Square::D4),
        BitBoard(0x8040_2010_0804_0201)
    );
    assert_eq!(line_through(Square::A1, Square::B3), BitBoard::empty());
}

#[test]
fn castling_rights_as_masks() {
    let all = CastlingRights::all();
    assert_eq!(all.without(CastlingRights::of_side(Color::White)), CastlingRights(12));
    assert_eq!(all.intersection(CastlingRights::kept_after(Square::H8)), CastlingRights(11));
    assert_eq!(CastlingRights(1).union(CastlingRights(8)), CastlingRights(9));
    assert_eq!(CastlingRights::kept_after(Square::E4), CastlingRights(15));
    assert_eq!(CastlingRights::kept_after(Square::E1), CastlingRights(15));
    assert_eq!(CastlingRights::kept_after(Square::A1), CastlingRights(13));
    assert_eq!(CastlingRights(9).to_usize(), 9);
    assert!(CastlingRights(9).contains(8));
    assert!(!CastlingRights(9).contains(2));
}

#[test]
fn scores() {
    assert_eq!(raw_piece_value(Piece::Queen), 900);
    assert_eq!(piece_square_table(Piece::Knight, Square::A1, Color::White), -50);
    assert_eq!(piece_square_table(Piece::Pawn, Square::E7, Color::White), 50);
    assert_eq!(piece_square_table(Piece::Pawn, Square::E2, Color::Black), 50);
    assert_eq!(piece_value(Piece::Pawn, Square::D4, Color::White), 120);
    assert_eq!(piece_value(Piece::Pawn, Square::D5, Color::Black), -120);
    let start = Board::default();
    assert_eq!(board_value(&start), Evaluation(0));
    let up_a_queen = Board::from_str("4k3/8/8/8/8/8/8/3QK3 w - - 0 1").unwrap();
    assert_eq!(board_value(&up_a_queen), Evaluation(900 - 5));
    assert_eq!(Evaluation::mate_in(3), Evaluation(99_997));
    assert_eq!(Evaluation::mated_in(3), Evaluation(-99_997));
    assert!(Evaluation(99_900).is_mate());
    assert!(Evaluation(-99_900).is_mate());
    assert!(!Evaluation(99_899).is_mate());
    assert!(!Evaluation(-99_899).is_mate());
    assert!(Evaluation(-99_901).is_mate());
    assert!(Evaluation::new_mate_eval(Color::White, 100).is_mate());
    assert_eq!(Evaluation(-99_900).mate_num_ply(), -100);
    assert_eq!(Evaluation(99_995).mate_num_ply(), 5);
    assert_eq!(Evaluation(99_995).mate_full_moves(), 3);
    assert_eq!(Evaluation(-99_995).mate_full_moves(), -2);
    assert_eq!(Evaluation(99_990).score_to_tt(4).tt_to_score(7), Evaluation(99_987));
    assert_eq!(Evaluation(17).neg(), Evaluation(-17));
}

#[test]
fn keys_differ() {
    assert_ne!(scrambled(1), scrambled(2));
    assert_eq!(scrambled(1), 0xe220_a839_7b1d_cdaf);
    assert_ne!(piece_keys(Color::White, Piece::Pawn, 8), piece_keys(Color::Black, Piece::Pawn, 8));
    assert_ne!(piece_keys(Color::White, Piece::Pawn, 8), piece_keys(Color::White, Piece::Pawn, 9));
    assert_ne!(castle_keys(0), castle_keys(15));
    let white = Board::from_str("4k3/8/8/8/8/8/8/4K3 w - - 0 1").unwrap();
    let black = Board::from_str("4k3/8/8/8/8/8/8/4K3 b - - 0 1").unwrap();
    assert_eq!(white.hash() ^ black.hash(), side_keys());
}

#[test]
fn moves_as_text() {
    let push = Move {
        from: Square::E2,
        to: Square::E4,
        piece: Piece::Pawn,
        promotion: None,
        flags: MoveFlag::DoublePawnPush,
    };
    assert_eq!(uci_text(push).iter().collect::<String>(), "e2e4");
    let promotion = Move {
        from: Square::E7,
        to: Square::E8,
        piece: Piece::Pawn,
        promotion: Some(Promotion::Queen),
        flags: MoveFlag::Normal,
    };
    assert_eq!(uci_text(promotion).iter().collect::<String>(), "e7e8q");
    assert!(UCIMove::of(&promotion).matches(&promotion));
    assert!(!UCIMove::of(&push).matches(&promotion));
    let mut board = Board::default();
    board.apply_move(push);
    let text = board.to_string();
    assert!(text.contains("En passant square:\tSome(E3)\n"));
    assert!(text.contains("Side to move:\t\tBlack\n"));
    assert!(text.contains("Last move:\tSome(e2e4)\n"));
    assert!(text.contains("4   . . . . P . . . \n"));
    let taken = Board::from_str("4k3/8/8/3p4/4P3/8/8/4K3 w - - 0 1").unwrap();
    let mut taken = taken;
    taken.apply_move(Move {
        from: Square::E4,
        to: Square::D5,
        piece: Piece::Pawn,
        promotion: None,
        flags: MoveFlag::Capture,
    });
    assert!(taken.to_string().contains("Captured piece:\tSome(Pawn)\n"));
    assert!(taken.to_string().contains("Castling rights:\t-\n"));
}

#[test]
fn scores_as_text() {
    assert_eq!(Evaluation(0).to_string(), "0");
    assert_eq!(Evaluation(7).to_string(), "7");
    assert_eq!(Evaluation(-120).to_string(), "-120");
    assert_eq!(Evaluation(99_899).to_string(), "99899");
    assert_eq!(Evaluation(99_900).to_string(), "#100");
    assert_eq!(Evaluation(-99_900).to_string(), "#-100");
    assert_eq!(Evaluation::mate_in(5).to_string(), "#5");
    assert_eq!(Evaluation::mated_in(12).to_string(), "#-12");
    assert_eq!(Evaluation::mate_in(0).to_string(), "#0");
}
