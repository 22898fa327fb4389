use chess_core::board::Board;
use chess_core::chess_move::{Move, MoveFlag};
use chess_core::movgen::en_passant::EnPassantMoveGenerator;
use chess_core::movgen::MoveList;
use chess_core::piece::Piece;
use chess_core::square::Square;

#[test]
fn test_en_passant() {
    let board = Board::from_str("8/8/k7/8/2Pp4/8/8/3K4 b - c3 0 1").unwrap();
    let mut move_list = MoveList::new();
    EnPassantMoveGenerator::generate::<false>(&board, &mut move_list);
    println!("{:#?}", move_list);

    assert_eq!(move_list.len(), 1);
    assert!(move_list.contains(&Move {
        from: Square::D4,
        to: Square::C3,
        promotion: None,
        piece: Piece::Pawn,
        flags: MoveFlag::EnPassant,
    }));
}

#[test]
fn test_invalid_en_passant_horizontal() {
    let board = Board::from_str("8/8/8/8/k1Pp3R/8/8/3K4 b - c3 0 1").unwrap();
    let mut move_list = MoveList::new();
    EnPassantMoveGenerator::generate::<false>(&board, &mut move_list);
    println!("{:#?}", move_list);

    assert_eq!(move_list.len(), 0);
}

#[test]
fn test_invalid_en_passant_vertical() {
    let board = Board::from_str("5q2/8/8/4pP2/8/8/8/5K2 w - e6 0 1").unwrap();
    let mut move_list = MoveList::new();
    EnPassantMoveGenerator::generate::<false>(&board, &mut move_list);
    println!("{:#?}", move_list);

    assert_eq!(move_list.len(), 0);
}

#[test]
fn test_invalid_en_passant_diagonal() {
    let board = Board::from_str("8/7q/8/4pP2/8/8/8/1K6 w - e6 0 1").unwrap();
    let mut move_list = MoveList::new();
    EnPassantMoveGenerator::generate::<false>(&board, &mut move_list);
    println!("{:#?}", move_list);

    assert_eq!(move_list.len(), 0);
}

#[test]
fn test_valid_en_passant() {
    let board = Board::from_str("8/7k/8/8/2Pp4/8/8/K7 b - c3 0 1").unwrap();
    let mut move_list = MoveList::new();
    EnPassantMoveGenerator::generate::<false>(&board, &mut move_list);
    println!("{:#?}", move_list);

    assert_eq!(move_list.len(), 1);
    assert!(move_list.contains(&Move {
        from: Square::D4,
        to: Square::C3,
        promotion: None,
        piece: Piece::Pawn,
        flags: MoveFlag::EnPassant,
    }));
}

#[test]
fn test_en_passant_edge() {
    let board =
        Board::from_str("r3k2r/p1ppqpb1/bn2pnp1/3PN3/Pp2P3/2N2Q1p/1PPBBPPP/R3K2R b KQkq a3 0 1")
            .unwrap();
    let mut move_list = MoveList::new();
    EnPassantMoveGenerator::generate::<false>(&board, &mut move_list);
    println!("{:#?}", move_list);

    assert_eq!(move_list.len(), 1);
    assert!(move_list.contains(&Move {
        from: Square::B4,
        to: Square::A3,
        promotion: None,
        piece: Piece::Pawn,
        flags: MoveFlag::EnPassant,
    }));
}

#[test]
fn test_en_passant_in_check() {
    let board = Board::from_str("1kb5/p7/P7/2Ppb2B/7P/7K/8/8 w - d6 0 4").unwrap();
    let mut move_list = MoveList::new();
    EnPassantMoveGenerator::generate::<true>(&board, &mut move_list);
    println!("{:#?}", move_list);

    assert_eq!(move_list.len(), 0);
}

#[test]
fn test_en_passant2() {
    let board = Board::from_str("8/8/3p4/1Pp4r/KR3p1k/8/4P1P1/8 w - c6 0 2").unwrap();
    let mut move_list = MoveList::new();
    EnPassantMoveGenerator::generate::<true>(&board, &mut move_list);
    println!("{:#?}", move_list);

    assert_eq!(move_list.len(), 1);
}

#[test]
fn test_en_passant_vertical_pin() {
    let board = Board::from_str("8/8/3p4/KPp3kr/5pP1/8/4P3/6R1 b - g3 0 3").unwrap();
    let mut move_list = MoveList::new();
    EnPassantMoveGenerator::generate::<false>(&board, &mut move_list);
    println!("{:#?}", move_list);

    assert_eq!(move_list.len(), 1);
}
