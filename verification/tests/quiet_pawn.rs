use chess_core::board::Board;
use chess_core::chess_move::{Move, MoveFlag, ALL_PROMOTIONS};
use chess_core::movgen::quiet_pawn::QuietPawnMoveGenerator;
use chess_core::movgen::MoveList;
use chess_core::piece::Piece;
use chess_core::square::Square::{B2, B3, B4, B5, B6, E2, E4, H2, H3, H4, H7, H8};

#[test]
fn test_single_and_double_push() {
    let board = Board::from_str("k7/8/8/8/8/8/7P/K7 w - - 0 1").unwrap();
    let mut move_list = MoveList::new();
    QuietPawnMoveGenerator::generate::<false>(&board, &mut move_list);

    println!("{:#?}", move_list);

    assert_eq!(move_list.len(), 2);
    assert!(move_list.contains(&Move {
        from: H2,
        to: H3,
        promotion: None,
        piece: Piece::Pawn,
        flags: MoveFlag::Normal,
    }));

    assert!(move_list.contains(&Move {
        from: H2,
        to: H4,
        promotion: None,
        piece: Piece::Pawn,
        flags: MoveFlag::DoublePawnPush,
    }));
}

#[test]
fn test_promotion() {
    let board = Board::from_str("k7/7P/8/8/8/8/8/K7 w - - 0 1").unwrap();
    let mut move_list = MoveList::new();
    QuietPawnMoveGenerator::generate::<false>(&board, &mut move_list);
    println!("{:#?}", move_list);

    assert_eq!(move_list.len(), 4);
    for promotion in ALL_PROMOTIONS {
        assert!(move_list.contains(&Move {
            from: H7,
            to: H8,
            promotion: Some(promotion),
            piece: Piece::Pawn,
            flags: MoveFlag::Normal,
        }));
    }
}

#[test]
fn test_forced_check_block() {
    let board = Board::from_str("6k1/8/8/8/K6r/8/4P3/8 w - - 0 1").unwrap();
    let mut move_list = MoveList::new();
    QuietPawnMoveGenerator::generate::<true>(&board, &mut move_list);
    println!("{:#?}", move_list);

    assert_eq!(move_list.len(), 1);

    assert!(move_list.contains(&Move {
        from: E2,
        to: E4,
        promotion: None,
        piece: Piece::Pawn,
        flags: MoveFlag::DoublePawnPush,
    }));
}

#[test]
fn test_pinned_by_rook_but_can_move_forward() {
    let board = Board::from_str("1K4k1/8/8/1P6/8/1r6/8/8 w - - 0 1").unwrap();
    let mut move_list = MoveList::new();
    QuietPawnMoveGenerator::generate::<false>(&board, &mut move_list);
    println!("{:#?}", move_list);

    assert_eq!(move_list.len(), 1);
    assert!(move_list.contains(&Move {
        from: B5,
        to: B6,
        promotion: None,
        piece: Piece::Pawn,
        flags: MoveFlag::Normal,
    }));
}

#[test]
fn test_rook_backward_pin() {
    let board = Board::from_str("1r4k1/8/8/8/8/8/1P6/1K6 w - - 0 1").unwrap();
    let mut move_list = MoveList::new();
    QuietPawnMoveGenerator::generate::<false>(&board, &mut move_list);
    println!("{:#?}", move_list);

    assert_eq!(move_list.len(), 2);
    assert!(move_list.contains(&Move {
        from: B2,
        to: B3,
        promotion: None,
        piece: Piece::Pawn,
        flags: MoveFlag::Normal,
    }));
    assert!(move_list.contains(&Move {
        from: B2,
        to: B4,
        promotion: None,
        piece: Piece::Pawn,
        flags: MoveFlag::DoublePawnPush,
    }));
}

#[test]
fn test_bishop_pin() {
    let board = Board::from_str("6k1/8/5b2/8/8/8/1P6/K7 w - - 0 1").unwrap();
    let mut move_list = MoveList::new();
    QuietPawnMoveGenerator::generate::<false>(&board, &mut move_list);
    println!("{:#?}", move_list);

    assert_eq!(move_list.len(), 0);
}

#[test]
fn test_two_pawns_one_bishop_pin() {
    let board = Board::from_str("6k1/8/5b2/8/8/1P6/1P6/K7 w - - 0 1").unwrap();
    let mut move_list = MoveList::new();
    QuietPawnMoveGenerator::generate::<false>(&board, &mut move_list);
    println!("{:#?}", move_list);

    assert_eq!(move_list.len(), 1);
    assert!(move_list.contains(&Move {
        from: B3,
        to: B4,
        promotion: None,
        piece: Piece::Pawn,
        flags: MoveFlag::Normal,
    }));
}

#[test]
fn test_check_pawn_can_not_block() {
    let board = Board::from_str("6k1/8/5b2/8/8/1P6/8/K7 w - - 0 1").unwrap();
    let mut move_list = MoveList::new();
    QuietPawnMoveGenerator::generate::<true>(&board, &mut move_list);
    println!("{:#?}", move_list);

    assert_eq!(move_list.len(), 0);
}

#[test]
fn test_pawn_pushes_startpos() {
    let board = Board::default();
    let mut move_list = MoveList::new();
    QuietPawnMoveGenerator::generate::<false>(&board, &mut move_list);
    println!("{:#?}", move_list);

    assert_eq!(move_list.len(), 16);
}
