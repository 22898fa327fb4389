use chess_core::board::{Board, BoardStatus};
use chess_core::castling_rights::CastlingRights;
use chess_core::color::Color;
use chess_core::fen::ParseFenError;
use chess_core::piece::Piece;
use chess_core::square::Square;
use chess_core::uci_move::UCIMove;

fn error_of(fen: &str) -> ParseFenError {
    Board::from_str(fen).err().unwrap()
}

#[test]
fn fen_fields_are_read() {
    let board = Board::from_str(Board::KILLER_POS_FEN).unwrap();
    assert_eq!(board.side_to_move(), Color::White);
    assert_eq!(board.castling_rights(), CastlingRights(15));
    assert_eq!(board.en_passant_target(), Some(Square::E6));
    assert_eq!(board.game_ply(), 0);
    assert_eq!(board.piece_on_square(Square::G7), Some(Piece::Pawn));
    assert_eq!(board.color_on_square(Square::G7), Some(Color::White));
    assert_eq!(board.piece_on_square(Square::E4), None);
    assert_eq!(board.color_on_square(Square::E4), None);
    assert!(board.checkers().is_empty());
    assert!(board.pinned().is_empty());
    let black = Board::from_str("4k3/8/8/8/8/8/8/4K3 b Kq - 7 12").unwrap();
    assert_eq!(black.side_to_move(), Color::Black);
    assert_eq!(black.castling_rights(), CastlingRights(9));
    assert_eq!(black.state.rule50, 7);
    assert_eq!(black.game_ply(), 23);
    assert!(black.history.is_empty());
}

#[test]
fn starting_board_is_the_parsed_starting_position() {
    let parsed = Board::from_str(Board::STARTING_POS_FEN).unwrap();
    let built = Board::default();
    assert!(parsed == built);
    assert_eq!(parsed.state, built.state);
    assert_eq!(parsed.game_ply(), built.game_ply());
    let by_trait: Board = Board::STARTING_POS_FEN.parse().unwrap();
    assert_eq!(by_trait.hash(), built.hash());
}

#[test]
fn fen_with_a_wrong_number_of_fields_is_rejected() {
    assert_eq!(error_of(""), ParseFenError::PartMissing(1));
    assert_eq!(error_of("8/8/8/8/8/8/8/8 w - -"), ParseFenError::PartMissing(4));
    assert_eq!(
        error_of("4k3/8/8/8/8/8/8/4K3 w - - 0 1 x"),
        ParseFenError::PartMissing(7)
    );
    assert_eq!(
        error_of("4k3/8/8/8/8/8/8/4K3  w - - 0 1"),
        ParseFenError::PartMissing(7)
    );
}

#[test]
fn fen_with_a_bad_placement_is_rejected() {
    assert_eq!(error_of("4k3/8/8/8/8/8/4K3 w - - 0 1"), ParseFenError::BadPlacement);
    assert_eq!(error_of("4k3/8/8/8/8/8/8/8/4K3 w - - 0 1"), ParseFenError::TooManyRanks);
    assert_eq!(error_of("4k3/8/8/8/8/8/8/4K4 w - - 0 1"), ParseFenError::TooManyFiles);
    assert_eq!(error_of("4k3/8/8/8/8/8/8/8K w - - 0 1"), ParseFenError::TooManyFiles);
    assert_eq!(error_of("4k3/8/8/8/8/8/9/4K3 w - - 0 1"), ParseFenError::TooManyFiles);
    assert_eq!(error_of("4k3/8/8/8/8/8/8/4K2x w - - 0 1"), ParseFenError::InvalidPiece('x'));
    // the first rank is read first
    assert_eq!(error_of("4k2y/8/8/8/8/8/8/4K2x w - - 0 1"), ParseFenError::InvalidPiece('x'));
    // no king of the side to move, two kings of one side, a pawn on the last rank
    assert_eq!(error_of("4k3/8/8/8/8/8/8/8 w - - 0 1"), ParseFenError::BadPlacement);
    assert_eq!(error_of("4k1k1/8/8/8/8/8/8/4K3 w - - 0 1"), ParseFenError::BadPlacement);
    assert_eq!(error_of("4k2P/8/8/8/8/8/8/4K3 w - - 0 1"), ParseFenError::BadPlacement);
    // a side that is not to move may stand without a king
    assert!(Board::from_str("8/8/8/8/8/8/8/4K3 w - - 0 1").is_ok());
}

#[test]
fn fen_with_bad_settings_is_rejected() {
    assert_eq!(error_of("4k3/8/8/8/8/8/8/4K3 x - - 0 1"), ParseFenError::NoSuchSide);
    assert_eq!(error_of("4k3/8/8/8/8/8/8/4K3 ww - - 0 1"), ParseFenError::NoSuchSide);
    assert_eq!(error_of("4k3/8/8/8/8/8/8/4K3 w KX - 0 1"), ParseFenError::BadCastlingRights);
    assert_eq!(error_of("4k3/8/8/8/8/8/8/4K3 w  - 0 1"), ParseFenError::BadCastlingRights);
    assert_eq!(error_of("4k3/8/8/8/8/8/8/4K3 w - e9 0 1"), ParseFenError::BadEnPassant);
    assert_eq!(error_of("4k3/8/8/8/8/8/8/4K3 w - e2 0 1"), ParseFenError::BadEnPassant);
    assert_eq!(error_of("4k3/8/8/8/8/8/8/4K3 w - e 0 1"), ParseFenError::BadEnPassant);
    // a target without a pawn behind it
    assert_eq!(error_of("4k3/8/8/8/8/8/8/4K3 w - e6 0 1"), ParseFenError::BadEnPassant);
    assert_eq!(error_of("4k3/8/8/8/8/8/8/4K3 w - - 256 1"), ParseFenError::BadHalfMoveClock);
    assert_eq!(error_of("4k3/8/8/8/8/8/8/4K3 w - - x 1"), ParseFenError::BadHalfMoveClock);
    assert_eq!(error_of("4k3/8/8/8/8/8/8/4K3 w - - 0 0"), ParseFenError::BadFullMoveNumber);
    assert_eq!(error_of("4k3/8/8/8/8/8/8/4K3 w - - 0 32769"), ParseFenError::BadFullMoveNumber);
    assert_eq!(error_of("4k3/8/8/8/8/8/8/4K3 w - - 0 -1"), ParseFenError::BadFullMoveNumber);
    assert!(Board::from_str("4k3/8/8/8/8/8/8/4K3 w - - 255 32768").is_ok());
}

#[test]
fn status_tells_mate_from_stalemate() {
    let ongoing = Board::from_str(Board::STARTING_POS_FEN).unwrap();
    assert_eq!(ongoing.status(), BoardStatus::Ongoing);
    let mate = Board::from_str("rnb1kbnr/pppp1ppp/8/4p3/6Pq/5P2/PPPPP2P/RNBQKBNR w KQkq - 1 3").unwrap();
    assert_eq!(mate.status(), BoardStatus::Checkmate);
    assert!(!mate.checkers().is_empty());
    let stalemate = Board::from_str("7k/5Q2/6K1/8/8/8/8/8 b - - 0 1").unwrap();
    assert_eq!(stalemate.status(), BoardStatus::Stalemate);
}

#[test]
fn repetition_is_seen_when_the_position_returns() {
    let mut board = Board::from_str("5K2/8/8/8/8/8/8/5k2 w - - 0 1").unwrap();
    let line = [
        (Square::F8, Square::E8),
        (Square::F1, Square::E1),
        (Square::E8, Square::F8),
        (Square::E1, Square::F1),
    ];
    assert!(!board.is_repetition());
    for (i, (from, to)) in line.iter().enumerate() {
        board.apply_uci_move(UCIMove { from: *from, to: *to, promotion: None });
        assert_eq!(board.is_repetition(), i == 3);
    }
}

#[test]
fn moves_update_rights_target_and_clock() {
    let mut board = Board::from_str("r3k2r/8/8/8/8/8/P7/R3K2R w KQkq - 5 9").unwrap();
    board.apply_uci_move(UCIMove { from: Square::A2, to: Square::A4, promotion: None });
    assert_eq!(board.en_passant_target(), Some(Square::A3));
    assert_eq!(board.state.rule50, 0);
    assert_eq!(board.castling_rights(), CastlingRights(15));
    board.apply_uci_move(UCIMove { from: Square::H8, to: Square::H2, promotion: None });
    assert_eq!(board.en_passant_target(), None);
    assert_eq!(board.state.captured_piece, None);
    assert_eq!(board.castling_rights(), CastlingRights(1 | 2 | 8));
    board.apply_uci_move(UCIMove { from: Square::E1, to: Square::C1, promotion: None });
    assert_eq!(board.castling_rights(), CastlingRights(8));
    assert_eq!(board.piece_on_square(Square::D1), Some(Piece::Rook));
    assert_eq!(board.piece_on_square(Square::A1), None);
    assert_eq!(board.state.rule50, 2);
    assert_eq!(board.game_ply(), 16 + 3);
    assert_eq!(board.side_to_move(), Color::Black);
}

#[test]
fn a_rook_that_is_taken_in_its_corner_takes_the_right_along() {
    let mut board = Board::from_str("r3k2r/8/8/8/8/8/8/R3K2R b KQkq - 0 1").unwrap();
    board.apply_uci_move(UCIMove { from: Square::A8, to: Square::A1, promotion: None });
    assert_eq!(board.state.captured_piece, Some(Piece::Rook));
    assert_eq!(board.castling_rights(), CastlingRights(1 | 4));
    assert_eq!(board.state.rule50, 0);
    assert!(!board.checkers().is_empty());
}

#[test]
fn only_a_corner_ends_a_right_when_a_rook_moves() {
    // the king stands on h1, so the right on the queen's side is stale; a rook that leaves
    // e1 touches no corner and ends no right
    let mut board = Board::from_str("4k3/8/8/8/8/8/8/R3R2K w Q - 0 1").unwrap();
    board.apply_uci_move(UCIMove { from: Square::E1, to: Square::E2, promotion: None });
    assert_eq!(board.castling_rights(), CastlingRights(2));
    board.undo_move();
    // the rook that leaves a1 ends the right of that corner
    board.apply_uci_move(UCIMove { from: Square::A1, to: Square::A2, promotion: None });
    assert_eq!(board.castling_rights(), CastlingRights(0));
    // a rook that reaches a corner ends the right of that corner, a king both of its side
    let mut board = Board::from_str("r3k2r/8/8/8/8/8/8/R3K2R w KQkq - 0 1").unwrap();
    board.apply_uci_move(UCIMove { from: Square::H1, to: Square::H8, promotion: None });
    assert_eq!(board.castling_rights(), CastlingRights(2 | 8));
    board.apply_uci_move(UCIMove { from: Square::E8, to: Square::E7, promotion: None });
    assert_eq!(board.castling_rights(), CastlingRights(2));
    // a bishop that takes a rook in its corner ends that corner's right only
    let mut board = Board::from_str("r3k2r/8/8/8/8/8/6B1/R3K2R w KQkq - 0 1").unwrap();
    board.apply_uci_move(UCIMove { from: Square::G2, to: Square::A8, promotion: None });
    assert_eq!(board.castling_rights(), CastlingRights(1 | 2 | 4));
}
