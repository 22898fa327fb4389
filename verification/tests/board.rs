use chess_core::board::Board;
use chess_core::color::Color;
use chess_core::piece::Piece;
use chess_core::square::Square;

#[test]
fn test_display() {
    let expected = "
8   r n b q k b n r 
7   p p p p p p p p 
6   . . . . . . . . 
5   . . . . . . . . 
4   . . . . . . . . 
3   . . . . . . . . 
2   P P P P P P P P 
1   R N B Q K B N R 

    a b c d e f g h 

En passant square:	None
Side to move:		White
Castling rights:	KQkq
Captured piece:	None
Last move:	None
Hash: 	0xdc95d27e5ac4e249
";
    let board = Board::default();
    println!("{}", board.to_string());
    assert_eq!(expected, board.to_string());
}

#[test]
fn test_fen_parsing() {
    let board = Board::from_str("2r5/8/8/3R4/2P1k3/2K5/8/8 b - - 0 1").unwrap();

    assert_eq!(board.piece_on_square(Square::C3), Some(Piece::King));
    assert_eq!(board.piece_on_square(Square::E4), Some(Piece::King));
    assert_eq!(board.piece_on_square(Square::C4), Some(Piece::Pawn));
    assert_eq!(board.piece_on_square(Square::D5), Some(Piece::Rook));
    assert_eq!(board.piece_on_square(Square::C8), Some(Piece::Rook));

    assert_eq!(board.color_on_square(Square::C3), Some(Color::White));
    assert_eq!(board.color_on_square(Square::E4), Some(Color::Black));
    assert_eq!(board.color_on_square(Square::C4), Some(Color::White));
    assert_eq!(board.color_on_square(Square::D5), Some(Color::White));
    assert_eq!(board.color_on_square(Square::C8), Some(Color::Black));

    println!("{}", board.to_string());
}
