use chess_core::bitboard::BitBoard;
use chess_core::color::Color;
use chess_core::pawn_move::{generate_pawn_attacks, mask_pawn_attacks};
use chess_core::square::Square;

#[test]
fn test_pawn_attack_white_e4() {
    let mut expected = BitBoard(0);
    expected = expected.with(Square::D5);
    expected = expected.with(Square::F5);
    let attacks = mask_pawn_attacks(Square::E4, Color::White);
    println!("{:?}", attacks);
    assert_eq!(expected, attacks);
}

#[test]
fn test_pawn_attack_white_a1() {
    let mut expected = BitBoard(0);
    expected = expected.with(Square::B2);
    let attacks = mask_pawn_attacks(Square::A1, Color::White);
    println!("{:?}", attacks);
    assert_eq!(expected, attacks);
}

#[test]
fn test_pawn_attack_white_h1() {
    let mut expected = BitBoard(0);
    expected = expected.with(Square::G2);
    let attacks = mask_pawn_attacks(Square::H1, Color::White);
    println!("{:?}", attacks);
    assert_eq!(expected, attacks);
}

#[test]
fn test_pawn_attack_black_e6() {
    let mut expected = BitBoard(0);
    expected = expected.with(Square::D5);
    expected = expected.with(Square::F5);
    let attacks = mask_pawn_attacks(Square::E6, Color::Black);
    println!("{:?}", attacks);
    assert_eq!(expected, attacks);
}

#[test]
fn test_pawn_attack_black_a8() {
    let mut expected = BitBoard(0);
    expected = expected.with(Square::B7);
    let attacks = mask_pawn_attacks(Square::A8, Color::Black);
    println!("{:?}", attacks);
    assert_eq!(expected, attacks);
}

#[test]
fn test_pawn_attack_black_h8() {
    let mut expected = BitBoard(0);
    expected = expected.with(Square::G7);
    let attacks = mask_pawn_attacks(Square::H8, Color::Black);
    println!("{:?}", attacks);
    assert_eq!(expected, attacks);
}

#[test]
fn pawn_attack_table_agrees_with_masks() {
    let table = generate_pawn_attacks();
    for index in 0..64u8 {
        let square = Square::from_index(index);
        assert_eq!(table[0][index as usize], mask_pawn_attacks(square, Color::White));
        assert_eq!(table[1][index as usize], mask_pawn_attacks(square, Color::Black));
    }
    assert_eq!(table[0][Square::E2.to_index() as usize], BitBoard((1 << 19) | (1 << 21)));
    assert_eq!(table[1][Square::A7.to_index() as usize], BitBoard(1 << 41));
}
