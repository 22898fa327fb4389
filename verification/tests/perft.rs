use chess_core::board::Board;

const KIWIPETE: &str = "r3k2r/p1ppqpb1/bn2pnp1/3PN3/1p2P3/2N2Q1p/PPPBBPPP/R3K2R w KQkq - 0 1";

fn perft(board: &mut Board, depth: u32) -> u64 {
    if depth == 0 {
        return 1;
    }
    let moves = board.generate_moves();
    if depth == 1 {
        return moves.len() as u64;
    }
    let mut leaves = 0;
    for i in 0..moves.len() {
        board.apply_move(moves.get(i));
        leaves += perft(board, depth - 1);
        board.undo_move();
    }
    leaves
}

#[test]
fn perft_start_depth_1() {
    let mut board = Board::from_str(Board::STARTING_POS_FEN).unwrap();
    assert_eq!(perft(&mut board, 1), 20);
}

#[test]
fn perft_start_depth_2() {
    let mut board = Board::from_str(Board::STARTING_POS_FEN).unwrap();
    assert_eq!(perft(&mut board, 2), 400);
}

#[test]
fn perft_start_depth_3() {
    let mut board = Board::from_str(Board::STARTING_POS_FEN).unwrap();
    assert_eq!(perft(&mut board, 3), 8_902);
}

#[test]
fn perft_start_depth_4() {
    let mut board = Board::from_str(Board::STARTING_POS_FEN).unwrap();
    assert_eq!(perft(&mut board, 4), 197_281);
}

#[test]
fn perft_kiwipete_depth_1() {
    let mut board = Board::from_str(KIWIPETE).unwrap();
    assert_eq!(perft(&mut board, 1), 48);
}

#[test]
fn perft_kiwipete_depth_2() {
    let mut board = Board::from_str(KIWIPETE).unwrap();
    assert_eq!(perft(&mut board, 2), 2_039);
}

#[test]
fn perft_kiwipete_depth_3() {
    let mut board = Board::from_str(KIWIPETE).unwrap();
    assert_eq!(perft(&mut board, 3), 97_862);
}
