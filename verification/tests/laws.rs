use chess_core::bitboard::{BitBoard, EDGE_RANKS};
use chess_core::board::Board;
use chess_core::chess_move::{Move, MoveFlag};
use chess_core::piece::Piece;
use chess_core::square::Square;

const KIWIPETE: &str = "r3k2r/p1ppqpb1/bn2pnp1/3PN3/1p2P3/2N2Q1p/PPPBBPPP/R3K2R w KQkq - 0 1";
const PROMOTIONS: &str = "n1n5/PPPk4/8/8/8/8/4Kppp/5N1N b - - 0 1";

fn next(seed: &mut u64) -> u64 {
    *seed = seed.wrapping_mul(6364136223846793005).wrapping_add(1442695040888963407);
    *seed >> 33
}

fn assert_sets_agree(board: &Board) {
    let white = board.occupancies[0].0;
    let black = board.occupancies[1].0;
    assert_eq!(white & black, 0);
    assert_eq!(board.combined.0, white | black);
    let mut union = 0u64;
    for p in 0..6 {
        for q in (p + 1)..6 {
            assert_eq!(board.pieces[p].0 & board.pieces[q].0, 0);
        }
        union |= board.pieces[p].0;
    }
    assert_eq!(board.combined.0, union);
    assert_eq!(BitBoard(board.pieces[5].0 & white).popcnt(), 1);
    assert_eq!(BitBoard(board.pieces[5].0 & black).popcnt(), 1);
    assert_eq!(board.pieces[0].0 & EDGE_RANKS, 0);
    assert_eq!(board.hash(), board.hash_from_scratch());
}

fn same(a: &Board, b: &Board) -> bool {
    a.pieces == b.pieces
        && a.occupancies == b.occupancies
        && a.combined == b.combined
        && a.side_to_move == b.side_to_move
        && a.state == b.state
        && a.history == b.history
        && a.game_ply == b.game_ply
}

fn play_at_random(fen: &str, seed: u64, plies: usize) {
    let mut board = Board::from_str(fen).unwrap();
    let mut seed = seed;
    let mut played = 0;
    assert_sets_agree(&board);
    for _ in 0..plies {
        let moves = board.generate_moves();
        if moves.is_empty() {
            break;
        }
        for i in 0..moves.len() {
            let before = board.clone();
            assert!(board.leaves_king_safe(moves.get(i)));
            assert!(same(&board, &before));
            board.apply_move(moves.get(i));
            assert_sets_agree(&board);
            board.undo_move();
            assert!(same(&board, &before));
        }
        let pick = moves.get((next(&mut seed) % moves.len() as u64) as usize);
        board.apply_move(pick);
        played += 1;
        assert_sets_agree(&board);
        assert_eq!(board.history.len(), played);
    }
    while played > 0 {
        board.undo_move();
        played -= 1;
        assert_sets_agree(&board);
    }
    let start = Board::from_str(fen).unwrap();
    assert!(same(&board, &start));
}

#[test]
fn sets_and_hash_hold_under_random_play_from_the_start() {
    for seed in 0..12 {
        play_at_random(Board::STARTING_POS_FEN, seed, 20);
    }
}

#[test]
fn sets_and_hash_hold_under_random_play_with_castling_and_promotions() {
    for seed in 0..6 {
        play_at_random(KIWIPETE, 100 + seed, 20);
        play_at_random(PROMOTIONS, 200 + seed, 20);
    }
}

#[test]
fn undo_on_a_fresh_board_changes_nothing() {
    let mut board = Board::from_str(KIWIPETE).unwrap();
    let before = board.clone();
    board.undo_move();
    assert!(same(&board, &before));
}

#[test]
fn apply_then_undo_restores_every_kind_of_move() {
    // plain move, capture, double push, castling on both wings
    let mut board = Board::from_str(KIWIPETE).unwrap();
    let before = board.clone();
    for m in [
        Move { from: Square::A2, to: Square::A3, piece: Piece::Pawn, promotion: None, flags: MoveFlag::Normal },
        Move { from: Square::A2, to: Square::A4, piece: Piece::Pawn, promotion: None, flags: MoveFlag::DoublePawnPush },
        Move { from: Square::E5, to: Square::F7, piece: Piece::Knight, promotion: None, flags: MoveFlag::Capture },
        Move { from: Square::E1, to: Square::G1, piece: Piece::King, promotion: None, flags: MoveFlag::Castling },
        Move { from: Square::E1, to: Square::C1, piece: Piece::King, promotion: None, flags: MoveFlag::Castling },
    ] {
        assert!(board.generate_moves().contains(&m));
        board.apply_move(m);
        assert_ne!(board.hash(), before.hash());
        board.undo_move();
        assert!(same(&board, &before));
    }
}

#[test]
fn a_pinned_piece_that_leaves_its_line_is_not_safe() {
    // the knight on e2 shields the king on e1 from the rook on e8
    let mut board = Board::from_str("4r1k1/8/8/8/8/8/4N3/4K3 w - - 0 1").unwrap();
    let off_line = Move {
        from: Square::E2,
        to: Square::C3,
        piece: Piece::Knight,
        promotion: None,
        flags: MoveFlag::Normal,
    };
    assert!(!board.leaves_king_safe(off_line));
    assert!(!board.generate_moves().contains(&off_line));
    let king_step = Move {
        from: Square::E1,
        to: Square::D1,
        piece: Piece::King,
        promotion: None,
        flags: MoveFlag::Normal,
    };
    assert!(board.leaves_king_safe(king_step));
    assert!(board.generate_moves().contains(&king_step));
    assert_eq!(board.generate_moves().len(), 4);
}
