use std::sync::atomic::AtomicBool;

use chess_core::board::Board;
use chess_core::chess_move::{Move, MoveFlag};
use chess_core::evaluation::Evaluation;
use chess_core::piece::Piece;
use chess_core::search::{
    evaluate, find_best_move, negamax, negamax_when, quiescence, quiescence_when, INFINITE,
};
use chess_core::searcher::SearchLimits;
use chess_core::square::Square;
use chess_core::transposition_table::{Bound, Entry, TranspositionTable};

fn same(a: &Board, b: &Board) -> bool {
    a.pieces == b.pieces
        && a.occupancies == b.occupancies
        && a.combined == b.combined
        && a.side_to_move == b.side_to_move
        && a.state == b.state
        && a.history == b.history
        && a.game_ply == b.game_ply
}

/// The score of a position by plain search of every line, without window or table.
fn plain(board: &mut Board, depth: u8, ply: u8) -> i32 {
    if ply > 0 && (board.state.rule50 >= 100 || board.is_repetition()) {
        return 0;
    }
    if depth == 0 {
        return plain_quiet(board, ply);
    }
    let moves = board.generate_moves();
    if moves.is_empty() {
        return if board.checkers().is_empty() { 0 } else { ply as i32 - 100_000 };
    }
    let mut best = -INFINITE;
    for i in 0..moves.len() {
        board.apply_move(moves.get(i));
        best = best.max(-plain(board, depth - 1, ply + 1));
        board.undo_move();
    }
    best
}

fn plain_quiet(board: &mut Board, ply: u8) -> i32 {
    let mut best = evaluate(board);
    if ply >= 64 {
        return best;
    }
    let moves = board.generate_moves();
    for i in 0..moves.len() {
        let m = moves.get(i);
        let loud = m.flags == MoveFlag::Capture
            || m.flags == MoveFlag::EnPassant
            || m.promotion == Some(chess_core::chess_move::Promotion::Queen);
        if loud {
            board.apply_move(m);
            best = best.max(-plain_quiet(board, ply + 1));
            board.undo_move();
        }
    }
    best
}

#[test]
fn table_keeps_the_deeper_entry_of_one_search() {
    let mut table = TranspositionTable::new(4);
    assert_eq!(table.entries.len(), 16);
    let shallow = Entry {
        key: 0x35,
        depth: 2,
        bound: Bound::Exact,
        score: Evaluation(10),
        best_move: None,
        age: 0,
    };
    let deep = Entry { depth: 5, score: Evaluation(20), ..shallow };
    let other = Entry { key: 0x45, depth: 1, bound: Bound::Lower, ..shallow };
    assert_eq!(table.probe(0x35), None);
    table.store(shallow);
    assert_eq!(table.probe(0x35), Some(shallow));
    // another hash with the same low bits misses
    assert_eq!(table.probe(0x45), None);
    table.store(deep);
    assert_eq!(table.probe(0x35), Some(deep));
    // a shallower entry of the same search does not replace a deeper one
    table.store(shallow);
    assert_eq!(table.probe(0x35), Some(deep));
    table.store(other);
    assert_eq!(table.probe(0x35), Some(deep));
    // but one of another search does
    table.new_search();
    assert_eq!(table.age, 1);
    table.store(Entry { age: 1, ..other });
    assert_eq!(table.probe(0x45), Some(Entry { age: 1, ..other }));
    assert_eq!(table.probe(0x35), None);
    table.clear();
    assert_eq!(table.probe(0x45), None);
    assert_eq!(table.entries.len(), 16);
}

#[test]
fn search_finds_the_mate_in_one() {
    // the queen mates on h7 or on g7
    let mut board = Board::from_str("7k/8/5KQ1/8/8/8/8/8 w - - 0 1").unwrap();
    let before = board.clone();
    let mut table = TranspositionTable::new(10);
    let stop = AtomicBool::new(false);
    let outcome = find_best_move(&mut board, &mut table, &stop, SearchLimits::to_depth(2), false).unwrap();
    assert!(same(&board, &before));
    assert_eq!(outcome.depth, 2);
    assert_eq!(outcome.score, Some(100_000 - 1));
    assert_eq!(outcome.best_move.piece, Piece::Queen);
    board.apply_move(outcome.best_move);
    assert_eq!(board.status(), chess_core::board::BoardStatus::Checkmate);
}

#[test]
fn search_takes_the_hanging_queen() {
    let mut board = Board::from_str("4k3/8/8/3q4/4P3/8/8/4K3 w - - 0 1").unwrap();
    let mut table = TranspositionTable::new(10);
    let stop = AtomicBool::new(false);
    let outcome = find_best_move(&mut board, &mut table, &stop, SearchLimits::to_depth(1), false).unwrap();
    assert_eq!(
        outcome.best_move,
        Move {
            from: Square::E4,
            to: Square::D5,
            piece: Piece::Pawn,
            promotion: None,
            flags: MoveFlag::Capture,
        }
    );
    let entry = table.probe(board.hash()).unwrap();
    assert_eq!(entry.best_move, Some(outcome.best_move));
    assert_eq!(entry.bound, Bound::Exact);
    assert_eq!(entry.depth, 1);
    assert_eq!(entry.age, 1);
}

#[test]
fn search_with_window_and_table_gives_the_score_of_plain_search() {
    for fen in [
        "4k3/8/4p3/3p4/4P3/8/8/4K3 w - - 0 1",
        "8/2p5/3p4/KP5r/1R3p1k/8/4P1P1/8 w - - 0 1",
        "rnbqkbnr/pppppppp/8/8/8/8/PPPPPPPP/RNBQKBNR w KQkq - 0 1",
    ] {
        let mut board = Board::from_str(fen).unwrap();
        let before = board.clone();
        for depth in 1..=2u8 {
            let expected = plain(&mut board, depth, 0);
            let mut table = TranspositionTable::new(12);
            let stop = AtomicBool::new(false);
            let mut budget = u64::MAX;
            let found = negamax(
                &mut board, &mut table, &stop, &mut budget, false, -INFINITE, INFINITE, depth, 0,
            )
            .unwrap();
            assert_eq!(found.score, expected, "{fen} at depth {depth}");
            assert!(same(&board, &before));
            // a window brings the score into it
            let mut budget = u64::MAX;
            let narrow = negamax(
                &mut board, &mut table, &stop, &mut budget, false, expected + 5, expected + 50, depth, 0,
            )
            .unwrap();
            assert_eq!(narrow.score, expected + 5);
            let mut budget = u64::MAX;
            let low = negamax(
                &mut board, &mut table, &stop, &mut budget, false, expected - 50, expected - 5, depth, 0,
            )
            .unwrap();
            assert_eq!(low.score, expected - 5);
        }
    }
}

#[test]
fn quiescence_takes_back_what_can_be_taken_back() {
    // white to move can take the pawn on d5, black takes back: standing pat is best
    let mut board = Board::from_str("4k3/8/4p3/3p4/4P3/8/8/4K3 w - - 0 1").unwrap();
    let stop = AtomicBool::new(false);
    let stand = evaluate(&board);
    let score = quiescence(&mut board, &stop, -INFINITE, INFINITE, 0).unwrap();
    assert_eq!(score, plain_quiet(&mut board, 0));
    assert!(score >= stand);
    // with the pawn on d5 unguarded the capture wins a pawn
    let mut free = Board::from_str("4k3/8/8/3p4/4P3/8/8/4K3 w - - 0 1").unwrap();
    let before = evaluate(&free);
    let after = quiescence(&mut free, &stop, -INFINITE, INFINITE, 0).unwrap();
    assert!(after > before + 90);
}

#[test]
fn a_stopped_search_reports_a_legal_move_without_a_score() {
    let mut board = Board::default();
    let before = board.clone();
    let mut table = TranspositionTable::new(8);
    let stop = AtomicBool::new(true);
    let outcome = find_best_move(&mut board, &mut table, &stop, SearchLimits::to_depth(10), true).unwrap();
    assert_eq!(outcome.depth, 0);
    assert_eq!(outcome.score, None);
    assert!(board.generate_moves().contains(&outcome.best_move));
    assert!(same(&board, &before));
    // a budget of positions ends the search between iterations
    let stop = AtomicBool::new(false);
    let limits = SearchLimits { depth: Some(10), nodes: Some(500), move_time: None };
    let outcome = find_best_move(&mut board, &mut table, &stop, limits, true).unwrap();
    assert!(outcome.depth >= 1 && outcome.depth < 10);
    assert!(board.generate_moves().contains(&outcome.best_move));
    assert!(same(&board, &before));
}

#[test]
fn a_side_without_moves_has_nothing_to_report() {
    let mut stalemate = Board::from_str("7k/5Q2/6K1/8/8/8/8/8 b - - 0 1").unwrap();
    let mut table = TranspositionTable::new(8);
    let stop = AtomicBool::new(false);
    assert_eq!(find_best_move(&mut stalemate, &mut table, &stop, SearchLimits::none(), true), None);
    let mut budget = u64::MAX;
    let found = negamax(&mut stalemate, &mut table, &stop, &mut budget, false, -10, 10, 3, 2).unwrap();
    assert_eq!(found.score, 0);
    let mut mate = Board::from_str("7k/6Q1/6K1/8/8/8/8/8 b - - 0 1").unwrap();
    let found =
        negamax(&mut mate, &mut table, &stop, &mut budget, false, -INFINITE, INFINITE, 3, 2).unwrap();
    assert_eq!(found.score, 2 - 100_000);
}

#[test]
fn a_trusted_table_answers_below_the_root() {
    let mut board = Board::from_str("4k3/8/8/3q4/4P3/8/8/4K3 w - - 0 1").unwrap();
    let mut table = TranspositionTable::new(10);
    let stop = AtomicBool::new(false);
    let stored = Entry {
        key: board.hash(),
        depth: 9,
        bound: Bound::Exact,
        score: Evaluation(99_990),
        best_move: None,
        age: 0,
    };
    table.store(stored);
    assert_eq!(stored.score_at(4), Evaluation(99_986));
    assert_eq!(Entry { score: Evaluation(-99_990), ..stored }.score_at(4), Evaluation(-99_986));
    assert_eq!(Entry { score: Evaluation(37), ..stored }.score_at(4), Evaluation(37));
    // with trust the entry ends the search below the root: a mate score counts from the root
    let mut budget = u64::MAX;
    let found = negamax(&mut board, &mut table, &stop, &mut budget, true, -50, 50, 2, 4).unwrap();
    assert_eq!(found.score, 99_986);
    assert_eq!(budget, u64::MAX - 1);
    // an entry that was searched less deep does not answer
    let mut budget = u64::MAX;
    let found = negamax(&mut board, &mut table, &stop, &mut budget, true, -50, 50, 10, 4);
    assert!(budget < u64::MAX - 1);
    assert!(found.is_some());
    // without trust the search goes on, and at the root it always does
    table.clear();
    table.store(stored);
    let mut budget = u64::MAX;
    let found = negamax(&mut board, &mut table, &stop, &mut budget, false, -50, 50, 1, 4).unwrap();
    assert_eq!(found.score, 50);
    table.clear();
    table.store(stored);
    let mut budget = u64::MAX;
    let found = negamax(&mut board, &mut table, &stop, &mut budget, true, -50, 50, 1, 0).unwrap();
    assert_eq!(found.score, 50);
    assert!(found.best_move.is_some());
    // an upper bound answers only at or below the window
    table.clear();
    table.store(Entry { bound: Bound::Upper, score: Evaluation(-70), ..stored });
    let mut budget = u64::MAX;
    let found = negamax(&mut board, &mut table, &stop, &mut budget, true, -50, 50, 2, 4).unwrap();
    assert_eq!(found.score, -70);
    table.clear();
    table.store(Entry { bound: Bound::Lower, score: Evaluation(-70), ..stored });
    let mut budget = u64::MAX;
    let found = negamax(&mut board, &mut table, &stop, &mut budget, true, -50, 50, 1, 4).unwrap();
    assert_eq!(found.score, 50);
}

#[test]
fn a_search_that_was_told_to_stop_changes_nothing() {
    let mut board = Board::from_str("4k3/8/8/3q4/4P3/8/8/4K3 w - - 0 1").unwrap();
    let before = board.clone();
    let mut table = TranspositionTable::new(6);
    let stop = AtomicBool::new(false);
    let mut budget = 100;
    // the flag was read as set: nothing comes back, whatever the flag says now
    assert_eq!(
        negamax_when(&mut board, &mut table, &stop, &mut budget, false, true, -50, 50, 2, 0),
        None
    );
    assert_eq!(budget, 100);
    assert!(table.entries.iter().all(|slot| slot.is_none()));
    assert_eq!(quiescence_when(&mut board, &stop, true, -50, 50, 0), None);
    // a spent budget does the same
    let mut spent = 0;
    assert_eq!(
        negamax_when(&mut board, &mut table, &stop, &mut spent, false, false, -50, 50, 2, 0),
        None
    );
    assert_eq!(spent, 0);
    assert!(same(&board, &before));
}

#[test]
fn a_search_that_was_not_told_to_stop_answers_where_nothing_lies_below() {
    let stop = AtomicBool::new(false);
    let mut table = TranspositionTable::new(6);
    // no legal move: the position is taken off the budget and the table stays as it was
    let mut stalemate = Board::from_str("7k/5Q2/6K1/8/8/8/8/8 b - - 0 1").unwrap();
    let mut budget = 100;
    let found =
        negamax_when(&mut stalemate, &mut table, &stop, &mut budget, false, false, -50, 50, 3, 1);
    assert_eq!(found.unwrap().score, 0);
    assert_eq!(budget, 99);
    assert!(table.entries.iter().all(|slot| slot.is_none()));
    // below the root a hundred plies without capture or pawn move are a draw
    let mut dead = Board::from_str("4k3/8/8/8/8/8/8/R3K3 w - - 100 80").unwrap();
    let found = negamax_when(&mut dead, &mut table, &stop, &mut budget, false, false, -50, 50, 3, 1);
    assert_eq!(found.unwrap().score, 0);
    assert_eq!(budget, 98);
    // at rest without a loud move the static score stands
    let mut quiet = Board::from_str("4k3/8/8/8/8/8/8/R3K3 w - - 0 1").unwrap();
    let stand = evaluate(&quiet);
    assert_eq!(quiescence_when(&mut quiet, &stop, false, -INFINITE, INFINITE, 3), Some(stand));
    // a static score at or above the window ends the search at once
    assert_eq!(quiescence_when(&mut quiet, &stop, false, -50, 50, 3), Some(50));
    // elsewhere the flag decides again further down
    let mut board = Board::from_str("4k3/8/8/3q4/4P3/8/8/4K3 w - - 0 1").unwrap();
    let set = AtomicBool::new(true);
    assert_eq!(quiescence_when(&mut board, &set, false, -INFINITE, INFINITE, 0), None);
    let mut budget = 100;
    assert_eq!(
        negamax_when(&mut board, &mut table, &set, &mut budget, false, false, -50, 50, 2, 0),
        None
    );
    assert_eq!(budget, 99);
}

#[test]
fn a_search_keeps_to_the_depth_of_its_limits_and_ages_the_table() {
    let mut board = Board::from_str("4k3/8/8/3q4/4P3/8/8/4K3 w - - 0 1").unwrap();
    let mut table = TranspositionTable::new(8);
    let stop = AtomicBool::new(false);
    assert_eq!(table.age, 0);
    let outcome =
        find_best_move(&mut board, &mut table, &stop, SearchLimits::to_depth(3), false).unwrap();
    assert_eq!(outcome.depth, 3);
    assert_eq!(table.age, 1);
    let outcome =
        find_best_move(&mut board, &mut table, &stop, SearchLimits::to_depth(1), true).unwrap();
    assert_eq!(outcome.depth, 1);
    assert_eq!(table.age, 2);
    // a depth of nought and a budget of nought leave no iteration to end
    let outcome =
        find_best_move(&mut board, &mut table, &stop, SearchLimits::to_depth(0), false).unwrap();
    assert_eq!((outcome.depth, outcome.score), (0, None));
    let none = SearchLimits { depth: Some(5), nodes: Some(0), move_time: None };
    let outcome = find_best_move(&mut board, &mut table, &stop, none, false).unwrap();
    assert_eq!((outcome.depth, outcome.score), (0, None));
    assert_eq!(table.age, 4);
    // the table ages also where there is no move to find, and wraps after the greatest age
    let mut stalemate = Board::from_str("7k/5Q2/6K1/8/8/8/8/8 b - - 0 1").unwrap();
    table.age = 255;
    assert_eq!(find_best_move(&mut stalemate, &mut table, &stop, SearchLimits::none(), true), None);
    assert_eq!(table.age, 0);
}
