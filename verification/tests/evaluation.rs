use chess_core::color::Color;
use chess_core::evaluation::{Evaluation, IMMEDIATE_MATE_SCORE};

#[test]
fn test_adjust_mate_ply() {
    // store current position as mate in 10 ply
    let store_ply = 10;

    // retrieve stored position later at 5 and 8 ply depth
    // at ply 5 -> mate in 5 ply
    // at ply 2 -> mate in 2 ply
    let retrieval_ply = 5;
    let retrieval_ply2 = 2;

    // eval for current position
    let white_mate = Evaluation::new_mate_eval(Color::White, 10);
    let stored_white_mate = white_mate.score_to_tt(store_ply);

    // write
    // white -> increase score
    assert_eq!(
        stored_white_mate,
        Evaluation::new_mate_eval(Color::White, 0)
    );

    // read
    // white -> decrease score
    let retrieved_white_mate = stored_white_mate.tt_to_score(retrieval_ply);
    let retrieved_white_mate2 = stored_white_mate.tt_to_score(retrieval_ply2);
    assert_eq!(
        retrieved_white_mate,
        Evaluation::new_mate_eval(Color::White, 5)
    );
    assert_eq!(
        retrieved_white_mate2,
        Evaluation::new_mate_eval(Color::White, 2)
    );

    let black_mate = Evaluation::new_mate_eval(Color::Black, 10);
    let stored_black_mate = black_mate.score_to_tt(store_ply);
    // black -> decrease score
    assert_eq!(
        stored_black_mate,
        Evaluation::new_mate_eval(Color::Black, 0)
    );
    // read
    // black -> increase score
    let retrieved_black_mate = stored_black_mate.tt_to_score(retrieval_ply);
    let retrieved_black_mate2 = stored_black_mate.tt_to_score(retrieval_ply2);
    assert_eq!(
        retrieved_black_mate,
        Evaluation::new_mate_eval(Color::Black, 5)
    );
    assert_eq!(
        retrieved_black_mate2,
        Evaluation::new_mate_eval(Color::Black, 2)
    );
}

#[test]
fn test_checkmate_eval() {
    let mate = Evaluation::new_mate_eval(Color::Black, 0);
    assert!(mate.is_mate());
}

#[test]
fn test_min_and_max() {
    assert_eq!(Evaluation::max(), Evaluation::min().neg());
}

#[test]
fn test_mate_num_ply() {
    let evaluation = Evaluation(-IMMEDIATE_MATE_SCORE + 50);
    assert_eq!(evaluation.mate_num_ply(), -50);
}

#[test]
fn test_mate_full_moves() {
    let expected = |v: Evaluation| {
        (if v > Evaluation(0) {
            IMMEDIATE_MATE_SCORE - v.0 + 1
        } else {
            -IMMEDIATE_MATE_SCORE - v.0
        }) / 2
    };

    for i in (0..10).rev() {
        let eval = Evaluation::new_mate_eval(Color::Black, i);
        println!("-{i} -> {}", expected(eval));
        assert_eq!(expected(eval), eval.mate_full_moves() as i32, "{}", eval.0);
    }

    for i in 0..10 {
        let eval = Evaluation::new_mate_eval(Color::White, i);
        println!("{i} -> {}", expected(eval));
        assert_eq!(expected(eval), eval.mate_full_moves() as i32, "{}", eval.0);
    }
}
