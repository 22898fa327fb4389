use vstd::prelude::*;
use crate::board::{repeats_within, Board};
use crate::chess_move::{Move, MoveFlag, Promotion};
use crate::color::Color;
use crate::evaluation::{board_value, men_worth, side_sign, IMMEDIATE_MATE_SCORE};
use crate::laws::{
    lemma_apply_keeps_wf, lemma_apply_then_undo, lemma_same_position_same_board, lemma_wf_sound,
};
use crate::evaluation::{raw_piece_value, Evaluation};
use crate::movgen::legal::{generate_moves, lemma_generated_accepted};
use crate::movgen::MoveList;
use crate::transposition_table::{Bound, Entry, TranspositionTable};
use crate::position::{one_king, Position};
use crate::rules::{in_check, legal};
use crate::searcher::SearchLimits;
use crate::stop::stop_requested;

verus! {

/// The greatest number of plies that a search goes below its root.
pub const MAX_PLY: u8 = 64;

/// A score beyond every score that a position can have.
pub const INFINITE: i32 = 2_000_000;

/// The score of a position as the side to move sees it, by its men alone.
pub open spec fn static_eval(pos: Position) -> int {
    side_sign(pos.side_to_move) * men_worth(pos.men, 64)
}

/// Whether a position below the root counts as drawn: a hundred plies have passed without
/// capture or pawn move, or the position has stood on the board before.
pub open spec fn drawn(pos: Position, ply: int) -> bool {
    ply > 0 && (pos.state.rule50 >= 100 || repeats_within(
        pos.history,
        pos.state.hash,
        pos.state.rule50 as int,
    ))
}

/// Whether a move changes the material at once: a capture, also in passing, or a promotion
/// to a queen.
pub open spec fn loud(m: Move) -> bool {
    m.flags == MoveFlag::Capture || m.flags == MoveFlag::EnPassant || m.promotion == Some(
        Promotion::Queen,
    )
}

/// The greater of two numbers.
pub open spec fn greater(a: int, b: int) -> int {
    if a >= b {
        a
    } else {
        b
    }
}

/// A number brought into the window from `low` to `high`.
pub open spec fn clamp(v: int, low: int, high: int) -> int {
    if v <= low {
        low
    } else if v >= high {
        high
    } else {
        v
    }
}

/// How many moves there are, legal or not: 64 sources, 64 targets, six pieces, five things
/// that a promotion can be, five flags.
pub const MOVE_CODES: u32 = 614_400;

/// The promotion with a given number: none for 0, then knight, bishop, rook, queen.
pub open spec fn promotion_at(i: int) -> Option<Promotion> {
    if i == 0 {
        None
    } else if i == 1 {
        Some(Promotion::Knight)
    } else if i == 2 {
        Some(Promotion::Bishop)
    } else if i == 3 {
        Some(Promotion::Rook)
    } else {
        Some(Promotion::Queen)
    }
}

/// The flag with a given number.
pub open spec fn flag_at(i: int) -> MoveFlag {
    if i == 0 {
        MoveFlag::Normal
    } else if i == 1 {
        MoveFlag::Capture
    } else if i == 2 {
        MoveFlag::DoublePawnPush
    } else if i == 3 {
        MoveFlag::EnPassant
    } else {
        MoveFlag::Castling
    }
}

/// The move with a given number; every move has a number below `MOVE_CODES`.
pub open spec fn move_of(code: int) -> Move {
    Move {
        from: crate::square::Square::at(code % 64),
        to: crate::square::Square::at((code / 64) % 64),
        piece: crate::piece::Piece::at((code / 4096) % 6),
        promotion: promotion_at((code / 24576) % 5),
        flags: flag_at((code / 122880) % 5),
    }
}

/// The five parts of a move number can be read off it again.
proof fn lemma_code_parts(a: int, b: int, c: int, d: int, e: int)
    requires
        0 <= a < 64,
        0 <= b < 64,
        0 <= c < 6,
        0 <= d < 5,
        0 <= e < 5,
    ensures
        0 <= a + 64 * b + 4096 * c + 24576 * d + 122880 * e < MOVE_CODES,
        (a + 64 * b + 4096 * c + 24576 * d + 122880 * e) % 64 == a,
        ((a + 64 * b + 4096 * c + 24576 * d + 122880 * e) / 64) % 64 == b,
        ((a + 64 * b + 4096 * c + 24576 * d + 122880 * e) / 4096) % 6 == c,
        ((a + 64 * b + 4096 * c + 24576 * d + 122880 * e) / 24576) % 5 == d,
        ((a + 64 * b + 4096 * c + 24576 * d + 122880 * e) / 122880) % 5 == e,
{
    let code = a + 64 * b + 4096 * c + 24576 * d + 122880 * e;
    let rest1 = b + 64 * c + 384 * d + 1920 * e;
    assert(code == 64 * rest1 + a);
    assert(code / 64 == rest1);
    let rest2 = c + 6 * d + 30 * e;
    assert(rest1 == 64 * rest2 + b);
    assert(code / 4096 == rest2) by {
        assert(code == 4096 * rest2 + (64 * b + a));
    }
    let rest3 = d + 5 * e;
    assert(rest2 == 6 * rest3 + c);
    assert(code / 24576 == rest3) by {
        assert(code == 24576 * rest3 + (4096 * c + 64 * b + a));
    }
    assert(code / 122880 == e) by {
        assert(code == 122880 * e + (24576 * d + 4096 * c + 64 * b + a));
    }
}

/// The number of a promotion, and of a flag.
pub open spec fn promotion_index(promotion: Option<Promotion>) -> int {
    match promotion {
        None => 0,
        Some(Promotion::Knight) => 1,
        Some(Promotion::Bishop) => 2,
        Some(Promotion::Rook) => 3,
        Some(Promotion::Queen) => 4,
    }
}

/// The number of a flag.
pub open spec fn flag_index(flags: MoveFlag) -> int {
    match flags {
        MoveFlag::Normal => 0,
        MoveFlag::Capture => 1,
        MoveFlag::DoublePawnPush => 2,
        MoveFlag::EnPassant => 3,
        MoveFlag::Castling => 4,
    }
}

/// The number of a move.
pub open spec fn code_of(m: Move) -> int {
    m.from.index() + 64 * m.to.index() + 4096 * m.piece.index() + 24576 * promotion_index(
        m.promotion,
    ) + 122880 * flag_index(m.flags)
}

/// Every move is the move of its number.
pub proof fn lemma_move_code(m: Move)
    ensures
        0 <= code_of(m) < MOVE_CODES,
        move_of(code_of(m)) == m,
{
    crate::square::lemma_square_index_roundtrip(m.from);
    crate::square::lemma_square_index_roundtrip(m.to);
    let a = m.from.index();
    let b = m.to.index();
    let c = m.piece.index();
    let d = promotion_index(m.promotion);
    let e = flag_index(m.flags);
    lemma_code_parts(a, b, c, d, e);
    let code = code_of(m);
    assert(crate::piece::Piece::at(c) == m.piece);
    assert(promotion_at(d) == m.promotion);
    assert(flag_at(e) == m.flags);
    assert(move_of(code).from == m.from);
    assert(move_of(code).to == m.to);
}

/// The best score at rest that the loud legal moves with numbers below `k` leave to the
/// side to move, and the static score if that is better.
pub open spec fn quiet_best(pos: Position, ply: int, k: int) -> int
    decreases MAX_PLY - ply, k,
{
    if k <= 0 || ply >= MAX_PLY {
        static_eval(pos)
    } else {
        let m = move_of(k - 1);
        let before = quiet_best(pos, ply, k - 1);
        if legal(pos, m) && loud(m) {
            greater(before, -quiet_value(pos.apply(m), ply + 1))
        } else {
            before
        }
    }
}

/// The score of a position at rest, `ply` plies below the root, as the side to move sees it:
/// the better of standing pat on the static score and of the best loud legal move, each
/// answered in the same way. At the greatest ply the static score stands.
pub open spec fn quiet_value(pos: Position, ply: int) -> int
    decreases MAX_PLY - ply, MOVE_CODES + 1,
{
    if ply >= MAX_PLY {
        static_eval(pos)
    } else {
        quiet_best(pos, ply, MOVE_CODES as int)
    }
}

/// The best score that the legal moves with numbers below `k` leave to the side to move
/// when each is answered by a search one ply less deep, and `-INFINITE` if none is legal.
pub open spec fn reply_best(pos: Position, depth: int, ply: int, k: int) -> int
    decreases depth, k,
{
    if k <= 0 || depth <= 0 {
        -INFINITE as int
    } else {
        let m = move_of(k - 1);
        let before = reply_best(pos, depth, ply, k - 1);
        if legal(pos, m) {
            greater(before, -value(pos.apply(m), depth - 1, ply + 1))
        } else {
            before
        }
    }
}

/// The score of a position searched `depth` plies deep, `ply` plies below the root, as the
/// side to move sees it: nought for a drawn position, the score at rest at depth nought,
/// a mate score or nought where the side has no move, and else the best of the scores that
/// its legal moves leave to the other side, with the sign changed.
pub open spec fn value(pos: Position, depth: int, ply: int) -> int
    decreases depth, MOVE_CODES + 1,
{
    if drawn(pos, ply) {
        0
    } else if depth <= 0 {
        quiet_value(pos, ply)
    } else if !exists|m: Move| legal(pos, m) {
        if in_check(pos.men, pos.side_to_move) {
            ply - IMMEDIATE_MATE_SCORE
        } else {
            0
        }
    } else {
        reply_best(pos, depth, ply, MOVE_CODES as int)
    }
}

/// The greatest of `floor` and the scores of those of the first `i` moves of a list that
/// `pick` accepts.
pub open spec fn best_upto(
    list: Seq<Move>,
    score: spec_fn(Move) -> int,
    pick: spec_fn(Move) -> bool,
    i: int,
    floor: int,
) -> int
    decreases i,
{
    if i <= 0 {
        floor
    } else if pick(list[i - 1]) {
        greater(best_upto(list, score, pick, i - 1, floor), score(list[i - 1]))
    } else {
        best_upto(list, score, pick, i - 1, floor)
    }
}

/// The best of a prefix of a list is the peak over the picked moves of that prefix.
pub proof fn lemma_best_upto(
    list: Seq<Move>,
    score: spec_fn(Move) -> int,
    pick: spec_fn(Move) -> bool,
    i: int,
    floor: int,
)
    requires
        0 <= i <= list.len(),
    ensures
        best_upto(list, score, pick, i, floor) >= floor,
        best_upto(list, score, pick, i, floor) == floor || exists|j: int|
            0 <= j < i && pick(list[j]) && #[trigger] score(list[j]) == best_upto(
                list,
                score,
                pick,
                i,
                floor,
            ),
        forall|j: int|
            0 <= j < i && pick(list[j]) ==> #[trigger] score(list[j]) <= best_upto(
                list,
                score,
                pick,
                i,
                floor,
            ),
    decreases i,
{
    if i > 0 {
        lemma_best_upto(list, score, pick, i - 1, floor);
        let before = best_upto(list, score, pick, i - 1, floor);
        let now = best_upto(list, score, pick, i, floor);
        if now != floor {
            if pick(list[i - 1]) && score(list[i - 1]) == now {
                assert(0 <= i - 1 < i && pick(list[i - 1]) && score(list[i - 1]) == now);
            } else {
                let j = choose|j: int|
                    0 <= j < i - 1 && pick(list[j]) && #[trigger] score(list[j]) == before;
                assert(0 <= j < i && pick(list[j]) && score(list[j]) == now);
            }
        }
    }
}

/// The best over the moves with numbers below `k` is no less than `floor`, is `floor` or the
/// score of a picked move with such a number, and is no less than the score of any such
/// move.
pub open spec fn tops_codes(
    score: spec_fn(Move) -> int,
    pick: spec_fn(Move) -> bool,
    k: int,
    floor: int,
    v: int,
) -> bool {
    &&& v >= floor
    &&& (v == floor || exists|c: int| 0 <= c < k && pick(move_of(c)) && #[trigger] score(move_of(c)) == v)
    &&& forall|c: int| 0 <= c < k && pick(move_of(c)) ==> #[trigger] score(move_of(c)) <= v
}

proof fn lemma_quiet_best(pos: Position, ply: int, k: int)
    requires
        ply < MAX_PLY,
        0 <= k,
    ensures
        tops_codes(
            |m: Move| -quiet_value(pos.apply(m), ply + 1),
            |m: Move| legal(pos, m) && loud(m),
            k,
            static_eval(pos),
            quiet_best(pos, ply, k),
        ),
    decreases k,
{
    let score = |m: Move| -quiet_value(pos.apply(m), ply + 1);
    let pick = |m: Move| legal(pos, m) && loud(m);
    let stand = static_eval(pos);
    if k > 0 {
        lemma_quiet_best(pos, ply, k - 1);
        let before = quiet_best(pos, ply, k - 1);
        let now = quiet_best(pos, ply, k);
        if now != stand {
            if pick(move_of(k - 1)) && score(move_of(k - 1)) == now {
                assert(0 <= k - 1 < k && pick(move_of(k - 1)) && score(move_of(k - 1)) == now);
            } else {
                let c = choose|c: int|
                    0 <= c < k - 1 && pick(move_of(c)) && #[trigger] score(move_of(c)) == before;
                assert(0 <= c < k && pick(move_of(c)) && score(move_of(c)) == now);
            }
        }
    }
}

proof fn lemma_reply_best(pos: Position, depth: int, ply: int, k: int)
    requires
        depth > 0,
        0 <= k,
    ensures
        tops_codes(
            |m: Move| -value(pos.apply(m), depth - 1, ply + 1),
            |m: Move| legal(pos, m),
            k,
            -INFINITE as int,
            reply_best(pos, depth, ply, k),
        ),
    decreases k,
{
    let score = |m: Move| -value(pos.apply(m), depth - 1, ply + 1);
    let pick = |m: Move| legal(pos, m);
    let floor = -INFINITE as int;
    if k > 0 {
        lemma_reply_best(pos, depth, ply, k - 1);
        let before = reply_best(pos, depth, ply, k - 1);
        let now = reply_best(pos, depth, ply, k);
        if now != floor {
            if pick(move_of(k - 1)) && score(move_of(k - 1)) == now {
                assert(0 <= k - 1 < k && pick(move_of(k - 1)) && score(move_of(k - 1)) == now);
            } else {
                let c = choose|c: int|
                    0 <= c < k - 1 && pick(move_of(c)) && #[trigger] score(move_of(c)) == before;
                assert(0 <= c < k && pick(move_of(c)) && score(move_of(c)) == now);
            }
        }
    }
}

/// The best over all moves by number is the best over a list that holds the moves among
/// which the choice is.
pub proof fn lemma_codes_are_list(
    list: Seq<Move>,
    score: spec_fn(Move) -> int,
    among: spec_fn(Move) -> bool,
    pick: spec_fn(Move) -> bool,
    floor: int,
    v: int,
)
    requires
        forall|m: Move| list.contains(m) <==> among(m),
        tops_codes(score, |m: Move| among(m) && pick(m), MOVE_CODES as int, floor, v),
    ensures
        v == best_upto(list, score, pick, list.len() as int, floor),
{
    let best = best_upto(list, score, pick, list.len() as int, floor);
    let both = |m: Move| among(m) && pick(m);
    lemma_best_upto(list, score, pick, list.len() as int, floor);
    if v > best {
        let c = choose|c: int|
            0 <= c < MOVE_CODES as int && both(move_of(c)) && #[trigger] score(move_of(c)) == v;
        let m = move_of(c);
        assert(list.contains(m));
        let j = choose|j: int| 0 <= j < list.len() && list[j] == m;
        assert(score(list[j]) <= best);
    } else if v < best {
        let j = choose|j: int|
            0 <= j < list.len() && pick(list[j]) && #[trigger] score(list[j]) == best;
        let m = list[j];
        assert(list.contains(m));
        lemma_move_code(m);
        assert(both(move_of(code_of(m))));
        assert(score(move_of(code_of(m))) <= v);
    }
}

/// The best of a prefix of a list does not depend on how the scores and the choice among
/// the moves are written down.
pub proof fn lemma_best_same(
    list: Seq<Move>,
    score: spec_fn(Move) -> int,
    pick: spec_fn(Move) -> bool,
    other_score: spec_fn(Move) -> int,
    other_pick: spec_fn(Move) -> bool,
    i: int,
    floor: int,
)
    requires
        forall|m: Move| #[trigger] score(m) == other_score(m),
        forall|m: Move| #[trigger] pick(m) == other_pick(m),
    ensures
        best_upto(list, score, pick, i, floor) == best_upto(list, other_score, other_pick, i, floor),
    decreases i,
{
    if i > 0 {
        lemma_best_same(list, score, pick, other_score, other_pick, i - 1, floor);
    }
}

/// The score at rest of a position above the greatest ply is the best of the static score
/// and the scores of its loud legal moves, taken from a list of its legal moves.
pub proof fn lemma_quiet_value(
    pos: Position,
    ply: int,
    list: Seq<Move>,
    score: spec_fn(Move) -> int,
    pick: spec_fn(Move) -> bool,
)
    requires
        ply < MAX_PLY,
        forall|m: Move| list.contains(m) <==> legal(pos, m),
        forall|m: Move| #[trigger] score(m) == -quiet_value(pos.apply(m), ply + 1),
        forall|m: Move| #[trigger] pick(m) == loud(m),
    ensures
        quiet_value(pos, ply) == best_upto(list, score, pick, list.len() as int, static_eval(pos)),
{
    let inner_score = |m: Move| -quiet_value(pos.apply(m), ply + 1);
    let among = |m: Move| legal(pos, m);
    let inner_pick = |m: Move| loud(m);
    lemma_quiet_best(pos, ply, MOVE_CODES as int);
    let v = quiet_best(pos, ply, MOVE_CODES as int);
    assert(tops_codes(
        inner_score,
        |m: Move| among(m) && inner_pick(m),
        MOVE_CODES as int,
        static_eval(pos),
        v,
    ));
    lemma_codes_are_list(list, inner_score, among, inner_pick, static_eval(pos), v);
    lemma_best_same(
        list,
        score,
        pick,
        inner_score,
        inner_pick,
        list.len() as int,
        static_eval(pos),
    );
}

/// The score of a position that is not drawn and has legal moves, searched more than nought
/// plies deep, is the best of the scores of its legal moves, taken from a list of them.
pub proof fn lemma_value(
    pos: Position,
    depth: int,
    ply: int,
    list: Seq<Move>,
    score: spec_fn(Move) -> int,
    pick: spec_fn(Move) -> bool,
)
    requires
        depth > 0,
        !drawn(pos, ply),
        list.len() > 0,
        forall|m: Move| list.contains(m) <==> legal(pos, m),
        forall|m: Move| #[trigger] score(m) == -value(pos.apply(m), depth - 1, ply + 1),
        forall|m: Move| #[trigger] pick(m),
    ensures
        value(pos, depth, ply) == best_upto(
            list,
            score,
            pick,
            list.len() as int,
            -INFINITE as int,
        ),
{
    let inner_score = |m: Move| -value(pos.apply(m), depth - 1, ply + 1);
    let among = |m: Move| legal(pos, m);
    let inner_pick = |m: Move| true;
    assert(list.contains(list[0]));
    assert(legal(pos, list[0]));
    lemma_reply_best(pos, depth, ply, MOVE_CODES as int);
    let v = reply_best(pos, depth, ply, MOVE_CODES as int);
    assert(tops_codes(
        inner_score,
        |m: Move| among(m) && inner_pick(m),
        MOVE_CODES as int,
        -INFINITE as int,
        v,
    ));
    lemma_codes_are_list(list, inner_score, among, inner_pick, -INFINITE as int, v);
    lemma_best_same(
        list,
        score,
        pick,
        inner_score,
        inner_pick,
        list.len() as int,
        -INFINITE as int,
    );
}

/// At the greatest ply the score at rest is the static score.
pub proof fn lemma_quiet_value_at_end(pos: Position, ply: int)
    requires
        ply >= MAX_PLY,
    ensures
        quiet_value(pos, ply) == static_eval(pos),
{
}

/// Whether a position `ply` plies below the root can be searched on: both sides have their
/// king, and the counters of plies and of the fifty-move rule have room down to the greatest
/// ply.
pub open spec fn searchable(pos: Position, ply: int) -> bool {
    &&& 0 <= ply <= MAX_PLY
    &&& one_king(pos.men, Color::White)
    &&& one_king(pos.men, Color::Black)
    &&& pos.state.ply + (MAX_PLY - ply) < u16::MAX
    &&& pos.game_ply + (MAX_PLY - ply) < u16::MAX
    &&& pos.state.rule50 + (MAX_PLY - ply) < u8::MAX
}

/// The best of a longer prefix is no less than the best of a shorter one.
pub proof fn lemma_best_grows(
    list: Seq<Move>,
    score: spec_fn(Move) -> int,
    pick: spec_fn(Move) -> bool,
    i: int,
    j: int,
    floor: int,
)
    requires
        0 <= i <= j,
    ensures
        best_upto(list, score, pick, i, floor) <= best_upto(list, score, pick, j, floor),
    decreases j - i,
{
    if i < j {
        lemma_best_grows(list, score, pick, i, j - 1, floor);
    }
}

/// The score of the position by its men alone, as the side to move sees it.
pub fn evaluate(board: &Board) -> (r: i32)
    requires
        board.squares_ok(),
    ensures
        r == static_eval(board@),
        -INFINITE < r < INFINITE,
{
    let worth = board_value(board).0;
    proof {
        lemma_worth_bounded(board.men(), 64);
    }
    match board.side_to_move() {
        Color::White => worth,
        Color::Black => -worth,
    }
}

/// The men on the squares below `n` are worth no more than a king on its best square each.
pub proof fn lemma_worth_bounded(men: Seq<Option<(Color, crate::piece::Piece)>>, n: int)
    requires
        0 <= n <= 64,
    ensures
        -20050 * n <= men_worth(men, n) <= 20050 * n,
    decreases n,
{
    if n > 0 {
        lemma_worth_bounded(men, n - 1);
        lemma_bonus_bounded(men[n - 1], n - 1);
    }
}

/// A man is worth no more than a king on its best square.
pub proof fn lemma_bonus_bounded(content: Option<(Color, crate::piece::Piece)>, square: int)
    requires
        0 <= square < 64,
    ensures
        -20050 <= crate::evaluation::man_worth(content, square) <= 20050,
{
    match content {
        Some((color, piece)) => {
            let index = crate::piece_square_table::table_index(square, color);
            assert(0 <= index < 64);
            let bonus = crate::piece_square_table::square_bonus(piece, square, color);
            assert(-50 <= bonus <= 50) by {
                assert(bonus == crate::piece_square_table::table_of(piece)[index]);
                lemma_table_bounded(piece, index);
            }
        },
        None => {},
    }
}

/// No bonus of a table is beyond fifty centipawns.
pub proof fn lemma_table_bounded(piece: crate::piece::Piece, index: int)
    requires
        0 <= index < 64,
    ensures
        -50 <= crate::piece_square_table::table_of(piece)[index] <= 50,
{
}

/// Whether a move is loud.
pub fn is_loud(m: &Move) -> (r: bool)
    ensures
        r == loud(*m),
{
    m.flags == MoveFlag::Capture || m.flags == MoveFlag::EnPassant || m.promotion == Some(
        Promotion::Queen,
    )
}

/// A loud move is a capture or the move of a pawn, and so sets the clock of the fifty-move
/// rule back.
pub proof fn lemma_loud_resets(pos: Position, m: Move)
    requires
        pos.fits(m),
        loud(m),
    ensures
        pos.apply(m).state.rule50 == 0,
{
}

/// What a step of the search on the window from `alpha` to `beta` does to the lower end `a`
/// of the window, which stands for the best of the moves looked at so far: with the score
/// of the next move, as its own search on the window from `a` to `beta` has brought it
/// back, it stands for the best of the moves with that move.
pub proof fn lemma_window_step(alpha: int, beta: int, best: int, a: int, score: int, next: int)
    requires
        alpha < beta,
        a == clamp(best, alpha, beta),
        a < beta,
        next == clamp(score, a, beta),
    ensures
        greater(a, next) == clamp(greater(best, score), alpha, beta),
{
}

/// Searches a position at rest: the side to move may stand pat on the static score or make
/// a loud move, and so may the other side in its turn. The score comes back brought into
/// the window from `alpha` to `beta`; nothing comes back when the search is told to stop.
#[verifier::rlimit(100)]
pub fn quiescence(
    board: &mut Board,
    stop: &core::sync::atomic::AtomicBool,
    alpha: i32,
    beta: i32,
    ply: u8,
) -> (r: Option<i32>)
    requires
        old(board).wf(),
        searchable(old(board)@, ply as int),
        -INFINITE <= alpha < beta <= INFINITE,
    ensures
        final(board).wf(),
        final(board)@ == old(board)@,
        final(board).same_as(old(board)),
        r matches Some(v) ==> v == clamp(
            quiet_value(old(board)@, ply as int),
            alpha as int,
            beta as int,
        ),
    decreases MAX_PLY - ply, 1int,
{
    let stopped = stop_requested(stop);
    quiescence_when(board, stop, stopped, alpha, beta, ply)
}

/// Whether the search of a position at rest comes to its end without searching a position
/// below it: the greatest ply is reached, or the static score is at or above the window, or
/// the side to move has no loud legal move.
pub open spec fn quiet_settled(pos: Position, ply: int, beta: int) -> bool {
    ply >= MAX_PLY || static_eval(pos) >= beta || forall|m: Move|
        #[trigger] legal(pos, m) ==> !loud(m)
}

/// Searches a position at rest once the stop flag has been read, `stopped` being what was
/// read: if the search was told to stop nothing comes back; if not, the score comes back
/// wherever no position below has to be searched, and elsewhere unless the search is told
/// to stop further down.
#[verifier::rlimit(100)]
pub fn quiescence_when(
    board: &mut Board,
    stop: &core::sync::atomic::AtomicBool,
    stopped: bool,
    alpha: i32,
    beta: i32,
    ply: u8,
) -> (r: Option<i32>)
    requires
        old(board).wf(),
        searchable(old(board)@, ply as int),
        -INFINITE <= alpha < beta <= INFINITE,
    ensures
        final(board).wf(),
        final(board)@ == old(board)@,
        final(board).same_as(old(board)),
        stopped ==> r.is_none(),
        !stopped && quiet_settled(old(board)@, ply as int, beta as int) ==> r.is_some(),
        r matches Some(v) ==> v == clamp(
            quiet_value(old(board)@, ply as int),
            alpha as int,
            beta as int,
        ),
    decreases MAX_PLY - ply, 0int,
{
    if stopped {
        return None;
    }
    let ghost pos = board@;
    proof {
        lemma_wf_sound(pos);
    }
    let stand = evaluate(board);
    if ply >= MAX_PLY {
        proof {
            lemma_quiet_value_at_end(pos, ply as int);
        }
        return Some(
            if stand <= alpha {
                alpha
            } else if stand >= beta {
                beta
            } else {
                stand
            },
        );
    }
    let ghost score = |m: Move| -quiet_value(pos.apply(m), ply + 1);
    let ghost pick = |m: Move| loud(m);
    let mut moves = generate_moves(board);
    order_moves(&mut moves, board, None);
    let ghost list = moves@;
    proof {
        lemma_quiet_value(pos, ply as int, list, score, pick);
    }
    let mut a: i32 = if stand > alpha {
        stand
    } else {
        alpha
    };
    if a >= beta {
        proof {
            lemma_best_grows(list, score, pick, 0, list.len() as int, stand as int);
        }
        return Some(beta);
    }
    let mut i: usize = 0;
    while i < moves.len()
        invariant
            0 <= i <= list.len(),
            list == moves@,
            board.squares_ok(),
            old(board).squares_ok(),
            board@ == pos,
            pos == old(board)@,
            pos.wf(),
            searchable(pos, ply as int),
            stand == static_eval(pos),
            stand < beta,
            !stopped,
            forall|m: Move| list.contains(m) <==> legal(pos, m),
            quiet_value(pos, ply as int) == best_upto(
                list,
                score,
                pick,
                list.len() as int,
                stand as int,
            ),
            ply < MAX_PLY,
            -INFINITE <= alpha < beta <= INFINITE,
            forall|m: Move| list.contains(m) <==> crate::movgen::legal::generated(pos, m),
            score == (|m: Move| -quiet_value(pos.apply(m), ply + 1)),
            pick == (|m: Move| loud(m)),
            a == clamp(best_upto(list, score, pick, i as int, stand as int), alpha as int, beta as int),
            a < beta,
        decreases list.len() - i,
    {
        let m = moves.get(i);
        if is_loud(&m) {
            proof {
                assert(list.contains(m));
                lemma_wf_sound(pos);
                lemma_generated_accepted(pos, m);
                lemma_apply_keeps_wf(pos, m);
                lemma_apply_then_undo(pos, m);
                lemma_loud_resets(pos, m);
            }
            board.apply_move(m);
            let reply = quiescence(board, stop, -beta, -a, ply + 1);
            board.undo_move();
            match reply {
                None => {
                    proof {
                        lemma_same_position_same_board(board, old(board));
                        assert(legal(pos, m) && loud(m));
                    }
                    return None;
                },
                Some(answer) => {
                    let next: i32 = -answer;
                    proof {
                        lemma_window_step(
                            alpha as int,
                            beta as int,
                            best_upto(list, score, pick, i as int, stand as int),
                            a as int,
                            score(m),
                            next as int,
                        );
                    }
                    if next > a {
                        a = next;
                    }
                    if a >= beta {
                        proof {
                            lemma_best_grows(
                                list,
                                score,
                                pick,
                                i + 1,
                                list.len() as int,
                                stand as int,
                            );
                            lemma_same_position_same_board(board, old(board));
                        }
                        return Some(beta);
                    }
                },
            }
        }
        i = i + 1;
    }
    proof {
        lemma_same_position_same_board(board, old(board));
    }
    Some(a)
}

/// What a search of a position has found: its score within the window, and the move that
/// brought the score, where a move has raised the lower end of the window.
#[derive(Debug, Copy, Clone, PartialEq, Eq, Structural)]
pub struct Found {
    pub score: i32,
    pub best_move: Option<Move>,
}

/// A score brought into the window from `low` to `high`.
pub fn clamped(v: i32, low: i32, high: i32) -> (r: i32)
    ensures
        r == clamp(v as int, low as int, high as int),
{
    if v <= low {
        low
    } else if v >= high {
        high
    } else {
        v
    }
}

/// How early a move is to be searched, as a number that is the greater the earlier: first
/// the move of the hint, then the captures, the more valuable the man taken and the less
/// valuable the man that takes the earlier, then the other moves.
pub open spec fn order_rank(board: &Board, m: Move, hint: Option<Move>) -> int {
    if hint == Some(m) {
        1_000_000
    } else if m.flags == MoveFlag::Capture {
        match board.piece_at(m.to.index()) {
            Some(victim) => 100_000 + 16 * crate::evaluation::piece_worth(victim)
                - crate::evaluation::piece_worth(m.piece),
            None => 0,
        }
    } else if m.flags == MoveFlag::EnPassant {
        101_500
    } else {
        0
    }
}

/// Whether the moves of a list stand in the order in which they are to be searched: none
/// stands behind a move that is to be searched later than itself.
pub open spec fn in_search_order(list: Seq<Move>, board: &Board, hint: Option<Move>) -> bool {
    forall|i: int, j: int|
        0 <= i <= j < list.len() ==> order_rank(board, #[trigger] list[i], hint) >= order_rank(
            board,
            #[trigger] list[j],
            hint,
        )
}

/// How early a move is to be searched: first the move of the hint, then the captures, the
/// more valuable the man taken and the less valuable the man that takes the earlier, then
/// the other moves.
fn order_key(board: &Board, m: &Move, hint: Option<Move>) -> (r: i32)
    ensures
        r == order_rank(board, *m, hint),
{
    if let Some(first) = hint {
        if first == *m {
            return 1_000_000;
        }
    }
    if m.flags == MoveFlag::Capture {
        match board.piece_on_square(m.to) {
            Some(victim) => 100_000 + 16 * raw_piece_value(victim) - raw_piece_value(m.piece),
            None => 0,
        }
    } else if m.flags == MoveFlag::EnPassant {
        100_000 + 15 * 100
    } else {
        0
    }
}

/// Puts the moves of a list into the order in which they are to be searched: the move of
/// the hint first, then the captures by the worth of what is taken and of what takes, then
/// the other moves. The list holds the same moves as before.
fn order_moves(moves: &mut MoveList, board: &Board, hint: Option<Move>)
    ensures
        final(moves)@.len() == old(moves)@.len(),
        forall|m: Move| final(moves)@.contains(m) <==> old(moves)@.contains(m),
        old(moves)@.no_duplicates() ==> final(moves)@.no_duplicates(),
        in_search_order(final(moves)@, board, hint),
{
    let n: usize = moves.len();
    let mut i: usize = 0;
    while i < n
        invariant
            0 <= i <= n,
            n == moves@.len(),
            moves@.len() == old(moves)@.len(),
            forall|m: Move| moves@.contains(m) <==> old(moves)@.contains(m),
            old(moves)@.no_duplicates() ==> moves@.no_duplicates(),
            forall|x: int, y: int|
                0 <= x <= y < i ==> order_rank(board, #[trigger] moves@[x], hint) >= order_rank(
                    board,
                    #[trigger] moves@[y],
                    hint,
                ),
            forall|x: int, y: int|
                0 <= x < i <= y < n ==> order_rank(board, #[trigger] moves@[x], hint)
                    >= order_rank(board, #[trigger] moves@[y], hint),
        decreases n - i,
    {
        let mut best: usize = i;
        let mut best_key: i32 = order_key(board, &moves.get(i), hint);
        let mut j: usize = i + 1;
        while j < n
            invariant
                i < n,
                i + 1 <= j <= n,
                i <= best < n,
                n == moves@.len(),
                best_key == order_rank(board, moves@[best as int], hint),
                forall|y: int|
                    i <= y < j ==> order_rank(board, #[trigger] moves@[y], hint) <= best_key,
            decreases n - j,
        {
            let key = order_key(board, &moves.get(j), hint);
            if key > best_key {
                best = j;
                best_key = key;
            }
            j = j + 1;
        }
        let ghost before = moves@;
        moves.swap(i, best);
        proof {
            let after = moves@;
            assert forall|y: int| i <= y < n implies order_rank(board, #[trigger] after[y], hint)
                <= best_key by {
                if y == i {
                    assert(after[y] == before[best as int]);
                } else if y == best {
                    assert(after[y] == before[i as int]);
                } else {
                    assert(after[y] == before[y]);
                }
            }
            assert forall|x: int| 0 <= x < i implies #[trigger] after[x] == before[x] by {}
            assert(after[i as int] == before[best as int]);
            assert forall|x: int, y: int| 0 <= x <= y < i + 1 implies order_rank(
                board,
                #[trigger] after[x],
                hint,
            ) >= order_rank(board, #[trigger] after[y], hint) by {
                if y < i {
                    assert(after[x] == before[x] && after[y] == before[y]);
                } else if x < i {
                    assert(after[x] == before[x]);
                    assert(order_rank(board, before[x], hint) >= order_rank(
                        board,
                        before[best as int],
                        hint,
                    ));
                }
            }
            assert forall|x: int, y: int| 0 <= x < i + 1 <= y < n implies order_rank(
                board,
                #[trigger] after[x],
                hint,
            ) >= order_rank(board, #[trigger] after[y], hint) by {
                let source = if y == best {
                    i as int
                } else {
                    y
                };
                assert(after[y] == before[source]);
                if x < i {
                    assert(after[x] == before[x]);
                    assert(order_rank(board, before[x], hint) >= order_rank(
                        board,
                        before[source],
                        hint,
                    ));
                } else {
                    assert(order_rank(board, after[y], hint) <= best_key);
                }
            }
        }
        i = i + 1;
    }
}

/// The static score lies within what the men on the board can be worth.
pub proof fn lemma_static_bounded(pos: Position)
    ensures
        -INFINITE < static_eval(pos) < INFINITE,
{
    lemma_worth_bounded(pos.men, 64);
    match pos.side_to_move {
        Color::White => {},
        Color::Black => {},
    }
}

/// A score at rest lies within what the men on the board can be worth.
pub proof fn lemma_quiet_bounded(pos: Position, ply: int)
    ensures
        -INFINITE < quiet_value(pos, ply) < INFINITE,
    decreases MAX_PLY - ply,
{
    lemma_static_bounded(pos);
    if ply < MAX_PLY {
        lemma_quiet_best(pos, ply, MOVE_CODES as int);
        let v = quiet_value(pos, ply);
        assert(v == quiet_best(pos, ply, MOVE_CODES as int));
        let score = |m: Move| -quiet_value(pos.apply(m), ply + 1);
        let pick = |m: Move| legal(pos, m) && loud(m);
        assert(tops_codes(score, pick, MOVE_CODES as int, static_eval(pos), v));
        if v != static_eval(pos) {
            let c = choose|c: int|
                0 <= c < MOVE_CODES && pick(move_of(c)) && #[trigger] score(move_of(c)) == v;
            lemma_quiet_bounded(pos.apply(move_of(c)), ply + 1);
        }
    }
}

/// A score of a search that goes no deeper than a thousand plies below the root lies
/// within what the men on the board can be worth and the scores of mates.
pub proof fn lemma_value_bounded(pos: Position, depth: int, ply: int)
    requires
        0 <= ply,
        ply + depth <= 1000,
    ensures
        -INFINITE < value(pos, depth, ply) < INFINITE,
    decreases depth,
{
    if drawn(pos, ply) {
    } else if depth <= 0 {
        lemma_quiet_bounded(pos, ply);
    } else if !exists|m: Move| legal(pos, m) {
    } else {
        lemma_reply_best(pos, depth, ply, MOVE_CODES as int);
        let v = value(pos, depth, ply);
        assert(v == reply_best(pos, depth, ply, MOVE_CODES as int));
        let score = |m: Move| -value(pos.apply(m), depth - 1, ply + 1);
        let pick = |m: Move| legal(pos, m);
        assert(tops_codes(score, pick, MOVE_CODES as int, -INFINITE as int, v));
        let some = choose|m: Move| legal(pos, m);
        lemma_move_code(some);
        assert(pick(move_of(code_of(some))));
        assert(score(move_of(code_of(some))) <= v);
        lemma_value_bounded(pos.apply(some), depth - 1, ply + 1);
        let c = choose|c: int|
            0 <= c < MOVE_CODES && pick(move_of(c)) && #[trigger] score(move_of(c)) == v;
        lemma_value_bounded(pos.apply(move_of(c)), depth - 1, ply + 1);
    }
}

/// The entry that a search of a position leaves in the table: a lower bound where the
/// search was cut off, an upper bound where no move raised the lower end of the window, and
/// else the score itself. A mate score is stored as counted from the position.
fn entry_of(
    key: u64,
    depth: u8,
    ply: u8,
    age: u8,
    alpha: i32,
    beta: i32,
    score: i32,
    best_move: Option<Move>,
) -> (r: Entry)
    requires
        -INFINITE <= score <= INFINITE,
    ensures
        r.key == key,
        r.depth == depth,
        r.age == age,
        r.best_move == best_move,
        r.bound == if score >= beta {
            Bound::Lower
        } else if score <= alpha {
            Bound::Upper
        } else {
            Bound::Exact
        },
        r.score.0 == if crate::evaluation::mate_score(score as int) {
            crate::evaluation::moved_away(score as int, ply as int)
        } else {
            score as int
        },
{
    let bound = if score >= beta {
        Bound::Lower
    } else if score <= alpha {
        Bound::Upper
    } else {
        Bound::Exact
    };
    let found = Evaluation(score);
    let stored = if found.is_mate() {
        found.score_to_tt(ply)
    } else {
        found
    };
    Entry { key, depth, bound, score: stored, best_move, age }
}

/// Whether a stored entry answers a search `depth` plies deep on the window from `alpha` to
/// `beta`, `ply` plies below the root: it was searched at least as deep, and its score is
/// the true score, or a lower bound at or above the window, or an upper bound at or below
/// it.
pub open spec fn usable(entry: Entry, depth: int, alpha: int, beta: int, ply: int) -> bool {
    let score = if crate::evaluation::mate_score(entry.score.0 as int) {
        crate::evaluation::moved_closer(entry.score.0 as int, ply)
    } else {
        entry.score.0 as int
    };
    &&& entry.score.0 > i32::MIN
    &&& entry.depth >= depth
    &&& match entry.bound {
        Bound::Exact => true,
        Bound::Lower => score >= beta,
        Bound::Upper => score <= alpha,
    }
}

/// The score of an entry that answers the search, if the entry does.
fn answer_of(entry: &Entry, depth: u8, alpha: i32, beta: i32, ply: u8) -> (r: Option<i32>)
    ensures
        r.is_some() == usable(*entry, depth as int, alpha as int, beta as int, ply as int),
        r matches Some(score) ==> score > i32::MIN && score == if crate::evaluation::mate_score(
            entry.score.0 as int,
        ) {
            crate::evaluation::moved_closer(entry.score.0 as int, ply as int)
        } else {
            entry.score.0 as int
        },
{
    if entry.score.0 == i32::MIN || entry.depth < depth {
        return None;
    }
    let score = entry.score_at(ply).0;
    let fits = match entry.bound {
        Bound::Exact => true,
        Bound::Lower => score >= beta,
        Bound::Upper => score <= alpha,
    };
    if fits {
        Some(score)
    } else {
        None
    }
}

/// Searches a position `depth` plies deep on the window from `alpha` to `beta`. Nothing
/// comes back when the search is told to stop or runs out of its budget of positions. The
/// table gives the move to try first and takes what the search found.
///
/// Without trust in the table the score that comes back is the score of the position
/// brought into the window, with the move that brought it where one raised the lower end.
/// With trust in the table a stored entry that answers the search ends it below the root,
/// here and in the positions below: its score comes back as it is stored, counted from the
/// root. What then comes back is as good as the table is.
#[verifier::rlimit(100)]
pub fn negamax(
    board: &mut Board,
    table: &mut TranspositionTable,
    stop: &core::sync::atomic::AtomicBool,
    budget: &mut u64,
    trust: bool,
    alpha: i32,
    beta: i32,
    depth: u8,
    ply: u8,
) -> (r: Option<Found>)
    requires
        old(board).wf(),
        old(table).wf(),
        searchable(old(board)@, ply as int),
        ply + depth <= MAX_PLY,
        -INFINITE <= alpha < beta <= INFINITE,
    ensures
        final(board).wf(),
        final(board)@ == old(board)@,
        final(board).same_as(old(board)),
        final(table).wf(),
        final(table).mask == old(table).mask,
        final(table).age == old(table).age,
        *final(budget) <= *old(budget),
        *old(budget) == 0 ==> r.is_none(),
        r matches Some(found) ==> {
            &&& found.score > i32::MIN
            &&& (found.best_move matches Some(m) ==> legal(old(board)@, m))
            &&& (trust && ply > 0 && !drawn(old(board)@, ply as int) ==> match old(
                table,
            ).entries@[old(table).slot(old(board).state.hash)] {
                Some(entry) => entry.key == old(board).state.hash && usable(
                    entry,
                    depth as int,
                    alpha as int,
                    beta as int,
                    ply as int,
                ) ==> found.score == if crate::evaluation::mate_score(entry.score.0 as int) {
                    crate::evaluation::moved_closer(entry.score.0 as int, ply as int)
                } else {
                    entry.score.0 as int
                },
                None => true,
            })
            &&& (!trust ==> {
                &&& found.score == clamp(
                    value(old(board)@, depth as int, ply as int),
                    alpha as int,
                    beta as int,
                )
                &&& match found.best_move {
                    Some(m) => found.score == clamp(
                        -value(old(board)@.apply(m), depth - 1, ply + 1),
                        alpha as int,
                        beta as int,
                    ),
                    None => found.score == alpha || depth == 0 || drawn(
                        old(board)@,
                        ply as int,
                    ) || !exists|m: Move| legal(old(board)@, m),
                }
            })
        },
    decreases depth, 1int,
{
    let stopped = stop_requested(stop);
    negamax_when(board, table, stop, budget, trust, stopped, alpha, beta, depth, ply)
}

/// Whether the search of a position comes to its end without searching a position below
/// it: the position counts as drawn, or the table is trusted and what it holds for the
/// position answers the search below the root, or the search is more than nought plies deep
/// and the side to move has no legal move.
pub open spec fn settled(
    pos: Position,
    stored: Option<Entry>,
    trust: bool,
    depth: int,
    alpha: int,
    beta: int,
    ply: int,
) -> bool {
    ||| drawn(pos, ply)
    ||| (trust && ply > 0 && (stored matches Some(entry) && entry.key == pos.state.hash && usable(
        entry,
        depth,
        alpha,
        beta,
        ply,
    )))
    ||| (depth > 0 && !exists|m: Move| legal(pos, m))
}

/// Searches a position once the stop flag has been read, `stopped` being what was read. If
/// the search was told to stop, or its budget is spent, nothing comes back and nothing
/// changes. If not, the position is taken off the budget, and what was found comes back
/// wherever no position below has to be searched, with the table as it was; elsewhere it
/// comes back unless the search is told to stop, or runs out of budget, further down.
#[verifier::rlimit(100)]
pub fn negamax_when(
    board: &mut Board,
    table: &mut TranspositionTable,
    stop: &core::sync::atomic::AtomicBool,
    budget: &mut u64,
    trust: bool,
    stopped: bool,
    alpha: i32,
    beta: i32,
    depth: u8,
    ply: u8,
) -> (r: Option<Found>)
    requires
        old(board).wf(),
        old(table).wf(),
        searchable(old(board)@, ply as int),
        ply + depth <= MAX_PLY,
        -INFINITE <= alpha < beta <= INFINITE,
    ensures
        final(board).wf(),
        final(board)@ == old(board)@,
        final(board).same_as(old(board)),
        final(table).wf(),
        final(table).mask == old(table).mask,
        final(table).age == old(table).age,
        *final(budget) <= *old(budget),
        stopped || *old(budget) == 0 ==> r.is_none() && *final(budget) == *old(budget)
            && final(table).entries@ == old(table).entries@,
        !stopped && *old(budget) > 0 ==> *final(budget) < *old(budget),
        !stopped && *old(budget) > 0 && settled(
            old(board)@,
            old(table).entries@[old(table).slot(old(board).state.hash)],
            trust,
            depth as int,
            alpha as int,
            beta as int,
            ply as int,
        ) ==> r.is_some() && *final(budget) == *old(budget) - 1
            && final(table).entries@ == old(table).entries@,
        r matches Some(found) ==> {
            &&& found.score > i32::MIN
            &&& (found.best_move matches Some(m) ==> legal(old(board)@, m))
            &&& (trust && ply > 0 && !drawn(old(board)@, ply as int) ==> match old(
                table,
            ).entries@[old(table).slot(old(board).state.hash)] {
                Some(entry) => entry.key == old(board).state.hash && usable(
                    entry,
                    depth as int,
                    alpha as int,
                    beta as int,
                    ply as int,
                ) ==> found.score == if crate::evaluation::mate_score(entry.score.0 as int) {
                    crate::evaluation::moved_closer(entry.score.0 as int, ply as int)
                } else {
                    entry.score.0 as int
                },
                None => true,
            })
            &&& (!trust ==> {
                &&& found.score == clamp(
                    value(old(board)@, depth as int, ply as int),
                    alpha as int,
                    beta as int,
                )
                &&& match found.best_move {
                    Some(m) => found.score == clamp(
                        -value(old(board)@.apply(m), depth - 1, ply + 1),
                        alpha as int,
                        beta as int,
                    ),
                    None => found.score == alpha || depth == 0 || drawn(
                        old(board)@,
                        ply as int,
                    ) || !exists|m: Move| legal(old(board)@, m),
                }
            })
        },
    decreases depth, 0int,
{
    if stopped || *budget == 0 {
        return None;
    }
    let ghost slot_entry = table.entries@[table.slot(board.state.hash)];
    *budget = *budget - 1;
    let ghost pos = board@;
    proof {
        lemma_wf_sound(pos);
    }
    if ply > 0 && (board.state.rule50 >= 100 || board.is_repetition()) {
        return Some(Found { score: clamped(0, alpha, beta), best_move: None });
    }
    let stored = table.probe(board.hash());
    if trust && ply > 0 {
        if let Some(entry) = stored {
            if let Some(score) = answer_of(&entry, depth, alpha, beta, ply) {
                return Some(Found { score, best_move: None });
            }
        }
    }
    if depth == 0 {
        return match quiescence(board, stop, alpha, beta, ply) {
            None => None,
            Some(score) => Some(Found { score, best_move: None }),
        };
    }
    let mut moves = generate_moves(board);
    if moves.is_empty() {
        proof {
            crate::movgen::exact::lemma_cache(pos);
            assert forall|m: Move| !legal(pos, m) by {
                assert(!moves@.contains(m));
            }
        }
        let score = if board.checkers().is_empty() {
            0
        } else {
            ply as i32 - IMMEDIATE_MATE_SCORE
        };
        return Some(Found { score: clamped(score, alpha, beta), best_move: None });
    }
    proof {
        assert(moves@.contains(moves@[0]));
        assert(legal(pos, moves@[0]));
    }
    let hint = match stored {
        Some(entry) => entry.best_move,
        None => None,
    };
    order_moves(&mut moves, board, hint);
    let ghost list = moves@;
    let ghost score = |m: Move| -value(pos.apply(m), depth - 1, ply + 1);
    let ghost pick = |m: Move| true;
    let ghost floor = -INFINITE as int;
    proof {
        assert(list.contains(list[0]));
        lemma_value(pos, depth as int, ply as int, list, score, pick);
    }
    let mut a: i32 = alpha;
    let mut best_move: Option<Move> = None;
    let mut i: usize = 0;
    let mut cut = false;
    while i < moves.len() && !cut
        invariant
            0 <= i <= list.len(),
            list == moves@,
            board.squares_ok(),
            old(board).squares_ok(),
            board@ == pos,
            pos == old(board)@,
            pos.wf(),
            table.wf(),
            table.mask == old(table).mask,
            table.age == old(table).age,
            *budget < *old(budget),
            !stopped,
            *old(budget) > 0,
            slot_entry == old(table).entries@[old(table).slot(old(board).state.hash)],
            !settled(
                pos,
                slot_entry,
                trust,
                depth as int,
                alpha as int,
                beta as int,
                ply as int,
            ),
            searchable(pos, ply as int),
            ply + depth <= MAX_PLY,
            depth > 0,
            floor == -INFINITE as int,
            -INFINITE <= alpha < beta <= INFINITE,
            forall|m: Move| list.contains(m) <==> crate::movgen::legal::generated(pos, m),
            forall|m: Move| list.contains(m) <==> legal(pos, m),
            score == (|m: Move| -value(pos.apply(m), depth - 1, ply + 1)),
            pick == (|m: Move| true),
            value(pos, depth as int, ply as int) == best_upto(
                list,
                score,
                pick,
                list.len() as int,
                floor,
            ),
            !trust ==> a == clamp(
                best_upto(list, score, pick, i as int, floor),
                alpha as int,
                beta as int,
            ),
            alpha <= a,
            cut ==> a >= beta,
            !cut ==> a < beta,
            match best_move {
                Some(m) => list.contains(m) && (!trust ==> a == clamp(
                    score(m),
                    alpha as int,
                    beta as int,
                )),
                None => a == alpha,
            },
        decreases list.len() - i,
    {
        let m = moves.get(i);
        proof {
            assert(list.contains(m));
            lemma_wf_sound(pos);
            lemma_generated_accepted(pos, m);
            lemma_apply_keeps_wf(pos, m);
            lemma_apply_then_undo(pos, m);
        }
        board.apply_move(m);
        let reply = negamax(board, table, stop, budget, trust, -beta, -a, depth - 1, ply + 1);
        board.undo_move();
        match reply {
            None => {
                proof {
                    lemma_same_position_same_board(board, old(board));
                }
                return None;
            },
            Some(found) => {
                let next: i32 = -found.score;
                proof {
                    if !trust {
                        lemma_window_step(
                            alpha as int,
                            beta as int,
                            best_upto(list, score, pick, i as int, floor),
                            a as int,
                            score(m),
                            next as int,
                        );
                    }
                }
                if next > a {
                    a = next;
                    best_move = Some(m);
                }
                if a >= beta {
                    cut = true;
                }
            },
        }
        i = i + 1;
    }
    proof {
        lemma_best_grows(list, score, pick, i as int, list.len() as int, floor);
        lemma_same_position_same_board(board, old(board));
    }
    let result: i32 = if a >= beta {
        beta
    } else {
        a
    };
    table.store(entry_of(board.hash(), depth, ply, table.age, alpha, beta, result, best_move));
    Some(Found { score: result, best_move })
}

/// What a search has to say once it ends: the move to play, and the score and the depth of
/// the deepest iteration that came to its end, if any did.
#[derive(Debug, Copy, Clone, PartialEq, Eq, Structural)]
pub struct SearchOutcome {
    pub best_move: Move,
    pub score: Option<i32>,
    pub depth: u8,
}

/// Searches a position deeper and deeper, from one ply up to the depth of the limits, until
/// it is told to stop or its budget of positions runs out, and reports the move of the last
/// iteration that came to its end: a legal move, which without trust in the table brings
/// the score of the position at that depth. Where no iteration came to its end it reports a
/// legal move without a score; where the side to move has no legal move it reports nothing.
/// Each call is a new search to the table, whose age grows by one.
#[verifier::rlimit(100)]
pub fn find_best_move(
    board: &mut Board,
    table: &mut TranspositionTable,
    stop: &core::sync::atomic::AtomicBool,
    limits: SearchLimits,
    trust: bool,
) -> (r: Option<SearchOutcome>)
    requires
        old(board).wf(),
        old(table).wf(),
        searchable(old(board)@, 0),
    ensures
        final(board).wf(),
        final(board)@ == old(board)@,
        final(board).same_as(old(board)),
        final(table).wf(),
        final(table).mask == old(table).mask,
        final(table).age == crate::transposition_table::next_age(old(table).age),
        r.is_none() <==> !exists|m: Move| legal(old(board)@, m),
        r.is_none() ==> final(table).entries@ == old(table).entries@,
        r matches Some(outcome) ==> {
            &&& legal(old(board)@, outcome.best_move)
            &&& outcome.depth <= MAX_PLY
            &&& (limits.depth matches Some(d) ==> outcome.depth <= d)
            &&& (limits.nodes == Some(0u64) ==> outcome.depth == 0)
            &&& match outcome.score {
                Some(score) => {
                    &&& outcome.depth > 0
                    &&& !trust ==> score == value(old(board)@, outcome.depth as int, 0)
                    &&& !trust ==> score == -value(
                        old(board)@.apply(outcome.best_move),
                        outcome.depth - 1,
                        1,
                    )
                },
                None => outcome.depth == 0,
            }
        },
{
    let ghost pos = board@;
    table.new_search();
    let moves = generate_moves(board);
    if moves.is_empty() {
        proof {
            assert forall|m: Move| !legal(pos, m) by {
                assert(!moves@.contains(m));
            }
            lemma_same_position_same_board(board, old(board));
        }
        return None;
    }
    proof {
        assert(moves@.contains(moves@[0]));
        assert(legal(pos, moves@[0]));
    }
    let max_depth: u8 = match limits.depth {
        Some(depth) => if depth < MAX_PLY {
            depth
        } else {
            MAX_PLY
        },
        None => MAX_PLY,
    };
    let mut budget: u64 = match limits.nodes {
        Some(nodes) => nodes,
        None => u64::MAX,
    };
    let mut outcome = SearchOutcome { best_move: moves.get(0), score: None, depth: 0 };
    let mut depth: u8 = 1;
    let mut stopped = false;
    while depth <= max_depth && !stopped
        invariant
            1 <= depth <= max_depth + 1,
            max_depth <= MAX_PLY,
            board.wf(),
            board@ == pos,
            pos == old(board)@,
            old(board).squares_ok(),
            table.wf(),
            table.mask == old(table).mask,
            table.age == crate::transposition_table::next_age(old(table).age),
            searchable(pos, 0),
            exists|m: Move| legal(pos, m),
            legal(pos, outcome.best_move),
            outcome.depth <= MAX_PLY,
            outcome.depth < depth,
            limits.depth matches Some(d) ==> max_depth <= d,
            limits.nodes == Some(0u64) ==> budget == 0 && outcome.depth == 0,
            match outcome.score {
                Some(score) => {
                    &&& outcome.depth > 0
                    &&& !trust ==> score == value(pos, outcome.depth as int, 0)
                    &&& !trust ==> score == -value(
                        pos.apply(outcome.best_move),
                        outcome.depth - 1,
                        1,
                    )
                },
                None => outcome.depth == 0,
            },
        decreases max_depth + 1 - depth + if stopped { 0int } else { 1int },
    {
        match negamax(board, table, stop, &mut budget, trust, -INFINITE, INFINITE, depth, 0) {
            None => {
                stopped = true;
            },
            Some(found) => {
                proof {
                    lemma_value_bounded(pos, depth as int, 0);
                }
                match found.best_move {
                    Some(m) => {
                        proof {
                            lemma_value_bounded(pos.apply(m), depth - 1, 1);
                        }
                        outcome = SearchOutcome {
                            best_move: m,
                            score: Some(found.score),
                            depth,
                        };
                    },
                    None => {
                        // without trust in the table some move has raised the lower end
                        assert(trust);
                    },
                }
                depth = depth + 1;
            },
        }
    }
    proof {
        lemma_same_position_same_board(board, old(board));
    }
    Some(outcome)
}

} // verus!
