use vstd::prelude::*;
use crate::bitboard::{
    group_member, lemma_lowest, lemma_member_zero, lemma_remove_decreases, member, BitBoard,
};
use crate::board::{lemma_class_members, Board};
use crate::chess_move::{Move, MoveFlag};
use crate::color::Color;
use crate::geometry::{pawn_hits, rank_of};
use crate::movgen::{
    answers_check, check_mask, extends, king_of_side, landing_mask, lemma_extends_none,
    lemma_extends_twice, lemma_sources_done, lemma_sources_step, may_land, move_in, pawn_move_in,
    pin_mask, push_moves_from, push_pawn_moves, respects_pin, MoveList,
};
use crate::piece::Piece;
use crate::position::Position;
use crate::square::Square;
use crate::tables::get_pawn_attacks;

verus! {

/// Whether the pawn of the side to move on `from` may take on `to`: it attacks the square, a
/// man that may be taken stands there, the capture answers the check if there is one, and a
/// pinned pawn stays on its line.
pub open spec fn pawn_may_take(pos: Position, check: bool, from: int, to: int) -> bool {
    &&& 0 <= from < 64
    &&& 0 <= to < 64
    &&& pos.men[from] == Some((pos.side_to_move, Piece::Pawn))
    &&& pawn_hits(pos.side_to_move, from, to)
    &&& pos.men[to].is_some()
    &&& may_land(pos, to)
    &&& answers_check(pos, check, to)
    &&& respects_pin(pos, from, to)
}

/// Whether `m` is a capture by a pawn, other than in passing, that the generator yields; it
/// promotes exactly on the last rank.
pub open spec fn pawn_capture_move(pos: Position, check: bool, m: Move) -> bool {
    &&& m.piece == Piece::Pawn
    &&& m.flags == MoveFlag::Capture
    &&& pawn_may_take(pos, check, m.from.index(), m.to.index())
    &&& m.promotion.is_some() == (rank_of(m.to.index()) == pos.side_to_move.flip().home_rank())
}

/// The set that holds the square `by` squares from `source`, if that square is on the board.
fn square_beside(source: Square, by: i8) -> (r: BitBoard)
    requires
        -9 <= by <= 9,
    ensures
        forall|t: int| member(r.0, t) == (0 <= t < 64 && t == source.index() + by),
{
    let at: i8 = source.to_index() as i8 + by;
    if 0 <= at && at < 64 {
        let r = BitBoard(1u64 << (at as u64));
        proof {
            assert forall|t: int| member(r.0, t) == (0 <= t < 64 && t == source.index() + by) by {
                crate::bitboard::lemma_member_bit(at as u64, t);
            }
        }
        r
    } else {
        proof {
            assert forall|t: int| !member(0u64, t) by {
                lemma_member_zero(t);
            }
        }
        BitBoard(0)
    }
}

/// Whether `m` is one of the captures that are listed for the pawn on `source`: a capture
/// without promotion to a member of `plain`, or a promotion on the square `low_step` or
/// `high_step` squares on where that square is a member of `left` or `right`.
pub open spec fn capture_here(
    source: int,
    plain: u64,
    left: u64,
    right: u64,
    theirs: u64,
    low_step: int,
    high_step: int,
    m: Move,
) -> bool {
    move_in(source, Piece::Pawn, plain, theirs, m) || pawn_move_in(
        left,
        -low_step,
        MoveFlag::Capture,
        true,
        m,
    ) || pawn_move_in(right, -high_step, MoveFlag::Capture, true, m)
}

/// The captures of one pawn are the captures of the generator that start on its square.
proof fn lemma_captures_from_source(
    pos: Position,
    check: bool,
    source: int,
    plain: u64,
    left: u64,
    right: u64,
    theirs: u64,
    low_step: int,
    high_step: int,
)
    requires
        0 <= source < 64,
        pos.side_to_move == Color::White ==> low_step == 7 && high_step == 9,
        pos.side_to_move == Color::Black ==> low_step == -9 && high_step == -7,
        forall|t: int|
            #[trigger] member(plain, t) == (pawn_may_take(pos, check, source, t) && rank_of(t)
                != pos.side_to_move.flip().home_rank()),
        forall|t: int|
            #[trigger] member(left, t) == (pawn_may_take(pos, check, source, t) && rank_of(t)
                == pos.side_to_move.flip().home_rank() && t == source + low_step),
        forall|t: int|
            #[trigger] member(right, t) == (pawn_may_take(pos, check, source, t) && rank_of(t)
                == pos.side_to_move.flip().home_rank() && t == source + high_step),
        forall|t: int| member(plain, t) ==> member(theirs, t),
    ensures
        forall|m: Move| #[trigger]
            capture_here(source, plain, left, right, theirs, low_step, high_step, m) <==> (
            pawn_capture_move(pos, check, m) && m.from.index() == source),
{
    assert forall|m: Move| #[trigger]
        capture_here(source, plain, left, right, theirs, low_step, high_step, m) implies (
    pawn_capture_move(pos, check, m) && m.from.index() == source) by {
        let to = m.to.index();
        if move_in(source, Piece::Pawn, plain, theirs, m) {
            assert(member(plain, to));
            assert(member(theirs, to));
        } else if pawn_move_in(left, -low_step, MoveFlag::Capture, true, m) {
            assert(member(left, to));
        } else {
            assert(member(right, to));
        }
    }
    assert forall|m: Move| pawn_capture_move(pos, check, m) && m.from.index()
        == source implies #[trigger] capture_here(
        source,
        plain,
        left,
        right,
        theirs,
        low_step,
        high_step,
        m,
    ) by {
        let to = m.to.index();
        lemma_pawn_hits_steps(pos.side_to_move, source, to);
        assert(pawn_may_take(pos, check, source, to));
        if rank_of(to) != pos.side_to_move.flip().home_rank() {
            assert(member(plain, to));
            assert(member(theirs, to));
            assert(move_in(source, Piece::Pawn, plain, theirs, m));
        } else if to == source + low_step {
            assert(member(left, to));
            assert(pawn_move_in(left, -low_step, MoveFlag::Capture, true, m));
        } else {
            assert(member(right, to));
            assert(pawn_move_in(right, -high_step, MoveFlag::Capture, true, m));
        }
    }
}

/// A pawn attacks the two squares that lie seven and nine squares ahead of it.
pub proof fn lemma_pawn_hits_steps(side: Color, from: int, to: int)
    ensures
        pawn_hits(side, from, to) ==> (to == from + 8 * side.pawn_step() - 1 || to == from + 8
            * side.pawn_step() + 1),
{
}

/// Adds the captures of the pawns of the side to move, other than those in passing, to the
/// list. `CHECK` says that the side is in check by one man.
#[verifier::rlimit(60)]
pub fn generate_pawn_captures<const CHECK: bool>(board: &Board, move_list: &mut MoveList)
    requires
        board.wf(),
        CHECK ==> board.state.checkers.0 != 0,
    ensures
        extends(
            old(move_list)@,
            final(move_list)@,
            |m: Move| pawn_capture_move(board@, CHECK, m),
        ),
{
    let side = board.side_to_move();
    let foe = side.opposite();
    let sources: u64 = board.pieces(Piece::Pawn).0 & board.occupancies(side).0;
    let theirs = board.occupancies(foe);
    let king = king_of_side(board);
    let landing = landing_mask(board);
    let answering = check_mask(board, CHECK, king);
    let promotion_rank: u64 = BitBoard::mask_rank(foe.backrank()).0;
    let (low_step, high_step): (i8, i8) = match side {
        Color::White => (7, 9),
        Color::Black => (-9, -7),
    };
    let ghost pos = board@;
    let ghost start = move_list@;
    let ghost wanted = |m: Move| pawn_capture_move(pos, CHECK, m);
    let mut rest: u64 = sources;
    let ghost mut low: int = 0;
    proof {
        lemma_extends_none(start, |m: Move| wanted(m) && m.from.index() < 0);
        assert forall|i: int| 0 <= i < 64 implies member(sources, i) == (pos.men[i] == Some(
            (side, Piece::Pawn),
        )) && (may_land(pos, i) ==> member(theirs.0, i) == pos.men[i].is_some()) by {
            lemma_class_members(board.pieces, board.occupancies, board.combined, side, Piece::Pawn, i);
            lemma_class_members(board.pieces, board.occupancies, board.combined, foe, Piece::Pawn, i);
        }
    }
    while rest != 0
        invariant
            0 <= low <= 64,
            board.wf(),
            pos == board@,
            side == board.side_to_move,
            foe == side.flip(),
            side == Color::White ==> low_step == 7 && high_step == 9,
            side == Color::Black ==> low_step == -9 && high_step == -7,
            king.index() == crate::position::king_square(board.men(), board.side_to_move),
            forall|t: int| member(landing.0, t) == (0 <= t < 64 && may_land(board@, t)),
            forall|t: int|
                member(answering.0, t) == (0 <= t < 64 && answers_check(board@, CHECK, t)),
            forall|i: int| member(promotion_rank, i) == (0 <= i < 64 && i / 8 == foe.home_rank()),
            forall|i: int|
                0 <= i < 64 ==> member(sources, i) == (pos.men[i] == Some((side, Piece::Pawn))),
            forall|t: int|
                0 <= t < 64 && may_land(pos, t) ==> member(theirs.0, t) == pos.men[t].is_some(),
            forall|i: int| member(rest, i) == (member(sources, i) && i >= low),
            wanted == (|m: Move| pawn_capture_move(pos, CHECK, m)),
            extends(start, move_list@, |m: Move| wanted(m) && m.from.index() < low),
        decreases rest,
    {
        proof {
            lemma_lowest(rest);
        }
        let s: u32 = rest.trailing_zeros();
        let source = Square::from_index(s as u8);
        proof {
            assert(member(rest, s as int));
        }
        let pins = pin_mask(board, source, king);
        let attack: u64 = get_pawn_attacks(source, side).0 & theirs.0 & landing.0 & answering.0
            & pins.0;
        let plain = BitBoard(attack & !promotion_rank);
        let left = BitBoard(attack & promotion_rank & square_beside(source, low_step).0);
        let right = BitBoard(attack & promotion_rank & square_beside(source, high_step).0);
        proof {
            broadcast use group_member;

            assert forall|t: int| member(attack, t) == pawn_may_take(pos, CHECK, s as int, t) by {}
        }
        let ghost first = move_list@;
        push_moves_from(source, Piece::Pawn, plain, theirs, move_list);
        let ghost second = move_list@;
        push_pawn_moves(left, -low_step, MoveFlag::Capture, true, move_list);
        let ghost third = move_list@;
        push_pawn_moves(right, -high_step, MoveFlag::Capture, true, move_list);
        proof {
            broadcast use group_member;

            let plainly = |m: Move| move_in(source.index(), Piece::Pawn, plain.0, theirs.0, m);
            let leftward = |m: Move|
                pawn_move_in(left.0, -low_step as int, MoveFlag::Capture, true, m);
            let rightward = |m: Move|
                pawn_move_in(right.0, -high_step as int, MoveFlag::Capture, true, m);
            let both = |m: Move| plainly(m) || leftward(m);
            let here = |m: Move| both(m) || rightward(m);
            lemma_extends_twice(first, second, third, plainly, leftward, both);
            lemma_extends_twice(first, third, move_list@, both, rightward, here);
            lemma_captures_from_source(
                pos,
                CHECK,
                s as int,
                plain.0,
                left.0,
                right.0,
                theirs.0,
                low_step as int,
                high_step as int,
            );
            assert forall|m: Move| #[trigger] here(m) <==> wanted(m) && m.from.index() == s by {
                assert(here(m) == capture_here(
                    s as int,
                    plain.0,
                    left.0,
                    right.0,
                    theirs.0,
                    low_step as int,
                    high_step as int,
                    m,
                ));
            }
            assert forall|i: int| low <= i < s implies !member(sources, i) by {
                assert(!member(rest, i));
            }
            lemma_sources_step(start, first, move_list@, wanted, here, sources, low, s as int);
        }
        let ghost before = rest;
        proof {
            lemma_remove_decreases(rest, s as int);
        }
        rest = rest ^ (1u64 << (s as u64));
        proof {
            broadcast use group_member;

            assert forall|i: int| member(rest, i) == (member(sources, i) && i >= s + 1) by {
                assert(member(before, i) == (member(sources, i) && i >= low));
                if low <= i < s {
                    assert(!member(before, i));
                }
            }
            low = s + 1;
        }
    }
    proof {
        assert forall|i: int| low <= i implies !member(sources, i) by {
            lemma_member_zero(i);
            assert(!member(rest, i));
        }
        lemma_sources_done(start, move_list@, wanted, sources, low);
    }
}

} // verus!
