use vstd::prelude::*;
use crate::bitboard::{group_member, lemma_member_zero, member, BitBoard};
use crate::board::{lemma_class_members, Board};
use crate::chess_move::{Move, MoveFlag};
use crate::color::Color;
use crate::geometry::{file_of, lies_between, rank_of};
use crate::movgen::{
    extends, lemma_extends_same, lemma_extends_twice, lemma_king_square, pawn_move_in,
    push_pawn_moves, MoveList,
};
use crate::piece::Piece;
use crate::position::{king_at, king_square, Position};
use crate::tables::between;

verus! {

/// Generator of the pawn moves that capture nothing: single and double pushes, and the
/// promotions that a single push to the last rank brings.
pub struct QuietPawnMoveGenerator;

/// Whether a piece that lands on square `t` answers the check: without check every square
/// does, in check only a square between the king and the first of the checkers.
pub open spec fn push_allowed(pos: Position, check: bool, t: int) -> bool {
    !check || lies_between(
        king_square(pos.men, pos.side_to_move),
        pos.state.checkers.0.trailing_zeros() as int,
        t,
    )
}

/// Whether a pawn of the side to move stands on `from` and may advance: it is not pinned,
/// or it stands on the file of its king.
pub open spec fn may_advance(pos: Position, from: int) -> bool {
    &&& 0 <= from < 64
    &&& pos.men[from] == Some((pos.side_to_move, Piece::Pawn))
    &&& (!member(pos.state.pinned.0, from) || file_of(from) == file_of(
        king_square(pos.men, pos.side_to_move),
    ))
}

/// Whether `m` is a pawn push of the side to move that the generator yields: a pawn that may
/// advance, the square ahead of it empty, and then either one step, promoting exactly on the
/// last rank, or two steps to the fourth rank of that side over a second empty square. In
/// check the target has to answer the check.
pub open spec fn quiet_pawn_move(pos: Position, check: bool, m: Move) -> bool {
    let side = pos.side_to_move;
    let step = 8 * side.pawn_step();
    let from = m.from.index();
    let to = m.to.index();
    &&& m.piece == Piece::Pawn
    &&& may_advance(pos, from)
    &&& 0 <= from + step < 64
    &&& pos.men[from + step].is_none()
    &&& push_allowed(pos, check, to)
    &&& match m.flags {
        MoveFlag::Normal => to == from + step && m.promotion.is_some() == (rank_of(to)
            == side.flip().home_rank()),
        MoveFlag::DoublePawnPush => to == from + 2 * step && rank_of(to) == side.home_rank() + 3
            * side.pawn_step() && pos.men[to].is_none() && m.promotion.is_none(),
        _ => false,
    }
}

impl QuietPawnMoveGenerator {
    /// Adds the pawn pushes of the side to move to the list. `CHECK` says that the side is
    /// in check by one man.
    #[verifier::rlimit(60)]
    pub fn generate<const CHECK: bool>(board: &Board, move_list: &mut MoveList)
        requires
            board.wf(),
            CHECK ==> board.state.checkers.0 != 0,
        ensures
            extends(
                old(move_list)@,
                final(move_list)@,
                |m: Move| quiet_pawn_move(board@, CHECK, m),
            ),
    {
        let mut push_mask: u64 = !0u64;
        let side_to_move = board.side_to_move();
        let foe = side_to_move.opposite();
        let own: u64 = board.occupancies(side_to_move).0;
        let current_sides_pawns: u64 = board.pieces(Piece::Pawn).0 & own;
        let combined: u64 = board.combined().0;
        let pinned: u64 = board.pinned().0;
        let ghost pos = board@;
        let ghost men = board.men();
        proof {
            crate::laws::lemma_wf_sound(pos);
        }
        let kings = BitBoard(board.pieces(Piece::King).0 & own);
        proof {
            let w = choose|w: int| #[trigger]
                king_at(men, side_to_move, w) && forall|j: int| #[trigger]
                    king_at(men, side_to_move, j) ==> j == w;
            lemma_class_members(
                board.pieces,
                board.occupancies,
                board.combined,
                side_to_move,
                Piece::King,
                w,
            );
            lemma_member_zero(w);
        }
        let king_square = kings.bit_scan();
        let ghost k = king_square.index();
        proof {
            lemma_class_members(
                board.pieces,
                board.occupancies,
                board.combined,
                side_to_move,
                Piece::King,
                k,
            );
            lemma_king_square(men, side_to_move, k);
        }
        if CHECK {
            let checkers = board.checkers();
            let checker = checkers.bit_scan();
            proof {
                crate::bitboard::lemma_lowest(checkers.0);
                assert(checker.index() == checkers.0.trailing_zeros());
            }
            push_mask = between(king_square, checker).0;
        }
        // determine source squares that can move:
        // they have to either be not pinned or pinned with the king being on the same file
        let movable_sources: u64 = current_sides_pawns & (!pinned | (pinned & BitBoard::mask_file(
            king_square.file(),
        ).0));
        let forward_shift: i32 = match side_to_move {
            Color::White => 8,
            Color::Black => -8,
        };
        // those sources are then shifted one square forward and any overlaps with existing
        // pieces on the board are removed
        let single_push: u64 = BitBoard(movable_sources).shift(forward_shift).0 & !combined;
        // restrict the single push targets to squares they can actually move to (check
        // evasion)
        let single_push_targets: u64 = single_push & push_mask;
        // move the already moved squares, remove overlaps and restrict the final target
        // squares to legal squares, respecting checks
        let double_push_targets: u64 = BitBoard(single_push).shift(forward_shift).0 & !combined
            & BitBoard::mask_rank(side_to_move.double_pawn_push_rank()).0 & push_mask;
        let promotion_rank: u64 = BitBoard::mask_rank(foe.backrank()).0;
        let non_promotions: u64 = single_push_targets & !promotion_rank;
        let promotions: u64 = single_push_targets & promotion_rank;
        let back: i8 = match side_to_move {
            Color::White => -8,
            Color::Black => 8,
        };
        let ghost step = 8 * side_to_move.pawn_step();
        proof {
            broadcast use group_member;

            assert forall|i: int| 0 <= i < 64 implies member(movable_sources, i) == may_advance(
                pos,
                i,
            ) && member(combined, i) == men[i].is_some() by {
                lemma_class_members(
                    board.pieces,
                    board.occupancies,
                    board.combined,
                    side_to_move,
                    Piece::Pawn,
                    i,
                );
            }
            assert forall|t: int| member(push_mask, t) == (0 <= t < 64 && push_allowed(pos, CHECK, t)) by {}
            assert forall|t: int|
                member(single_push, t) == (0 <= t < 64 && may_advance(pos, t - step)
                    && men[t].is_none()) by {
                if 0 <= t < 64 && 0 <= t - step < 64 {
                    assert(member(movable_sources, t - step) == may_advance(pos, t - step));
                }
            }
            assert forall|t: int|
                member(double_push_targets, t) == (0 <= t < 64 && may_advance(pos, t - 2 * step)
                    && men[t - step].is_none() && men[t].is_none() && rank_of(t)
                    == side_to_move.home_rank() + 3 * side_to_move.pawn_step() && push_allowed(
                    pos,
                    CHECK,
                    t,
                )) by {
                if 0 <= t < 64 && 0 <= t - step < 64 {
                    assert(member(single_push, t - step) == (may_advance(pos, t - 2 * step)
                        && men[t - step].is_none()));
                }
            }
        }
        let ghost first = move_list@;
        push_pawn_moves(BitBoard(promotions), back, MoveFlag::Normal, true, move_list);
        let ghost second = move_list@;
        push_pawn_moves(
            BitBoard(double_push_targets),
            2 * back,
            MoveFlag::DoublePawnPush,
            false,
            move_list,
        );
        let ghost third = move_list@;
        push_pawn_moves(BitBoard(non_promotions), back, MoveFlag::Normal, false, move_list);
        proof {
            broadcast use group_member;

            let promoting = |m: Move|
                pawn_move_in(promotions, back as int, MoveFlag::Normal, true, m);
            let doubling = |m: Move|
                pawn_move_in(
                    double_push_targets,
                    2 * back as int,
                    MoveFlag::DoublePawnPush,
                    false,
                    m,
                );
            let stepping = |m: Move|
                pawn_move_in(non_promotions, back as int, MoveFlag::Normal, false, m);
            let both = |m: Move| promoting(m) || doubling(m);
            let all = |m: Move| both(m) || stepping(m);
            let wanted = |m: Move| quiet_pawn_move(pos, CHECK, m);
            lemma_extends_twice(first, second, third, promoting, doubling, both);
            lemma_extends_twice(first, third, move_list@, both, stepping, all);
            assert forall|m: Move| #[trigger] all(m) <==> wanted(m) by {
                let to = m.to.index();
                assert(member(single_push, to) == (may_advance(pos, to - step)
                    && men[to].is_none()));
            }
            lemma_extends_same(first, move_list@, all, wanted);
        }
    }
}

} // verus!
