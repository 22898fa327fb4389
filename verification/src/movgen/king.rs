use vstd::prelude::*;
use crate::bitboard::{
    bits_of, group_member, lemma_bits_equal, lemma_lowest, lemma_member_zero,
    lemma_remove_decreases, member, BitBoard,
};
use crate::board::{lemma_class_members, Board};
use crate::chess_move::{Move, MoveFlag};
use crate::color::Color;
use crate::geometry::king_step;
use crate::movgen::{
    attacked_by, attackers_to, extends, king_of_side, landing_mask, lemma_extends_same, may_land,
    move_in, push_moves_from, MoveList,
};
use crate::piece::Piece;
use crate::position::{king_square, Position};
use crate::square::Square;
use crate::tables::get_king_attacks;

verus! {

/// The occupied squares without square `k`.
pub open spec fn occupied_without(men: Seq<Option<(Color, Piece)>>, k: int) -> u64 {
    bits_of(|i: int| men[i].is_some() && i != k)
}

/// Whether the king of the side to move may step to `to`: the square is next to it, it may
/// land there, and no man of the other side attacks the square once the king has left its
/// own.
pub open spec fn king_may_go(pos: Position, to: int) -> bool {
    let k = king_square(pos.men, pos.side_to_move);
    &&& 0 <= to < 64
    &&& king_step(k, to)
    &&& may_land(pos, to)
    &&& !attacked_by(pos.men, occupied_without(pos.men, k), pos.side_to_move.flip(), to)
}

/// Whether `m` is a step of the king that the generator yields.
pub open spec fn king_move(pos: Position, m: Move) -> bool {
    &&& m.piece == Piece::King
    &&& m.from.index() == king_square(pos.men, pos.side_to_move)
    &&& king_may_go(pos, m.to.index())
    &&& m.promotion.is_none()
    &&& m.flags == if pos.men[m.to.index()].is_some() {
        MoveFlag::Capture
    } else {
        MoveFlag::Normal
    }
}

/// The squares among `candidates` that no man of the other side attacks once the king has
/// left its square.
#[verifier::rlimit(60)]
fn safe_squares(board: &Board, king: Square, candidates: BitBoard) -> (r: BitBoard)
    requires
        board.wf(),
        king.index() == king_square(board.men(), board.side_to_move),
    ensures
        forall|t: int|
            member(r.0, t) == (member(candidates.0, t) && !attacked_by(
                board.men(),
                occupied_without(board.men(), king.index()),
                board.side_to_move.flip(),
                t,
            )),
{
    let foe = board.side_to_move().opposite();
    let without_king = BitBoard(board.combined().0 & !BitBoard::from_square(king).0);
    let ghost men = board.men();
    let ghost occ = occupied_without(men, king.index());
    proof {
        assert forall|i: int| 0 <= i < 64 implies member(without_king.0, i) == member(occ, i) by {
            broadcast use group_member;
            broadcast use crate::bitboard::lemma_member_bits_of;

            lemma_class_members(
                board.pieces,
                board.occupancies,
                board.combined,
                foe,
                Piece::King,
                i,
            );
        }
        lemma_bits_equal(without_king.0, occ);
    }
    let mut rest: u64 = candidates.0;
    let mut safe: u64 = 0;
    let ghost mut low: int = 0;
    proof {
        assert forall|t: int| !member(safe, t) by {
            lemma_member_zero(t);
        }
    }
    while rest != 0
        invariant
            0 <= low <= 64,
            board.wf(),
            men == board.men(),
            foe == board.side_to_move.flip(),
            without_king.0 == occ,
            forall|i: int| member(rest, i) == (member(candidates.0, i) && i >= low),
            forall|t: int|
                member(safe, t) == (member(candidates.0, t) && t < low && !attacked_by(
                    men,
                    occ,
                    foe,
                    t,
                )),
        decreases rest,
    {
        proof {
            lemma_lowest(rest);
        }
        let t: u32 = rest.trailing_zeros();
        let target = Square::from_index(t as u8);
        let attackers = attackers_to(board, target, without_king, foe);
        let ghost safe_before = safe;
        if attackers.0 == 0 {
            safe = safe | (1u64 << (t as u64));
        }
        let ghost before = rest;
        proof {
            lemma_remove_decreases(rest, t as int);
        }
        rest = rest ^ (1u64 << (t as u64));
        proof {
            broadcast use group_member;

            assert(member(before, t as int));
            assert forall|i: int| member(rest, i) == (member(candidates.0, i) && i >= t + 1) by {
                assert(member(before, i) == (member(candidates.0, i) && i >= low));
                if low <= i < t {
                    assert(!member(before, i));
                }
            }
            assert forall|i: int|
                member(safe, i) == (member(candidates.0, i) && i < t + 1 && !attacked_by(
                    men,
                    occ,
                    foe,
                    i,
                )) by {
                assert(member(safe_before, i) == (member(candidates.0, i) && i < low
                    && !attacked_by(men, occ, foe, i)));
                if low <= i < t {
                    assert(!member(before, i));
                }
            }
            low = t + 1;
        }
    }
    proof {
        assert forall|t: int|
            member(safe, t) == (member(candidates.0, t) && !attacked_by(men, occ, foe, t)) by {
            if t >= low {
                lemma_member_zero(t);
                assert(!member(rest, t));
            }
        }
    }
    BitBoard(safe)
}

/// Adds the steps of the king of the side to move to the list.
#[verifier::rlimit(60)]
pub fn generate_king_moves(board: &Board, move_list: &mut MoveList)
    requires
        board.wf(),
    ensures
        extends(old(move_list)@, final(move_list)@, |m: Move| king_move(board@, m)),
{
    let side = board.side_to_move();
    let theirs = board.occupancies(side.opposite());
    let king = king_of_side(board);
    let landing = landing_mask(board);
    let candidates = BitBoard(get_king_attacks(king).0 & landing.0);
    let safe = safe_squares(board, king, candidates);
    let ghost start = move_list@;
    push_moves_from(king, Piece::King, safe, theirs, move_list);
    proof {
        broadcast use group_member;

        let pos = board@;
        let found = |m: Move| move_in(king.index(), Piece::King, safe.0, theirs.0, m);
        let wanted = |m: Move| king_move(pos, m);
        assert forall|m: Move| #[trigger] found(m) <==> wanted(m) by {
            let t = m.to.index();
            lemma_class_members(
                board.pieces,
                board.occupancies,
                board.combined,
                side.flip(),
                Piece::King,
                t,
            );
            lemma_class_members(
                board.pieces,
                board.occupancies,
                board.combined,
                side,
                Piece::King,
                t,
            );
            assert(member(candidates.0, t) == (king_step(king.index(), t) && may_land(pos, t)));
        }
        lemma_extends_same(start, move_list@, found, wanted);
    }
}

} // verus!
