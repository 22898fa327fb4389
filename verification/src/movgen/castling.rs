use vstd::prelude::*;
use crate::bitboard::{group_member, lemma_lowest, lemma_member_zero, member};
use crate::board::{lemma_class_members, Board};
use crate::castling_rights::{
    BLACK_KING_SIDE, BLACK_QUEEN_SIDE, WHITE_KING_SIDE, WHITE_QUEEN_SIDE,
};
use crate::chess_move::{Move, MoveFlag};
use crate::color::Color;
use crate::geometry::lies_between;
use crate::movgen::{
    attacked_by, attackers_to, extends, lemma_combined_is_occupied, lemma_extends_none,
    lemma_extends_push, lemma_extends_same, MoveList,
};
use crate::piece::Piece;
use crate::position::{occupied, Position};
use crate::square::{lemma_square_index_roundtrip, Square};
use crate::tables::between;

verus! {

/// The right that a side needs to castle on a wing.
pub open spec fn right_for(side: Color, king_side: bool) -> u8 {
    match side {
        Color::White => if king_side {
            WHITE_KING_SIDE
        } else {
            WHITE_QUEEN_SIDE
        },
        Color::Black => if king_side {
            BLACK_KING_SIDE
        } else {
            BLACK_QUEEN_SIDE
        },
    }
}

/// Whether no man stands between the squares `a` and `b`.
pub open spec fn path_clear(men: Seq<Option<(Color, Piece)>>, a: int, b: int) -> bool {
    forall|t: int| lies_between(a, b, t) ==> men[t].is_none()
}

/// The square that the king reaches when it castles.
pub open spec fn castle_target(side: Color, king_side: bool) -> int {
    8 * side.home_rank() + if king_side {
        6int
    } else {
        2int
    }
}

/// The square that the king crosses when it castles.
pub open spec fn castle_crossing(side: Color, king_side: bool) -> int {
    8 * side.home_rank() + if king_side {
        5int
    } else {
        3int
    }
}

/// The corner from which the rook comes when the king castles.
pub open spec fn castle_corner(side: Color, king_side: bool) -> int {
    8 * side.home_rank() + if king_side {
        7int
    } else {
        0int
    }
}

/// Whether the side to move may castle on a wing: it holds the right, king and rook stand
/// on their home squares with nothing between them, the side is not in check, and no man of
/// the other side attacks the square that the king crosses or the square it reaches.
pub open spec fn may_castle(pos: Position, king_side: bool) -> bool {
    let side = pos.side_to_move;
    let from = 8 * side.home_rank() + 4;
    &&& pos.state.castling_rights.holds(right_for(side, king_side))
    &&& pos.men[from] == Some((side, Piece::King))
    &&& pos.men[castle_corner(side, king_side)] == Some((side, Piece::Rook))
    &&& path_clear(pos.men, from, castle_corner(side, king_side))
    &&& pos.state.checkers.0 == 0
    &&& !attacked_by(
        pos.men,
        occupied(pos.men),
        side.flip(),
        castle_crossing(side, king_side),
    )
    &&& !attacked_by(pos.men, occupied(pos.men), side.flip(), castle_target(side, king_side))
}

/// The castling move of a side on a wing: the king goes two squares towards the rook.
pub open spec fn castling_of(side: Color, king_side: bool) -> Move {
    Move {
        from: Square::at(8 * side.home_rank() + 4),
        to: Square::at(castle_target(side, king_side)),
        piece: Piece::King,
        promotion: None,
        flags: MoveFlag::Castling,
    }
}

/// Whether `m` is a castling move that the generator yields.
pub open spec fn castling_move(pos: Position, m: Move) -> bool {
    (m == castling_of(pos.side_to_move, true) && may_castle(pos, true)) || (m == castling_of(
        pos.side_to_move,
        false,
    ) && may_castle(pos, false))
}

/// Whether the side to move may castle on a wing.
#[verifier::rlimit(60)]
fn can_castle(board: &Board, king_side: bool) -> (r: bool)
    requires
        board.wf(),
    ensures
        r == may_castle(board@, king_side),
{
    let side = board.side_to_move();
    let foe = side.opposite();
    let backrank = side.backrank();
    let right: u8 = match side {
        Color::White => if king_side {
            WHITE_KING_SIDE
        } else {
            WHITE_QUEEN_SIDE
        },
        Color::Black => if king_side {
            BLACK_KING_SIDE
        } else {
            BLACK_QUEEN_SIDE
        },
    };
    let from = Square::from(backrank, 4);
    let (to_file, across_file, rook_file): (u8, u8, u8) = if king_side {
        (6, 5, 7)
    } else {
        (2, 3, 0)
    };
    let to = Square::from(backrank, to_file);
    let across = Square::from(backrank, across_file);
    let rook = Square::from(backrank, rook_file);
    let ghost pos = board@;
    let ghost men = board.men();
    proof {
        lemma_combined_is_occupied(board.pieces, board.occupancies, board.combined);
        assert(rook.index() == castle_corner(side, king_side));
        assert(to.index() == castle_target(side, king_side));
        assert(across.index() == castle_crossing(side, king_side));
        assert(men[from.index()] == board.content(from.index()));
        assert(men[rook.index()] == board.content(rook.index()));
        lemma_class_members(
            board.pieces,
            board.occupancies,
            board.combined,
            side,
            Piece::King,
            from.index(),
        );
        lemma_class_members(
            board.pieces,
            board.occupancies,
            board.combined,
            side,
            Piece::Rook,
            rook.index(),
        );
    }
    if !board.castling_rights().contains(right) {
        return false;
    }
    if !(board.piece_on_square(from) == Some(Piece::King) && board.color_on_square(from) == Some(
        side,
    )) {
        return false;
    }
    if !(board.piece_on_square(rook) == Some(Piece::Rook) && board.color_on_square(rook) == Some(
        side,
    )) {
        return false;
    }
    let blockers: u64 = between(from, rook).0 & board.combined().0;
    proof {
        broadcast use group_member;

        assert forall|t: int| member(blockers, t) == (lies_between(from.index(), rook.index(), t)
            && men[t].is_some()) by {
            if 0 <= t < 64 {
                lemma_class_members(
                    board.pieces,
                    board.occupancies,
                    board.combined,
                    side,
                    Piece::Rook,
                    t,
                );
            }
        }
        if blockers != 0 {
            lemma_lowest(blockers);
            let w = blockers.trailing_zeros() as int;
            assert(member(blockers, w));
            assert(lies_between(from.index(), rook.index(), w) && men[w].is_some());
        } else {
            assert forall|t: int| lies_between(from.index(), rook.index(), t) implies men[t].is_none() by {
                lemma_member_zero(t);
                assert(!member(blockers, t));
            }
        }
    }
    if blockers != 0 {
        return false;
    }
    if !board.checkers().is_empty() {
        return false;
    }
    if attackers_to(board, across, board.combined(), foe).0 != 0 {
        return false;
    }
    attackers_to(board, to, board.combined(), foe).0 == 0
}

/// Adds the castling moves of the side to move to the list.
#[verifier::rlimit(60)]
pub fn generate_castling_moves(board: &Board, move_list: &mut MoveList)
    requires
        board.wf(),
    ensures
        extends(old(move_list)@, final(move_list)@, |m: Move| castling_move(board@, m)),
{
    let side = board.side_to_move();
    let backrank = side.backrank();
    let from = Square::from(backrank, 4);
    let ghost pos = board@;
    let ghost start = move_list@;
    let short = Move {
        from,
        to: Square::from(backrank, 6),
        piece: Piece::King,
        promotion: None,
        flags: MoveFlag::Castling,
    };
    let long = Move {
        from,
        to: Square::from(backrank, 2),
        piece: Piece::King,
        promotion: None,
        flags: MoveFlag::Castling,
    };
    proof {
        lemma_square_index_roundtrip(short.from);
        lemma_square_index_roundtrip(short.to);
        lemma_square_index_roundtrip(long.to);
        assert(short == castling_of(side, true));
        assert(long == castling_of(side, false));
    }
    let ghost none = |m: Move| false;
    let ghost first = |m: Move| m == short && may_castle(pos, true);
    let ghost both = |m: Move| castling_move(pos, m);
    proof {
        lemma_extends_none(start, none);
    }
    if can_castle(board, true) {
        proof {
            lemma_extends_push(start, move_list@, none, short, first);
        }
        move_list.push(short);
    } else {
        proof {
            lemma_extends_same(start, move_list@, none, first);
        }
    }
    if can_castle(board, false) {
        proof {
            lemma_extends_push(start, move_list@, first, long, both);
        }
        move_list.push(long);
    } else {
        proof {
            lemma_extends_same(start, move_list@, first, both);
        }
    }
}

} // verus!
