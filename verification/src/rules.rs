use vstd::prelude::*;
use crate::chess_move::{Move, MoveFlag};
use crate::color::Color;
use crate::geometry::{king_step, pawn_hits, rank_of};
use crate::movgen::castling::{
    castle_corner, castle_crossing, castling_of, path_clear, right_for,
};
use crate::movgen::{attacked_by, may_land, reaches};
use crate::piece::Piece;
use crate::position::{is_checker, king_square, occupied, Position};

verus! {

/// Whether the king of `side` is attacked by a man of the other side.
pub open spec fn in_check(men: Seq<Option<(Color, Piece)>>, side: Color) -> bool {
    exists|s: int| is_checker(men, side, s)
}

/// The flag of a move that is a capture exactly if its target is occupied.
pub open spec fn plain_flag(pos: Position, to: int) -> MoveFlag {
    if pos.men[to].is_some() {
        MoveFlag::Capture
    } else {
        MoveFlag::Normal
    }
}

/// Whether a pawn that reaches `to` promotes as the rules ask: on the last rank it does,
/// elsewhere it does not.
pub open spec fn promotes_rightly(pos: Position, m: Move) -> bool {
    m.promotion.is_some() == (rank_of(m.to.index()) == pos.side_to_move.flip().home_rank())
}

/// A knight, bishop, rook or queen of the side to move goes to a square that it reaches
/// and on which it may land.
pub open spec fn officer_shape(pos: Position, m: Move) -> bool {
    let from = m.from.index();
    let to = m.to.index();
    &&& m.piece != Piece::Pawn
    &&& m.piece != Piece::King
    &&& pos.men[from] == Some((pos.side_to_move, m.piece))
    &&& reaches(m.piece, occupied(pos.men), from, to)
    &&& may_land(pos, to)
    &&& m.promotion.is_none()
    &&& m.flags == plain_flag(pos, to)
}

/// The king of the side to move steps to a square next to it on which it may land.
pub open spec fn king_shape(pos: Position, m: Move) -> bool {
    let from = m.from.index();
    let to = m.to.index();
    &&& m.piece == Piece::King
    &&& from == king_square(pos.men, pos.side_to_move)
    &&& king_step(from, to)
    &&& may_land(pos, to)
    &&& m.promotion.is_none()
    &&& m.flags == plain_flag(pos, to)
}

/// A pawn of the side to move advances: one square to an empty square, or two squares over
/// an empty square to an empty square on the fourth rank of its side.
pub open spec fn push_shape(pos: Position, m: Move) -> bool {
    let side = pos.side_to_move;
    let step = 8 * side.pawn_step();
    let from = m.from.index();
    let to = m.to.index();
    &&& m.piece == Piece::Pawn
    &&& pos.men[from] == Some((side, Piece::Pawn))
    &&& 0 <= from + step < 64
    &&& pos.men[from + step].is_none()
    &&& match m.flags {
        MoveFlag::Normal => to == from + step && promotes_rightly(pos, m),
        MoveFlag::DoublePawnPush => to == from + 2 * step && rank_of(to) == side.home_rank() + 3
            * side.pawn_step() && pos.men[to].is_none() && m.promotion.is_none(),
        _ => false,
    }
}

/// A pawn of the side to move takes a man that it attacks.
pub open spec fn capture_shape(pos: Position, m: Move) -> bool {
    let from = m.from.index();
    let to = m.to.index();
    &&& m.piece == Piece::Pawn
    &&& m.flags == MoveFlag::Capture
    &&& pos.men[from] == Some((pos.side_to_move, Piece::Pawn))
    &&& pawn_hits(pos.side_to_move, from, to)
    &&& pos.men[to].is_some()
    &&& may_land(pos, to)
    &&& promotes_rightly(pos, m)
}

/// A pawn of the side to move takes in passing on the en-passant target, which it attacks.
pub open spec fn passing_shape(pos: Position, m: Move) -> bool {
    let from = m.from.index();
    let to = m.to.index();
    &&& pos.state.en_passant_target == Some(m.to)
    &&& m.piece == Piece::Pawn
    &&& m.flags == MoveFlag::EnPassant
    &&& m.promotion.is_none()
    &&& pos.men[from] == Some((pos.side_to_move, Piece::Pawn))
    &&& pawn_hits(pos.side_to_move, from, to)
}

/// The side to move castles on a wing: it holds the right, king and rook stand on their
/// home squares with nothing between them, the king is not in check, and the square that
/// the king crosses is not attacked.
pub open spec fn wing_shape(pos: Position, king_side: bool) -> bool {
    let side = pos.side_to_move;
    let from = 8 * side.home_rank() + 4;
    &&& pos.state.castling_rights.holds(right_for(side, king_side))
    &&& pos.men[from] == Some((side, Piece::King))
    &&& pos.men[castle_corner(side, king_side)] == Some((side, Piece::Rook))
    &&& path_clear(pos.men, from, castle_corner(side, king_side))
    &&& !in_check(pos.men, side)
    &&& !attacked_by(
        pos.men,
        occupied(pos.men),
        side.flip(),
        castle_crossing(side, king_side),
    )
}

/// The move is a castling move that the rules of movement allow.
pub open spec fn castling_shape(pos: Position, m: Move) -> bool {
    (m == castling_of(pos.side_to_move, true) && wing_shape(pos, true)) || (m == castling_of(
        pos.side_to_move,
        false,
    ) && wing_shape(pos, false))
}

/// Whether a move obeys the rules by which the men move, whatever it does to the safety of
/// the mover's king.
pub open spec fn pseudo_legal(pos: Position, m: Move) -> bool {
    officer_shape(pos, m) || king_shape(pos, m) || push_shape(pos, m) || capture_shape(pos, m)
        || passing_shape(pos, m) || castling_shape(pos, m)
}

/// Whether the king of the side that moves is out of check once the move is made.
pub open spec fn safe_after(pos: Position, m: Move) -> bool {
    !in_check(pos.men_after(m), pos.side_to_move)
}

/// Whether a move is legal: it obeys the rules of movement and does not leave the mover's
/// king in check.
pub open spec fn legal(pos: Position, m: Move) -> bool {
    pseudo_legal(pos, m) && safe_after(pos, m)
}

} // verus!
