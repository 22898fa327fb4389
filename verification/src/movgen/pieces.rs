use vstd::prelude::*;
use crate::bitboard::{group_member, lemma_lowest, lemma_member_zero, lemma_remove_decreases, member, BitBoard};
use crate::board::{lemma_class_members, Board};
use crate::chess_move::{Move, MoveFlag};
use crate::movgen::{
    answers_check, check_mask, extends, king_of_side, landing_mask, lemma_combined_is_occupied,
    lemma_extends_none, lemma_sources_done, lemma_sources_step, may_land, move_in, pin_mask,
    push_moves_from, reaches, respects_pin, MoveList,
};
use crate::piece::Piece;
use crate::position::{occupied, Position};
use crate::square::Square;
use crate::tables::{get_bishop_attacks, get_king_attacks, get_knight_attacks, get_rook_attacks};

verus! {

/// Whether the man of the side to move on `from` is of kind `piece` and may go to `to`: it
/// reaches the square, may land there, answers the check if there is one, and stays on its
/// line if it is pinned.
pub open spec fn may_go(pos: Position, check: bool, piece: Piece, from: int, to: int) -> bool {
    &&& 0 <= from < 64
    &&& 0 <= to < 64
    &&& pos.men[from] == Some((pos.side_to_move, piece))
    &&& reaches(piece, occupied(pos.men), from, to)
    &&& may_land(pos, to)
    &&& answers_check(pos, check, to)
    &&& respects_pin(pos, from, to)
}

/// Whether `m` is a move of a knight, bishop, rook or queen that the generator yields for
/// pieces of kind `piece`: the piece may go from the one square to the other, the move
/// promotes nothing, and it is a capture exactly if the target is occupied.
pub open spec fn piece_move(pos: Position, check: bool, piece: Piece, m: Move) -> bool {
    &&& m.piece == piece
    &&& piece != Piece::Pawn
    &&& piece != Piece::King
    &&& may_go(pos, check, piece, m.from.index(), m.to.index())
    &&& m.promotion.is_none()
    &&& m.flags == if pos.men[m.to.index()].is_some() {
        MoveFlag::Capture
    } else {
        MoveFlag::Normal
    }
}

/// The squares that a piece of a kind on `source` attacks over the occupied squares; a pawn
/// attacks nothing in this sense.
pub fn attacks_of(piece: Piece, source: Square, occupancy: BitBoard) -> (r: BitBoard)
    ensures
        forall|t: int| member(r.0, t) == reaches(piece, occupancy.0, source.index(), t),
{
    match piece {
        Piece::Pawn => {
            proof {
                assert forall|t: int| !member(0u64, t) by {
                    lemma_member_zero(t);
                }
            }
            BitBoard(0)
        },
        Piece::Knight => get_knight_attacks(source),
        Piece::Bishop => get_bishop_attacks(source, occupancy),
        Piece::Rook => get_rook_attacks(source, occupancy),
        Piece::Queen => {
            let r = BitBoard(
                get_bishop_attacks(source, occupancy).0 | get_rook_attacks(source, occupancy).0,
            );
            proof {
                broadcast use group_member;

                assert forall|t: int|
                    member(r.0, t) == reaches(piece, occupancy.0, source.index(), t) by {}
            }
            r
        },
        Piece::King => get_king_attacks(source),
    }
}

/// The squares to which the piece of kind `piece` on `source` may go.
fn targets_from(
    board: &Board,
    check: bool,
    piece: Piece,
    source: Square,
    landing: BitBoard,
    answering: BitBoard,
    king: Square,
) -> (r: BitBoard)
    requires
        board.wf(),
        board.men()[source.index()] == Some((board.side_to_move, piece)),
        king.index() == crate::position::king_square(board.men(), board.side_to_move),
        forall|t: int| member(landing.0, t) == (0 <= t < 64 && may_land(board@, t)),
        forall|t: int| member(answering.0, t) == (0 <= t < 64 && answers_check(board@, check, t)),
    ensures
        forall|t: int| member(r.0, t) == may_go(board@, check, piece, source.index(), t),
{
    let attack = attacks_of(piece, source, board.combined());
    let pins = pin_mask(board, source, king);
    let r = BitBoard(attack.0 & landing.0 & answering.0 & pins.0);
    proof {
        broadcast use group_member;

        lemma_combined_is_occupied(board.pieces, board.occupancies, board.combined);
        assert forall|t: int| member(r.0, t) == may_go(board@, check, piece, source.index(), t) by {}
    }
    r
}

/// The moves from one source are the moves of the generator that start there.
proof fn lemma_moves_from_source(
    pos: Position,
    check: bool,
    piece: Piece,
    source: int,
    targets: u64,
    theirs: u64,
)
    requires
        0 <= source < 64,
        piece != Piece::Pawn,
        piece != Piece::King,
        forall|t: int| member(targets, t) == may_go(pos, check, piece, source, t),
        forall|t: int| 0 <= t < 64 && may_land(pos, t) ==> member(theirs, t) == pos.men[t].is_some(),
    ensures
        forall|m: Move| #[trigger]
            move_in(source, piece, targets, theirs, m) <==> piece_move(pos, check, piece, m)
                && m.from.index() == source,
{
}

/// Adds to the list the moves of the pieces of one kind, knight, bishop, rook or queen, of
/// the side to move. `CHECK` says that the side is in check by one man.
#[verifier::rlimit(60)]
pub fn generate_piece_moves<const CHECK: bool>(board: &Board, piece: Piece, move_list: &mut MoveList)
    requires
        board.wf(),
        CHECK ==> board.state.checkers.0 != 0,
        piece != Piece::Pawn,
        piece != Piece::King,
    ensures
        extends(
            old(move_list)@,
            final(move_list)@,
            |m: Move| piece_move(board@, CHECK, piece, m),
        ),
{
    let side = board.side_to_move();
    let sources: u64 = board.pieces(piece).0 & board.occupancies(side).0;
    let theirs = board.occupancies(side.opposite());
    let king = king_of_side(board);
    let landing = landing_mask(board);
    let answering = check_mask(board, CHECK, king);
    let ghost pos = board@;
    let ghost start = move_list@;
    let ghost wanted = |m: Move| piece_move(pos, CHECK, piece, m);
    let mut rest: u64 = sources;
    let ghost mut low: int = 0;
    proof {
        lemma_extends_none(start, |m: Move| wanted(m) && m.from.index() < 0);
        assert forall|i: int| 0 <= i < 64 implies member(sources, i) == (pos.men[i] == Some(
            (side, piece),
        )) && (may_land(pos, i) ==> member(theirs.0, i) == pos.men[i].is_some()) by {
            lemma_class_members(board.pieces, board.occupancies, board.combined, side, piece, i);
            lemma_class_members(
                board.pieces,
                board.occupancies,
                board.combined,
                side.flip(),
                piece,
                i,
            );
        }
    }
    while rest != 0
        invariant
            0 <= low <= 64,
            board.wf(),
            pos == board@,
            piece != Piece::Pawn,
            piece != Piece::King,
            side == board.side_to_move,
            king.index() == crate::position::king_square(board.men(), board.side_to_move),
            forall|t: int| member(landing.0, t) == (0 <= t < 64 && may_land(board@, t)),
            forall|t: int|
                member(answering.0, t) == (0 <= t < 64 && answers_check(board@, CHECK, t)),
            forall|i: int|
                0 <= i < 64 ==> member(sources, i) == (pos.men[i] == Some((side, piece))),
            forall|t: int|
                0 <= t < 64 && may_land(pos, t) ==> member(theirs.0, t) == pos.men[t].is_some(),
            forall|i: int| member(rest, i) == (member(sources, i) && i >= low),
            wanted == (|m: Move| piece_move(pos, CHECK, piece, m)),
            extends(start, move_list@, |m: Move| wanted(m) && m.from.index() < low),
        decreases rest,
    {
        proof {
            lemma_lowest(rest);
        }
        let s: u32 = rest.trailing_zeros();
        let source = Square::from_index(s as u8);
        proof {
            assert(member(rest, s as int));
        }
        let targets = targets_from(board, CHECK, piece, source, landing, answering, king);
        let ghost mid = move_list@;
        push_moves_from(source, piece, targets, theirs, move_list);
        proof {
            let here = |m: Move| move_in(source.index(), piece, targets.0, theirs.0, m);
            lemma_moves_from_source(pos, CHECK, piece, s as int, targets.0, theirs.0);
            assert forall|i: int| low <= i < s implies !member(sources, i) by {
                assert(!member(rest, i));
            }
            lemma_sources_step(start, mid, move_list@, wanted, here, sources, low, s as int);
        }
        let ghost before = rest;
        proof {
            lemma_remove_decreases(rest, s as int);
        }
        rest = rest ^ (1u64 << (s as u64));
        proof {
            broadcast use group_member;

            assert forall|i: int| member(rest, i) == (member(sources, i) && i >= s + 1) by {
                assert(member(before, i) == (member(sources, i) && i >= low));
                if low <= i < s {
                    assert(!member(before, i));
                }
            }
            low = s + 1;
        }
    }
    proof {
        assert forall|i: int| low <= i implies !member(sources, i) by {
            lemma_member_zero(i);
            assert(!member(rest, i));
        }
        lemma_sources_done(start, move_list@, wanted, sources, low);
    }
}

} // verus!
