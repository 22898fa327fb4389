use vstd::prelude::*;
use crate::bitboard::{count, lemma_lowest, member};
use crate::board::Board;
use crate::chess_move::Move;
use crate::geometry::lies_between;
use crate::movgen::castling::{castling_move, generate_castling_moves};
use crate::movgen::en_passant::{en_passant_move, EnPassantMoveGenerator};
use crate::movgen::king::{generate_king_moves, king_move};
use crate::movgen::pawn_capture::{generate_pawn_captures, pawn_capture_move};
use crate::movgen::pieces::{generate_piece_moves, piece_move};
use crate::movgen::quiet_pawn::{quiet_pawn_move, QuietPawnMoveGenerator};
use crate::movgen::{
    extends, first_checker, king_of_side, lemma_extends_none, lemma_extends_same,
    lemma_extends_twice, MoveList,
};
use crate::piece::Piece;
use crate::position::{en_passant_victim, king_square, Position};
use crate::tables::between;

verus! {

/// Whether a capture in passing answers the check: without check it always does, in check
/// it has to take the checker or to land between checker and king.
pub open spec fn passing_answers(pos: Position, check: bool) -> bool {
    !check || match pos.state.en_passant_target {
        Some(t) => first_checker(pos) == en_passant_victim(pos.side_to_move, t.index())
            || lies_between(king_square(pos.men, pos.side_to_move), first_checker(pos), t.index()),
        None => false,
    }
}

/// Whether `m` is a pawn move that the generators yield.
pub open spec fn pawn_move(pos: Position, check: bool, m: Move) -> bool {
    quiet_pawn_move(pos, check, m) || pawn_capture_move(pos, check, m) || (en_passant_move(pos, m)
        && passing_answers(pos, check))
}

/// Whether `m` is a move of a knight, bishop, rook or queen that the generators yield.
pub open spec fn officer_move(pos: Position, check: bool, m: Move) -> bool {
    piece_move(pos, check, Piece::Knight, m) || piece_move(pos, check, Piece::Bishop, m)
        || piece_move(pos, check, Piece::Rook, m) || piece_move(pos, check, Piece::Queen, m)
}

/// Whether `m` is a move of a man other than the king that the generators yield.
pub open spec fn other_move(pos: Position, check: bool, m: Move) -> bool {
    pawn_move(pos, check, m) || officer_move(pos, check, m)
}

/// Whether `m` is a move that the generator yields in a position: always the steps of the
/// king; out of check castling and the moves of the other men; in check by one man those
/// moves of the other men that answer the check; in check by two men nothing more.
pub open spec fn generated(pos: Position, m: Move) -> bool {
    king_move(pos, m) || (pos.state.checkers.0 == 0 && (castling_move(pos, m) || other_move(
        pos,
        false,
        m,
    ))) || (count(pos.state.checkers.0) == 1 && other_move(pos, true, m))
}

/// Whether a capture in passing answers the check.
#[verifier::rlimit(60)]
fn passing_can_answer(board: &Board, check: bool) -> (r: bool)
    requires
        board.wf(),
        check ==> board.state.checkers.0 != 0,
    ensures
        r == passing_answers(board@, check),
{
    if !check {
        return true;
    }
    match board.en_passant_target() {
        None => false,
        Some(target) => {
            let king = king_of_side(board);
            let checker = board.checkers().bit_scan();
            proof {
                lemma_lowest(board.state.checkers.0);
            }
            let victim = target.forward(board.side_to_move().opposite());
            let ghost behind = en_passant_victim(board.side_to_move, target.index());
            let takes = match victim {
                Some(v) => {
                    assert(v.index() == behind);
                    v.to_index() == checker.to_index()
                },
                None => {
                    assert(!(0 <= behind < 64));
                    false
                },
            };
            assert(takes == (first_checker(board@) == behind));
            let blocks = between(king, checker).has_square(target);
            assert(blocks == lies_between(
                king_square(board@.men, board.side_to_move),
                first_checker(board@),
                target.index(),
            ));
            takes || blocks
        },
    }
}

/// Adds the pawn moves of the side to move to the list.
#[verifier::rlimit(60)]
pub fn generate_pawn_moves<const CHECK: bool>(board: &Board, move_list: &mut MoveList)
    requires
        board.wf(),
        CHECK ==> board.state.checkers.0 != 0,
    ensures
        extends(old(move_list)@, final(move_list)@, |m: Move| pawn_move(board@, CHECK, m)),
{
    let ghost pos = board@;
    let ghost first = move_list@;
    QuietPawnMoveGenerator::generate::<CHECK>(board, move_list);
    let ghost second = move_list@;
    generate_pawn_captures::<CHECK>(board, move_list);
    let ghost third = move_list@;
    let ghost pushing = |m: Move| quiet_pawn_move(pos, CHECK, m);
    let ghost taking = |m: Move| pawn_capture_move(pos, CHECK, m);
    let ghost passing = |m: Move| en_passant_move(pos, m) && passing_answers(pos, CHECK);
    let ghost both = |m: Move| pushing(m) || taking(m);
    let ghost all = |m: Move| both(m) || passing(m);
    if passing_can_answer(board, CHECK) {
        EnPassantMoveGenerator::generate::<CHECK>(board, move_list);
        proof {
            lemma_extends_same(third, move_list@, |m: Move| en_passant_move(pos, m), passing);
        }
    } else {
        proof {
            lemma_extends_none(third, passing);
        }
    }
    proof {
        lemma_extends_twice(first, second, third, pushing, taking, both);
        lemma_extends_twice(first, third, move_list@, both, passing, all);
        lemma_extends_same(first, move_list@, all, |m: Move| pawn_move(pos, CHECK, m));
    }
}

/// Adds the moves of the knights, bishops, rooks and queens of the side to move to the list.
#[verifier::rlimit(60)]
pub fn generate_officer_moves<const CHECK: bool>(board: &Board, move_list: &mut MoveList)
    requires
        board.wf(),
        CHECK ==> board.state.checkers.0 != 0,
    ensures
        extends(old(move_list)@, final(move_list)@, |m: Move| officer_move(board@, CHECK, m)),
{
    let ghost pos = board@;
    let ghost first = move_list@;
    generate_piece_moves::<CHECK>(board, Piece::Knight, move_list);
    let ghost second = move_list@;
    generate_piece_moves::<CHECK>(board, Piece::Bishop, move_list);
    let ghost third = move_list@;
    generate_piece_moves::<CHECK>(board, Piece::Rook, move_list);
    let ghost fourth = move_list@;
    generate_piece_moves::<CHECK>(board, Piece::Queen, move_list);
    proof {
        let knights = |m: Move| piece_move(pos, CHECK, Piece::Knight, m);
        let bishops = |m: Move| piece_move(pos, CHECK, Piece::Bishop, m);
        let rooks = |m: Move| piece_move(pos, CHECK, Piece::Rook, m);
        let queens = |m: Move| piece_move(pos, CHECK, Piece::Queen, m);
        let two = |m: Move| knights(m) || bishops(m);
        let three = |m: Move| two(m) || rooks(m);
        let four = |m: Move| three(m) || queens(m);
        lemma_extends_twice(first, second, third, knights, bishops, two);
        lemma_extends_twice(first, third, fourth, two, rooks, three);
        lemma_extends_twice(first, fourth, move_list@, three, queens, four);
        lemma_extends_same(first, move_list@, four, |m: Move| officer_move(pos, CHECK, m));
    }
}

/// Adds the moves of the men other than the king of the side to move to the list.
pub fn generate_other_moves<const CHECK: bool>(board: &Board, move_list: &mut MoveList)
    requires
        board.wf(),
        CHECK ==> board.state.checkers.0 != 0,
    ensures
        extends(old(move_list)@, final(move_list)@, |m: Move| other_move(board@, CHECK, m)),
{
    let ghost pos = board@;
    let ghost first = move_list@;
    generate_pawn_moves::<CHECK>(board, move_list);
    let ghost second = move_list@;
    generate_officer_moves::<CHECK>(board, move_list);
    proof {
        lemma_extends_twice(
            first,
            second,
            move_list@,
            |m: Move| pawn_move(pos, CHECK, m),
            |m: Move| officer_move(pos, CHECK, m),
            |m: Move| other_move(pos, CHECK, m),
        );
    }
}

/// The legal moves of the side to move, each once: the moves that obey the rules by which
/// the men move and leave the mover's king out of check.
#[verifier::rlimit(60)]
pub fn generate_moves(board: &Board) -> (move_list: MoveList)
    requires
        board.wf(),
    ensures
        move_list@.no_duplicates(),
        forall|m: Move| move_list@.contains(m) <==> generated(board@, m),
        forall|m: Move| move_list@.contains(m) <==> crate::rules::legal(board@, m),
{
    let mut move_list = MoveList::new();
    let ghost pos = board@;
    let ghost first = move_list@;
    let checkers = board.checkers();
    let number = checkers.popcnt();
    generate_king_moves(board, &mut move_list);
    let ghost second = move_list@;
    let ghost king = |m: Move| king_move(pos, m);
    let ghost all = |m: Move| generated(pos, m);
    proof {
        if checkers.0 == 0 {
            assert forall|j: int| 0 <= j < 64 implies !member(0u64, j) by {
                crate::bitboard::lemma_member_zero(j);
            }
            crate::bitboard::lemma_count_gap(0, 0, 64);
        } else {
            lemma_lowest(checkers.0);
            crate::bitboard::lemma_count_member(checkers.0, checkers.0.trailing_zeros() as int, 64);
        }
    }
    if number == 0 {
        generate_castling_moves(board, &mut move_list);
        let ghost third = move_list@;
        generate_other_moves::<false>(board, &mut move_list);
        proof {
            let castling = |m: Move| castling_move(pos, m);
            let others = |m: Move| other_move(pos, false, m);
            let two = |m: Move| king(m) || castling(m);
            let three = |m: Move| two(m) || others(m);
            lemma_extends_twice(first, second, third, king, castling, two);
            lemma_extends_twice(first, third, move_list@, two, others, three);
            lemma_extends_same(first, move_list@, three, all);
        }
    } else if number == 1 {
        generate_other_moves::<true>(board, &mut move_list);
        proof {
            let others = |m: Move| other_move(pos, true, m);
            let two = |m: Move| king(m) || others(m);
            lemma_extends_twice(first, second, move_list@, king, others, two);
            lemma_extends_same(first, move_list@, two, all);
        }
    } else {
        proof {
            lemma_extends_same(first, move_list@, king, all);
        }
    }
    proof {
        assert(move_list@.subrange(0, move_list@.len() as int) =~= move_list@);
        crate::laws::lemma_wf_sound(pos);
        assert forall|m: Move| move_list@.contains(m) <==> crate::rules::legal(pos, m) by {
            crate::movgen::exact::lemma_generated_is_legal(pos, m);
        }
    }
    move_list
}

/// Every move that the generator yields fits the men, and can be made on the board as long
/// as the counters have room and the other side has its king.
#[verifier::rlimit(60)]
pub proof fn lemma_generated_accepted(pos: Position, m: Move)
    requires
        pos.sound(),
        generated(pos, m),
    ensures
        pos.fits(m),
        pos.has_room() ==> pos.accepts(m),
{
    let from = m.from.index();
    let to = m.to.index();
    let side = pos.side_to_move;
    let k = king_square(pos.men, side);
    assert(crate::position::king_at(pos.men, side, k)) by {
        let w = choose|w: int| #[trigger]
            crate::position::king_at(pos.men, side, w) && forall|j: int| #[trigger]
                crate::position::king_at(pos.men, side, j) ==> j == w;
        assert(crate::position::king_at(pos.men, side, w));
    }
    if king_move(pos, m) {
    } else if pos.state.checkers.0 == 0 && castling_move(pos, m) {
        lemma_castling_accepted(pos, m);
    } else {
        let check = pos.state.checkers.0 != 0;
        assert(other_move(pos, check, m));
        if quiet_pawn_move(pos, check, m) {
            assert(pos.men[from] matches Some((_, piece)) && piece == Piece::Pawn);
        } else if pawn_capture_move(pos, check, m) {
            assert(pos.men[from] matches Some((_, piece)) && piece == Piece::Pawn);
        } else if en_passant_move(pos, m) {
            assert(pos.men[from] matches Some((_, piece)) && piece == Piece::Pawn);
        } else {
            assert(officer_move(pos, check, m));
        }
    }
}

/// A castling move that the generator yields can be made on the board.
proof fn lemma_castling_accepted(pos: Position, m: Move)
    requires
        pos.men.len() == 64,
        castling_move(pos, m),
    ensures
        pos.fits(m),
{
    let side = pos.side_to_move;
    let from = 8 * side.home_rank() + 4;
    let king_side = m == crate::movgen::castling::castling_of(side, true);
    let corner = crate::movgen::castling::castle_corner(side, king_side);
    let to = crate::movgen::castling::castle_target(side, king_side);
    crate::square::lemma_square_at_index(from);
    crate::square::lemma_square_at_index(to);
    assert(crate::movgen::castling::may_castle(pos, king_side));
    assert(crate::movgen::castling::path_clear(pos.men, from, corner));
    assert(lies_between(from, corner, to));
    assert(lies_between(from, corner, crate::position::rook_end(side, to)));
}

} // verus!
