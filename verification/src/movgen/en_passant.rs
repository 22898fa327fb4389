use vstd::prelude::*;
use crate::bitboard::{
    bits_of, group_member, lemma_bits_equal, lemma_lowest, lemma_member_zero,
    lemma_remove_decreases, member, BitBoard,
};
use crate::board::{lemma_class_members, Board};
use crate::chess_move::{Move, MoveFlag};
use crate::color::Color;
use crate::geometry::{bishop_sees, pawn_hits, rook_sees};
use crate::movgen::{
    extends, lemma_extends_none, lemma_extends_push, lemma_extends_same, lemma_king_square,
    MoveList,
};
use crate::piece::Piece;
use crate::position::{king_at, king_square, Position};
use crate::square::{lemma_square_index_roundtrip, Square};
use crate::tables::{get_bishop_attacks, get_pawn_attacks, get_rook_attacks};

verus! {

/// Generator of the captures in passing.
pub struct EnPassantMoveGenerator;

/// The occupied squares once a pawn has gone from `source` to `destination` and has taken
/// the pawn on `capture` in passing.
pub open spec fn occupied_after_passing(
    men: Seq<Option<(Color, Piece)>>,
    capture: int,
    source: int,
    destination: int,
) -> u64 {
    bits_of(|i: int| (men[i].is_some() && i != capture && i != source) || i == destination)
}

/// Whether a rook, bishop or queen of the side that is not to move stands on `p` and, over
/// the occupied squares `occ`, is on a free line with the king of the side to move.
pub open spec fn slider_reaches_king(pos: Position, occ: u64, p: int) -> bool {
    let k = king_square(pos.men, pos.side_to_move);
    &&& 0 <= p < 64
    &&& pos.men[p] matches Some((color, piece)) && color == pos.side_to_move.flip() && match piece {
        Piece::Rook => rook_sees(occ, k, p),
        Piece::Bishop => bishop_sees(occ, k, p),
        Piece::Queen => rook_sees(occ, k, p) || bishop_sees(occ, k, p),
        _ => false,
    }
}

/// Whether a capture in passing leaves the king of the side to move out of the reach of
/// every rook, bishop and queen of the other side.
pub open spec fn passing_is_safe(pos: Position, capture: int, source: int, destination: int) -> bool {
    forall|p: int|
        !#[trigger] slider_reaches_king(
            pos,
            occupied_after_passing(pos.men, capture, source, destination),
            p,
        )
}

/// Whether `m` is a capture in passing that the generator yields: a pawn of the side to move
/// that attacks the en-passant target takes there, and the capture is safe for the king.
pub open spec fn en_passant_move(pos: Position, m: Move) -> bool {
    let side = pos.side_to_move;
    let from = m.from.index();
    let to = m.to.index();
    &&& pos.state.en_passant_target == Some(m.to)
    &&& m.piece == Piece::Pawn
    &&& m.flags == MoveFlag::EnPassant
    &&& m.promotion.is_none()
    &&& pos.men[from] == Some((side, Piece::Pawn))
    &&& pawn_hits(side, from, to)
    &&& passing_is_safe(pos, to - 8 * side.pawn_step(), from, to)
}

impl EnPassantMoveGenerator {
    /// Whether the king of the side to move is safe from rooks, bishops and queens once the
    /// pawn on `source` has gone to `destination` and the pawn on `capture` has left the
    /// board.
    #[verifier::rlimit(60)]
    pub fn valid_ep(board: &Board, capture: Square, source: Square, destination: Square) -> (r:
        bool)
        requires
            board.wf(),
        ensures
            r == passing_is_safe(board@, capture.index(), source.index(), destination.index()),
    {
        // create combined bitboard of board with both source and capture removed.
        // removing the squares simulates the move
        let combined: u64 = board.combined().0 & !BitBoard::from_square(capture).0
            & !BitBoard::from_square(source).0 | BitBoard::from_square(destination).0;
        let side = board.side_to_move();
        let foe = side.opposite();
        let own: u64 = board.occupancies(side).0;
        let theirs: u64 = board.occupancies(foe).0;
        let ghost pos = board@;
        let ghost men = board.men();
        proof {
            crate::laws::lemma_wf_sound(pos);
        }
        let kings = BitBoard(board.pieces(Piece::King).0 & own);
        proof {
            let w = choose|w: int| #[trigger]
                king_at(men, side, w) && forall|j: int| #[trigger] king_at(men, side, j) ==> j
                    == w;
            lemma_class_members(board.pieces, board.occupancies, board.combined, side, Piece::King, w);
            lemma_member_zero(w);
        }
        let king_square = kings.bit_scan();
        let ghost k = king_square.index();
        proof {
            lemma_class_members(board.pieces, board.occupancies, board.combined, side, Piece::King, k);
            lemma_king_square(men, side, k);
            broadcast use group_member;

            assert forall|i: int| 0 <= i < 64 implies member(combined, i) == ((men[i].is_some()
                && i != capture.index() && i != source.index()) || i == destination.index()) by {
                lemma_class_members(
                    board.pieces,
                    board.occupancies,
                    board.combined,
                    side,
                    Piece::King,
                    i,
                );
            }
            let after = occupied_after_passing(
                men,
                capture.index(),
                source.index(),
                destination.index(),
            );
            assert forall|i: int| 0 <= i < 64 implies member(combined, i) == member(after, i) by {
                broadcast use crate::bitboard::lemma_member_bits_of;

            }
            lemma_bits_equal(combined, after);
        }
        // pretend like the king is a rook
        let straight: u64 = get_rook_attacks(king_square, BitBoard(combined)).0 & (board.pieces(
            Piece::Rook,
        ).0 | board.pieces(Piece::Queen).0) & theirs;
        // pretend like the king is a bishop
        let diagonal: u64 = get_bishop_attacks(king_square, BitBoard(combined)).0 & (board.pieces(
            Piece::Bishop,
        ).0 | board.pieces(Piece::Queen).0) & theirs;
        let attack: u64 = straight | diagonal;
        proof {
            broadcast use group_member;

            assert forall|p: int| member(attack, p) == slider_reaches_king(pos, combined, p) by {
                if 0 <= p < 64 {
                    lemma_class_members(
                        board.pieces,
                        board.occupancies,
                        board.combined,
                        foe,
                        Piece::Rook,
                        p,
                    );
                    lemma_class_members(
                        board.pieces,
                        board.occupancies,
                        board.combined,
                        foe,
                        Piece::Bishop,
                        p,
                    );
                    lemma_class_members(
                        board.pieces,
                        board.occupancies,
                        board.combined,
                        foe,
                        Piece::Queen,
                        p,
                    );
                }
            }
            if attack == 0 {
                assert forall|p: int| !#[trigger] slider_reaches_king(pos, combined, p) by {
                    lemma_member_zero(p);
                    assert(!member(attack, p));
                }
            } else {
                lemma_lowest(attack);
                assert(slider_reaches_king(pos, combined, attack.trailing_zeros() as int));
            }
        }
        attack == 0
    }

    /// Whether the pawn of the side to move on `source` may take in passing on the
    /// en-passant target `ep_square`.
    fn takes_from(board: &Board, source: Square, ep_square: Square) -> (r: bool)
        requires
            board.wf(),
            board.state.en_passant_target == Some(ep_square),
            board.men()[source.index()] == Some((board.side_to_move, Piece::Pawn)),
        ensures
            r == en_passant_move(board@, passing_move(source, ep_square)),
    {
        let side_to_move = board.side_to_move();
        let attack: u64 = get_pawn_attacks(source, side_to_move).0 & BitBoard::from_square(
            ep_square,
        ).0;
        proof {
            broadcast use group_member;

            assert(member(attack, ep_square.index()) == pawn_hits(
                side_to_move,
                source.index(),
                ep_square.index(),
            ));
            if attack != 0 {
                lemma_lowest(attack);
            } else {
                lemma_member_zero(ep_square.index());
            }
        }
        if attack != 0 {
            let destination = ep_square;
            let capture = destination.forward(side_to_move.opposite()).unwrap();
            Self::valid_ep(board, capture, source, destination)
        } else {
            false
        }
    }

    /// Adds the captures in passing of the side to move to the list. Whether the side is in
    /// check makes no difference to them: the test on the king's lines covers it.
    #[verifier::rlimit(60)]
    pub fn generate<const CHECK: bool>(board: &Board, move_list: &mut MoveList)
        requires
            board.wf(),
        ensures
            extends(old(move_list)@, final(move_list)@, |m: Move| en_passant_move(board@, m)),
    {
        let ghost pos = board@;
        let ghost men = board.men();
        let ghost start = move_list@;
        let ghost wanted = |m: Move| en_passant_move(pos, m);
        if let Some(ep_square) = board.en_passant_target() {
            let side_to_move = board.side_to_move();
            let current_sides_pawns: u64 = board.pieces(Piece::Pawn).0 & board.occupancies(
                side_to_move,
            ).0;
            let mut rest: u64 = current_sides_pawns;
            let ghost mut low: int = 0;
            proof {
                crate::laws::lemma_wf_sound(pos);
                lemma_listed_none(pos);
                lemma_extends_none(start, |m: Move| listed(pos, m, 0));
                assert forall|i: int| 0 <= i < 64 implies member(current_sides_pawns, i) == (men[i]
                    == Some((side_to_move, Piece::Pawn))) by {
                    lemma_class_members(
                        board.pieces,
                        board.occupancies,
                        board.combined,
                        side_to_move,
                        Piece::Pawn,
                        i,
                    );
                }
            }
            while rest != 0
                invariant
                    0 <= low <= 64,
                    board.wf(),
                    pos == board@,
                    men == board.men(),
                    men == pos.men,
                    side_to_move == board.side_to_move,
                    board.state.en_passant_target == Some(ep_square),
                    forall|i: int|
                        0 <= i < 64 ==> member(current_sides_pawns, i) == (men[i] == Some(
                            (side_to_move, Piece::Pawn),
                        )),
                    forall|i: int| member(rest, i) == (member(current_sides_pawns, i) && i >= low),
                    extends(start, move_list@, |m: Move| listed(pos, m, low)),
                decreases rest,
            {
                proof {
                    lemma_lowest(rest);
                }
                let s: u32 = rest.trailing_zeros();
                let source = Square::from_index(s as u8);
                let ghost done = |m: Move| listed(pos, m, low);
                let ghost next = |m: Move| listed(pos, m, s + 1);
                let found = passing_move_of(source, ep_square);
                proof {
                    assert(member(rest, s as int));
                    assert forall|i: int| low <= i < s implies men[i] != Some(
                        (side_to_move, Piece::Pawn),
                    ) by {
                        assert(!member(rest, i));
                    }
                    lemma_listed_step(pos, low, source, ep_square);
                }
                if Self::takes_from(board, source, ep_square) {
                    proof {
                        lemma_extends_push(start, move_list@, done, found, next);
                    }
                    move_list.push(found);
                } else {
                    proof {
                        lemma_extends_same(start, move_list@, done, next);
                    }
                }
                let ghost before = rest;
                proof {
                    lemma_remove_decreases(rest, s as int);
                }
                rest = rest ^ (1u64 << (s as u64));
                proof {
                    broadcast use group_member;

                    assert forall|i: int|
                        member(rest, i) == (member(current_sides_pawns, i) && i >= s + 1) by {
                        assert(member(before, i) == (member(current_sides_pawns, i) && i >= low));
                        if low <= i < s {
                            assert(!member(before, i));
                        }
                    }
                    low = s + 1;
                }
            }
            proof {
                assert forall|i: int| low <= i < 64 implies men[i] != Some(
                    (side_to_move, Piece::Pawn),
                ) by {
                    lemma_member_zero(i);
                    assert(!member(rest, i));
                }
                lemma_listed_all(pos, low);
                lemma_extends_same(start, move_list@, |m: Move| listed(pos, m, low), wanted);
            }
        } else {
            proof {
                lemma_extends_none(start, wanted);
            }
        }
    }
}

/// The capture in passing between two squares.
pub open spec fn passing_move(from: Square, to: Square) -> Move {
    Move { from, to, piece: Piece::Pawn, promotion: None, flags: MoveFlag::EnPassant }
}

fn passing_move_of(from: Square, to: Square) -> (r: Move)
    ensures
        r == passing_move(from, to),
{
    Move { from, to, promotion: None, piece: Piece::Pawn, flags: MoveFlag::EnPassant }
}

/// Whether `m` is a capture in passing that the generator yields from a square below `low`.
#[verifier::opaque]
pub open spec fn listed(pos: Position, m: Move, low: int) -> bool {
    en_passant_move(pos, m) && m.from.index() < low
}

proof fn lemma_listed_none(pos: Position)
    ensures
        forall|m: Move| !#[trigger] listed(pos, m, 0),
{
    reveal(listed);
}

proof fn lemma_listed_all(pos: Position, low: int)
    requires
        0 <= low <= 64,
        forall|i: int| low <= i < 64 ==> pos.men[i] != Some((pos.side_to_move, Piece::Pawn)),
    ensures
        forall|m: Move| #[trigger] listed(pos, m, low) <==> en_passant_move(pos, m),
{
    reveal(listed);
}

proof fn lemma_listed_step(pos: Position, low: int, source: Square, target: Square)
    requires
        0 <= low <= source.index(),
        pos.state.en_passant_target == Some(target),
        forall|i: int| low <= i < source.index() ==> pos.men[i] != Some(
            (pos.side_to_move, Piece::Pawn),
        ),
    ensures
        !listed(pos, passing_move(source, target), low),
        en_passant_move(pos, passing_move(source, target)) ==> forall|x: Move| #[trigger]
            listed(pos, x, source.index() + 1) <==> listed(pos, x, low) || x == passing_move(
                source,
                target,
            ),
        !en_passant_move(pos, passing_move(source, target)) ==> forall|x: Move| #[trigger]
            listed(pos, x, low) <==> listed(pos, x, source.index() + 1),
{
    reveal(listed);
    let found = passing_move(source, target);
    assert forall|x: Move| x.from.index() == source.index() && en_passant_move(pos, x) implies x
        == found by {
        lemma_square_index_roundtrip(x.from);
        lemma_square_index_roundtrip(source);
    }
}

} // verus!
