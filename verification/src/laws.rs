use vstd::prelude::*;
use crate::bitboard::{
    count, group_member, lemma_bits_equal, lemma_count_single, lemma_file_masks, member,
    EDGE_RANKS,
};
use crate::board::{lemma_class_members, Board};
use crate::castling_rights::lemma_rights_shrink;
use crate::castling_rights::{both_sides, kept_between, rights_within};
use crate::chess_move::Move;
use crate::color::Color;
use crate::piece::Piece;
use crate::position::{
    en_passant_victim, king_at, men_hash, one_king, position_hash, rights_after, rook_end,
    rook_start, Position,
};
use crate::zobrist::{content_key, lemma_xor_laws};

verus! {

/// Changing what stands on one square changes the hash of the men by the keys of what stood
/// there and of what stands there now.
pub proof fn lemma_men_hash_update(
    men: Seq<Option<(Color, Piece)>>,
    sq: int,
    content: Option<(Color, Piece)>,
    n: int,
)
    requires
        0 <= sq < 64,
        0 <= n <= 64,
        men.len() == 64,
    ensures
        men_hash(men.update(sq, content), n) == if sq < n {
            men_hash(men, n) ^ content_key(men[sq], sq) ^ content_key(content, sq)
        } else {
            men_hash(men, n)
        },
    decreases n,
{
    if n > 0 {
        lemma_men_hash_update(men, sq, content, n - 1);
        let rest = men_hash(men, n - 1);
        let was = content_key(men[sq], sq);
        let now = content_key(content, sq);
        if sq == n - 1 {
            lemma_xor_laws(rest, was, now);
        } else if sq < n - 1 {
            let here = content_key(men[n - 1], n - 1);
            lemma_xor_laws(rest ^ was, now, here);
            lemma_xor_laws(rest, was, here);
        }
    }
}

/// Taking back a move that fits the men gives back the men, the side to move, the state
/// and the history from before the move, whatever the counters hold; the count of the plies
/// of the game comes back too where it had room for one more.
pub proof fn lemma_apply_then_undo_parts(p: Position, m: Move)
    requires
        p.men.len() == 64,
        p.fits(m),
    ensures
        p.apply(m).undo().men == p.men,
        p.apply(m).undo().side_to_move == p.side_to_move,
        p.apply(m).undo().state == p.state,
        p.apply(m).undo().history == p.history,
        p.game_ply < u16::MAX ==> p.apply(m).undo() == p,
{
    let q = p.apply(m);
    let r = q.undo();
    assert(q.history.drop_last() =~= p.history);
    assert(q.history.last() == p.state);
    assert(r.men =~= p.men);
}

/// Taking back the move just made gives the position from which it was made.
pub proof fn lemma_apply_then_undo(p: Position, m: Move)
    requires
        p.men.len() == 64,
        p.has_room(),
        p.fits(m),
    ensures
        p.apply(m).undo() == p,
{
    lemma_apply_then_undo_parts(p, m);
}

/// A side that has one king before a move that fits the men has one king after it.
#[verifier::rlimit(60)]
pub proof fn lemma_king_survives(p: Position, m: Move, color: Color)
    requires
        p.men.len() == 64,
        p.fits(m),
        one_king(p.men, color),
    ensures
        one_king(p.men_after(m), color),
{
    let k = choose|k: int| #[trigger]
        king_at(p.men, color, k) && forall|j: int| #[trigger] king_at(p.men, color, j) ==> j == k;
    let after = p.men_after(m);
    let from = m.from.index();
    let to = m.to.index();
    let mover = p.side_to_move;
    let k2 = if k == from {
        to
    } else {
        k
    };
    assert(king_at(after, color, k2));
    assert forall|j: int| #[trigger] king_at(after, color, j) implies j == k2 by {
        if j != to && j != from && j != en_passant_victim(mover, to) && j != rook_start(mover, to)
            && j != rook_end(mover, to) {
            assert(after[j] == p.men[j]);
            assert(king_at(p.men, color, j));
        } else if j == to {
            if m.piece != Piece::King || color != mover {
                assert(false);
            }
            assert(king_at(p.men, color, from));
        } else {
            assert(king_at(p.men, color, j) || !king_at(after, color, j));
        }
    }
}

/// A well-formed position is sound.
pub proof fn lemma_wf_sound(p: Position)
    requires
        p.wf(),
    ensures
        p.sound(),
{
    reveal(Position::wf);
}

/// A sound position with no earlier states is well-formed.
pub proof fn lemma_sound_start_wf(p: Position)
    requires
        p.sound(),
        p.history.len() == 0,
    ensures
        p.wf(),
{
    reveal(Position::wf);
}

/// A side with one king has at most one.
pub proof fn lemma_one_is_at_most_one(men: Seq<Option<(Color, Piece)>>, color: Color)
    requires
        one_king(men, color),
    ensures
        crate::position::at_most_one_king(men, color),
{
    let k = choose|k: int| #[trigger]
        king_at(men, color, k) && forall|j: int| #[trigger] king_at(men, color, j) ==> j == k;
    assert forall|i: int, j: int| #[trigger]
        king_at(men, color, i) && #[trigger] king_at(men, color, j) implies i == j by {
        assert(i == k && j == k);
    }
}

/// A move that fits the men of a sound position in which the side that is not to move has
/// its king leaves a sound position in which each side has one king, whatever the counters
/// hold.
#[verifier::rlimit(60)]
pub proof fn lemma_apply_keeps_sound(p: Position, m: Move)
    requires
        p.sound(),
        p.fits(m),
        one_king(p.men, p.side_to_move.flip()),
    ensures
        p.apply(m).sound(),
        one_king(p.apply(m).men, Color::White),
        one_king(p.apply(m).men, Color::Black),
{
    let q = p.apply(m);
    lemma_king_survives(p, m, Color::White);
    lemma_king_survives(p, m, Color::Black);
    lemma_one_is_at_most_one(q.men, p.side_to_move);
    let touched = kept_between(m.from.index(), m.to.index());
    let taken = crate::castling_rights::kept_rights(m.to.index());
    let r0 = p.state.castling_rights.0;
    lemma_rights_shrink(r0, touched);
    lemma_rights_shrink(r0, taken);
    lemma_rights_shrink(r0 & taken, touched);
    lemma_rights_shrink(r0, both_sides(p.side_to_move));
    lemma_rights_shrink(r0 & taken, both_sides(p.side_to_move));
    assert(q.state.castling_rights.wf());
}

/// A move keeps a sound position sound, and a well-formed one well-formed. After it each
/// side has one king.
#[verifier::rlimit(60)]
pub proof fn lemma_apply_keeps_wf(p: Position, m: Move)
    requires
        p.wf(),
        p.accepts(m),
    ensures
        p.apply(m).sound(),
        p.apply(m).wf(),
        one_king(p.apply(m).men, Color::White),
        one_king(p.apply(m).men, Color::Black),
        one_king(p.men, Color::White),
        one_king(p.men, Color::Black),
{
    reveal(Position::wf);
    let q = p.apply(m);
    lemma_apply_keeps_sound(p, m);
    lemma_king_survives(p, m, Color::White);
    lemma_king_survives(p, m, Color::Black);
    lemma_apply_then_undo(p, m);
    assert(q.history.len() > 0);
    assert(q.undo() == p);
}

/// A well-formed position with a history shows its last move, and has been reached by at
/// least one ply.
pub proof fn lemma_shows_last_move(p: Position)
    requires
        p.wf(),
        p.history.len() > 0,
    ensures
        p.state.last_move.is_some(),
        p.shows(p.state.last_move.unwrap()),
        p.game_ply > 0,
        p.undo().wf(),
        p.undo().accepts(p.state.last_move.unwrap()),
        p.undo().apply(p.state.last_move.unwrap()) == p,
{
    reveal(Position::wf);
    let m = p.state.last_move.unwrap();
    let q = p.undo();
    assert(q.accepts(m));
    assert(q.apply(m) == p);
    assert(p.men == q.men_after(m));
}

/// Castling rights are never won back: the rights after a move are among those before it.
pub proof fn lemma_rights_only_shrink(rights: u8, mover: Color, m: Move, captured: Option<Piece>)
    ensures
        rights_within(rights_after(rights, mover, m, captured), rights),
{
    let touched = kept_between(m.from.index(), m.to.index());
    let taken = crate::castling_rights::kept_rights(m.to.index());
    let lost = !both_sides(mover);
    lemma_rights_chain(rights, taken, touched);
    lemma_rights_chain(rights, taken, lost);
}

proof fn lemma_rights_chain(r: u8, a: u8, b: u8)
    ensures
        rights_within(r, r),
        rights_within(r & a, r),
        rights_within(r & b, r),
        rights_within((r & a) & b, r),
{
    assert(r & r == r && (r & a) & r == r & a && (r & b) & r == r & b && ((r & a) & b) & r == (r
        & a) & b) by (bit_vector);
}

/// The sets of a well-formed board never disagree: the two colors share no square, their
/// union is `combined` and so is the union of the six piece sets, no square is in two piece
/// sets, no pawn stands on the first or the last rank, and the hash is the hash that the
/// position gives from scratch.
pub proof fn lemma_board_invariants(b: &Board)
    requires
        b.wf(),
    ensures
        b.occupancies[0].0 & b.occupancies[1].0 == 0,
        b.combined.0 == b.occupancies[0].0 | b.occupancies[1].0,
        b.combined.0 == b.pieces[0].0 | b.pieces[1].0 | b.pieces[2].0 | b.pieces[3].0
            | b.pieces[4].0 | b.pieces[5].0,
        forall|p: int, q: int| 0 <= p < q < 6 ==> b.pieces[p].0 & b.pieces[q].0 == 0,
        b.pieces[0].0 & EDGE_RANKS == 0,
        b.state.hash == position_hash(
            b.men(),
            b.side_to_move,
            b.state.castling_rights,
            b.state.en_passant_target,
        ),
{
    lemma_wf_sound(b@);
    lemma_sound_board_invariants(b);
}

/// The same of any board whose sets agree on every square and whose position is sound,
/// whatever led to it and whatever its counters hold.
#[verifier::rlimit(60)]
pub proof fn lemma_sound_board_invariants(b: &Board)
    requires
        b.squares_ok(),
        b@.sound(),
    ensures
        b.occupancies[0].0 & b.occupancies[1].0 == 0,
        b.combined.0 == b.occupancies[0].0 | b.occupancies[1].0,
        b.combined.0 == b.pieces[0].0 | b.pieces[1].0 | b.pieces[2].0 | b.pieces[3].0
            | b.pieces[4].0 | b.pieces[5].0,
        forall|p: int, q: int| 0 <= p < q < 6 ==> b.pieces[p].0 & b.pieces[q].0 == 0,
        b.pieces[0].0 & EDGE_RANKS == 0,
        b.state.hash == position_hash(
            b.men(),
            b.side_to_move,
            b.state.castling_rights,
            b.state.en_passant_target,
        ),
{
    broadcast use group_member;

    let both = b.occupancies[0].0 | b.occupancies[1].0;
    let kinds = b.pieces[0].0 | b.pieces[1].0 | b.pieces[2].0 | b.pieces[3].0 | b.pieces[4].0
        | b.pieces[5].0;
    assert forall|i: int| 0 <= i < 64 implies member(b.occupancies[0].0 & b.occupancies[1].0, i)
        == member(0, i) && member(b.combined.0, i) == member(both, i) && member(b.combined.0, i)
        == member(kinds, i) by {
        assert(b.square_ok(i));
    }
    lemma_bits_equal(b.occupancies[0].0 & b.occupancies[1].0, 0);
    lemma_bits_equal(b.combined.0, both);
    lemma_bits_equal(b.combined.0, kinds);
    assert forall|p: int, q: int| 0 <= p < q < 6 implies b.pieces[p].0 & b.pieces[q].0 == 0 by {
        assert forall|i: int| 0 <= i < 64 implies member(b.pieces[p].0 & b.pieces[q].0, i)
            == member(0, i) by {
            assert(b.square_ok(i));
        }
        lemma_bits_equal(b.pieces[p].0 & b.pieces[q].0, 0);
    }
    assert forall|i: int| 0 <= i < 64 implies member(b.pieces[0].0 & EDGE_RANKS, i) == member(
        0,
        i,
    ) by {
        lemma_file_masks(i);
        lemma_class_members(b.pieces, b.occupancies, b.combined, Color::White, Piece::Pawn, i);
        lemma_class_members(b.pieces, b.occupancies, b.combined, Color::Black, Piece::Pawn, i);
        assert(b.square_ok(i));
        assert(b@.men[i] == b.content(i));
    }
    lemma_bits_equal(b.pieces[0].0 & EDGE_RANKS, 0);
}

/// On a well-formed board the side to move has exactly one king, and so has the other side
/// once a move has been made, and whenever the board accepts a move.
pub proof fn lemma_board_kings(b: &Board)
    requires
        b.wf(),
    ensures
        count(b.pieces[5].0 & b.occupancies[b.side_to_move.index()].0) == 1,
        b.history@.len() > 0 ==> count(
            b.pieces[5].0 & b.occupancies[b.side_to_move.flip().index()].0,
        ) == 1,
        forall|m: Move| #[trigger]
            b@.accepts(m) ==> count(
                b.pieces[5].0 & b.occupancies[b.side_to_move.flip().index()].0,
            ) == 1,
{
    lemma_wf_sound(b@);
    lemma_one_king_counts(b, b.side_to_move);
    if b.history@.len() > 0 {
        lemma_shows_last_move(b@);
        lemma_apply_keeps_wf(b@.undo(), b.state.last_move.unwrap());
        lemma_one_king_counts(b, b.side_to_move.flip());
    }
    assert forall|m: Move| #[trigger] b@.accepts(m) implies count(
        b.pieces[5].0 & b.occupancies[b.side_to_move.flip().index()].0,
    ) == 1 by {
        lemma_one_king_counts(b, b.side_to_move.flip());
    }
}

/// A side that has one king has one square in the set of its kings.
pub proof fn lemma_one_king_counts(b: &Board, color: Color)
    requires
        b.squares_ok(),
        one_king(b.men(), color),
    ensures
        count(b.pieces[5].0 & b.occupancies[color.index()].0) == 1,
{
    let men = b.men();
    let k = choose|k: int| #[trigger]
        king_at(men, color, k) && forall|j: int| #[trigger] king_at(men, color, j) ==> j == k;
    let kings = b.pieces[5].0 & b.occupancies[color.index()].0;
    assert forall|i: int| member(kings, i) == (i == k) by {
        if 0 <= i < 64 {
            lemma_class_members(b.pieces, b.occupancies, b.combined, color, Piece::King, i);
            assert(men[i] == b.content(i));
            assert(member(kings, i) == king_at(men, color, i));
        } else {
            broadcast use group_member;

        }
    }
    lemma_count_single(kings, k, 64);
}

/// Boards whose sets agree on every square and that stand for the same position are the
/// same in every set and in all else.
pub proof fn lemma_same_position_same_board(a: &Board, b: &Board)
    requires
        a.squares_ok(),
        b.squares_ok(),
        a@ == b@,
    ensures
        a.same_as(b),
{
    lemma_same_men_same_sets(a, b);
}

/// Boards whose sets agree on every square and that hold the same men on the same squares
/// are the same in every set of squares.
#[verifier::rlimit(60)]
pub proof fn lemma_same_men_same_sets(a: &Board, b: &Board)
    requires
        a.squares_ok(),
        b.squares_ok(),
        a.men() == b.men(),
    ensures
        a.pieces@ == b.pieces@,
        a.occupancies@ == b.occupancies@,
        a.combined == b.combined,
{
    assert forall|i: int| 0 <= i < 64 implies a.content(i) == b.content(i) && a.piece_at(i)
        == b.piece_at(i) && a.color_at(i) == b.color_at(i) by {
        assert(a.men()[i] == b.men()[i]);
        lemma_class_members(a.pieces, a.occupancies, a.combined, Color::White, Piece::Pawn, i);
        lemma_class_members(b.pieces, b.occupancies, b.combined, Color::White, Piece::Pawn, i);
    }
    assert forall|p: int| 0 <= p < 6 implies a.pieces[p] == b.pieces[p] by {
        let piece = Piece::at(p);
        assert(piece.index() == p);
        assert forall|i: int| 0 <= i < 64 implies member(a.pieces[p].0, i) == member(
            b.pieces[p].0,
            i,
        ) by {
            lemma_class_members(a.pieces, a.occupancies, a.combined, Color::White, piece, i);
            lemma_class_members(b.pieces, b.occupancies, b.combined, Color::White, piece, i);
            assert(a.piece_at(i) == b.piece_at(i));
        }
        lemma_bits_equal(a.pieces[p].0, b.pieces[p].0);
    }
    assert forall|c: int| 0 <= c < 2 implies a.occupancies[c] == b.occupancies[c] by {
        let color = Color::at(c);
        assert(color.index() == c);
        assert forall|i: int| 0 <= i < 64 implies member(a.occupancies[c].0, i) == member(
            b.occupancies[c].0,
            i,
        ) by {
            lemma_class_members(a.pieces, a.occupancies, a.combined, color, Piece::Pawn, i);
            lemma_class_members(b.pieces, b.occupancies, b.combined, color, Piece::Pawn, i);
            assert(a.color_at(i) == b.color_at(i));
        }
        lemma_bits_equal(a.occupancies[c].0, b.occupancies[c].0);
    }
    assert forall|i: int| 0 <= i < 64 implies member(a.combined.0, i) == member(b.combined.0, i) by {
        lemma_class_members(a.pieces, a.occupancies, a.combined, Color::White, Piece::Pawn, i);
        lemma_class_members(b.pieces, b.occupancies, b.combined, Color::White, Piece::Pawn, i);
        assert(a.content(i) == b.content(i));
    }
    lemma_bits_equal(a.combined.0, b.combined.0);
    assert(a.pieces@ =~= b.pieces@);
    assert(a.occupancies@ =~= b.occupancies@);
}

/// Making a move and taking it back restores the board bit for bit, hash included: any
/// board that stands for the position after the move, once the move is taken back, is the
/// board from before in every set of squares, in its state and in its history.
pub proof fn lemma_apply_undo_restores(before: &Board, between: &Board, after: &Board, m: Move)
    requires
        before.wf(),
        before@.accepts(m),
        between.wf(),
        between@ == before@.apply(m),
        after.wf(),
        after@ == between@.undo(),
    ensures
        after.same_as(before),
        after.state.hash == before.state.hash,
{
    lemma_apply_then_undo(before@, m);
    lemma_same_position_same_board(after, before);
}

/// Every legal move keeps the invariants, whatever the counters hold: on a board that
/// stands for the position after a legal move from a sound position with both kings, the two
/// colors share no square, their union is `combined` and so is the union of the six piece
/// sets, no square is in two piece sets, each side has exactly one king, no pawn stands on
/// the first or the last rank, and the hash is the hash that the position gives from
/// scratch.
pub proof fn lemma_legal_move_keeps_invariants(before: &Board, after: &Board, m: Move)
    requires
        before.squares_ok(),
        before@.sound(),
        one_king(before.men(), before.side_to_move.flip()),
        crate::rules::legal(before@, m),
        after.squares_ok(),
        after@ == before@.apply(m),
    ensures
        after.occupancies[0].0 & after.occupancies[1].0 == 0,
        after.combined.0 == after.occupancies[0].0 | after.occupancies[1].0,
        after.combined.0 == after.pieces[0].0 | after.pieces[1].0 | after.pieces[2].0
            | after.pieces[3].0 | after.pieces[4].0 | after.pieces[5].0,
        forall|p: int, q: int| 0 <= p < q < 6 ==> after.pieces[p].0 & after.pieces[q].0 == 0,
        count(after.pieces[5].0 & after.occupancies[0].0) == 1,
        count(after.pieces[5].0 & after.occupancies[1].0) == 1,
        after.pieces[0].0 & EDGE_RANKS == 0,
        after.state.hash == position_hash(
            after.men(),
            after.side_to_move,
            after.state.castling_rights,
            after.state.en_passant_target,
        ),
{
    crate::movgen::exact::lemma_generated_is_legal(before@, m);
    crate::movgen::legal::lemma_generated_accepted(before@, m);
    lemma_apply_keeps_sound(before@, m);
    lemma_sound_board_invariants(after);
    lemma_one_king_counts(after, Color::White);
    lemma_one_king_counts(after, Color::Black);
}

/// Making a legal move and taking it back restores every set of squares, the side to move,
/// the state with its hash, and the history, whatever the counters hold: so it is on any
/// board that stands for the position after the move was made and taken back. The count of
/// the plies of the game is restored too where it had room for one more.
pub proof fn lemma_legal_move_undone(before: &Board, after: &Board, m: Move)
    requires
        before.squares_ok(),
        before@.sound(),
        crate::rules::legal(before@, m),
        after.squares_ok(),
        after@ == before@.apply(m).undo(),
    ensures
        after.pieces@ == before.pieces@,
        after.occupancies@ == before.occupancies@,
        after.combined == before.combined,
        after.side_to_move == before.side_to_move,
        after.state == before.state,
        after.history@ == before.history@,
        before.game_ply < u16::MAX ==> after.game_ply == before.game_ply,
{
    crate::movgen::exact::lemma_generated_is_legal(before@, m);
    crate::movgen::legal::lemma_generated_accepted(before@, m);
    lemma_apply_then_undo_parts(before@, m);
    lemma_same_men_same_sets(after, before);
}

} // verus!
