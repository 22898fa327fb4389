use vstd::prelude::*;
use crate::bitboard::{count, lemma_lowest, lemma_member_bits_of, lemma_member_zero, member};
use crate::chess_move::{Move, MoveFlag};
use crate::color::Color;
use crate::geometry::{
    bishop_sees, clear_between, file_of, king_step, knight_jump, lies_between, on_line, pawn_hits,
    rank_of, rook_sees,
};
use crate::movgen::castling::{
    castle_corner, castle_crossing, castle_target, castling_move, castling_of, may_castle,
};
use crate::movgen::en_passant::{
    en_passant_move, occupied_after_passing, passing_is_safe, slider_reaches_king,
};
use crate::movgen::king::{king_move, occupied_without};
use crate::movgen::legal::{generated, officer_move, other_move, passing_answers};
use crate::movgen::pawn_capture::pawn_capture_move;
use crate::movgen::pieces::piece_move;
use crate::movgen::quiet_pawn::quiet_pawn_move;
use crate::movgen::{
    answers_check, attacked_by, attacker_on, first_checker, hits, reaches, respects_pin,
};
use crate::piece::Piece;
use crate::position::{
    attacks, en_passant_victim, is_checker, is_pinned, is_pinner, king_at, king_square, occupied,
    only_between, Position,
};
use crate::rules::{
    capture_shape, castling_shape, in_check, king_shape, legal, officer_shape, passing_shape,
    pseudo_legal, push_shape, safe_after, wing_shape,
};

verus! {

/// What the cached sets of a sound position hold: the checkers are the men that give check,
/// the pinned men are the men that are pinned, and the king stands on its square.
pub proof fn lemma_cache(pos: Position)
    requires
        pos.sound(),
    ensures
        king_at(pos.men, pos.side_to_move, king_square(pos.men, pos.side_to_move)),
        forall|j: int| #[trigger]
            king_at(pos.men, pos.side_to_move, j) ==> j == king_square(
                pos.men,
                pos.side_to_move,
            ),
        forall|s: int| #[trigger]
            member(pos.state.checkers.0, s) == is_checker(pos.men, pos.side_to_move, s),
        forall|s: int| #[trigger]
            member(pos.state.pinned.0, s) == is_pinned(pos.men, pos.side_to_move, s),
        forall|t: int| #[trigger] member(occupied(pos.men), t) == (0 <= t < 64 && pos.men[t].is_some()),
        (pos.state.checkers.0 == 0) == !in_check(pos.men, pos.side_to_move),
        pos.state.checkers.0 != 0 ==> is_checker(pos.men, pos.side_to_move, first_checker(pos)),
{
    let men = pos.men;
    let side = pos.side_to_move;
    let w = choose|w: int| #[trigger]
        king_at(men, side, w) && forall|j: int| #[trigger] king_at(men, side, j) ==> j == w;
    assert(king_at(men, side, w));
    assert forall|s: int| #[trigger]
        member(pos.state.checkers.0, s) == is_checker(men, side, s) by {
        lemma_member_bits_of(|s: int| is_checker(men, side, s), s);
    }
    assert forall|s: int| #[trigger] member(pos.state.pinned.0, s) == is_pinned(men, side, s) by {
        lemma_member_bits_of(|s: int| is_pinned(men, side, s), s);
    }
    assert forall|t: int| #[trigger] member(occupied(men), t) == (0 <= t < 64 && men[t].is_some()) by {
        lemma_member_bits_of(|i: int| men[i].is_some(), t);
    }
    if pos.state.checkers.0 != 0 {
        lemma_lowest(pos.state.checkers.0);
        assert(is_checker(men, side, first_checker(pos)));
    } else {
        assert forall|s: int| !is_checker(men, side, s) by {
            lemma_member_zero(s);
            assert(!member(pos.state.checkers.0, s));
        }
    }
}

/// Two sets of occupied squares that agree between `a` and `b` give the same sight from the
/// one to the other.
pub proof fn lemma_same_sight(first: u64, second: u64, a: int, b: int)
    requires
        forall|t: int| lies_between(a, b, t) ==> member(first, t) == member(second, t),
    ensures
        clear_between(first, a, b) == clear_between(second, a, b),
        rook_sees(first, a, b) == rook_sees(second, a, b),
        bishop_sees(first, a, b) == bishop_sees(second, a, b),
{
    if clear_between(first, a, b) {
        assert forall|t: int| lies_between(a, b, t) implies !member(second, t) by {
            assert(!member(first, t));
        }
    }
    if clear_between(second, a, b) {
        assert forall|t: int| lies_between(a, b, t) implies !member(first, t) by {
            assert(!member(second, t));
        }
    }
}

/// No man attacks the square it stands on.
pub proof fn lemma_no_self_attack(piece: Piece, by: Color, occ: u64, a: int)
    ensures
        !hits(piece, by, occ, a, a),
{
}

/// Whether a man of the other side on `s` gives check is a matter of what stands on `s`
/// and of how it hits the king's square.
pub proof fn lemma_checker_hits(men: Seq<Option<(Color, Piece)>>, side: Color, s: int)
    ensures
        is_checker(men, side, s) == attacker_on(
            men,
            occupied(men),
            side.flip(),
            king_square(men, side),
            s,
        ),
{
}

/// A step of the king leaves it out of check exactly if no man of the other side attacks
/// the square it steps to once the king has left its own.
#[verifier::rlimit(60)]
pub proof fn lemma_king_step_safe(pos: Position, m: Move)
    requires
        pos.sound(),
        king_shape(pos, m),
    ensures
        safe_after(pos, m) == !attacked_by(
            pos.men,
            occupied_without(pos.men, king_square(pos.men, pos.side_to_move)),
            pos.side_to_move.flip(),
            m.to.index(),
        ),
        king_move(pos, m) == safe_after(pos, m),
{
    lemma_cache(pos);
    let men = pos.men;
    let side = pos.side_to_move;
    let foe = side.flip();
    let k = king_square(men, side);
    let to = m.to.index();
    let after = pos.men_after(m);
    let without = occupied_without(men, k);
    let occ = occupied(after);
    assert(pos.fits(m));
    crate::laws::lemma_king_survives(pos, m, side);
    assert(after =~= men.update(k, None).update(to, Some((side, Piece::King))));
    assert(king_at(after, side, to));
    crate::movgen::lemma_king_square(after, side, to);
    assert forall|t: int| #[trigger] member(occ, t) == (0 <= t < 64 && after[t].is_some()) by {
        lemma_member_bits_of(|i: int| after[i].is_some(), t);
    }
    assert forall|t: int| #[trigger]
        member(without, t) == (0 <= t < 64 && men[t].is_some() && t != k) by {
        broadcast use lemma_member_bits_of;

    }
    assert forall|s: int| is_checker(after, side, s) == attacker_on(men, without, foe, to, s) by {
        lemma_checker_hits(after, side, s);
        if 0 <= s < 64 {
            if s == to {
                if men[s].is_some() {
                    lemma_no_self_attack(men[s].unwrap().1, foe, without, to);
                }
            } else if s != k {
                assert(after[s] == men[s]);
                assert forall|t: int| lies_between(s, to, t) implies member(occ, t) == member(
                    without,
                    t,
                ) by {
                    assert(t != to);
                    assert(member(occ, t) == (0 <= t < 64 && after[t].is_some()));
                    assert(member(without, t) == (0 <= t < 64 && men[t].is_some() && t != k));
                }
                lemma_same_sight(occ, without, s, to);
            }
        }
    }
    if in_check(after, side) {
        let s = choose|s: int| is_checker(after, side, s);
        assert(attacker_on(men, without, foe, to, s));
    }
    if attacked_by(men, without, foe, to) {
        let s = choose|s: int| attacker_on(men, without, foe, to, s);
        assert(is_checker(after, side, s));
    }
}

/// A move of a man other than the king that takes nothing in passing: of a knight, bishop,
/// rook or queen, or of a pawn that advances or takes.
pub open spec fn simple_shape(pos: Position, m: Move) -> bool {
    officer_shape(pos, m) || push_shape(pos, m) || capture_shape(pos, m)
}

/// Whether a man that lands on `to` takes or blocks every man that gives check.
pub open spec fn answers_all(pos: Position, to: int) -> bool {
    forall|c: int| #[trigger]
        is_checker(pos.men, pos.side_to_move, c) ==> to == c || lies_between(
            king_square(pos.men, pos.side_to_move),
            c,
            to,
        )
}

/// Whether a man that goes from `from` to `to` keeps every line shut that it alone shuts
/// between a rook, bishop or queen of the other side and its king: it takes the piece or
/// stays between the two.
pub open spec fn keeps_lines_shut(pos: Position, from: int, to: int) -> bool {
    forall|s: int|
        #[trigger] is_pinner(pos.men, pos.side_to_move, s, king_square(pos.men, pos.side_to_move))
            && only_between(pos.men, s, king_square(pos.men, pos.side_to_move), from) ==> to == s
            || lies_between(s, king_square(pos.men, pos.side_to_move), to)
}

/// A pawn, a knight and a king attack squares so near that nothing lies between.
pub proof fn lemma_short_attack(by: Color, a: int, b: int, t: int)
    requires
        pawn_hits(by, a, b) || knight_jump(a, b) || king_step(a, b),
    ensures
        !lies_between(a, b, t),
        !lies_between(b, a, t),
{
}

/// What stands where after a simple move: the source is empty, the target holds the moved
/// man, every other square holds what it held; the king has not moved.
pub proof fn lemma_after_simple(pos: Position, m: Move)
    requires
        pos.sound(),
        simple_shape(pos, m),
    ensures
        pos.fits(m),
        m.from.index() != m.to.index(),
        m.from.index() != king_square(pos.men, pos.side_to_move),
        m.to.index() != king_square(pos.men, pos.side_to_move),
        pos.men_after(m).len() == 64,
        pos.men_after(m)[m.from.index()].is_none(),
        pos.men_after(m)[m.to.index()] == Some((pos.side_to_move, m.arriving_piece())),
        forall|t: int|
            0 <= t < 64 && t != m.from.index() && t != m.to.index() ==> #[trigger] pos.men_after(
                m,
            )[t] == pos.men[t],
        king_square(pos.men_after(m), pos.side_to_move) == king_square(
            pos.men,
            pos.side_to_move,
        ),
        forall|t: int| #[trigger]
            member(occupied(pos.men_after(m)), t) == (0 <= t < 64 && pos.men_after(m)[t].is_some()),
{
    lemma_cache(pos);
    let men = pos.men;
    let side = pos.side_to_move;
    let k = king_square(men, side);
    let after = pos.men_after(m);
    if push_shape(pos, m) {
        assert(men[m.from.index()] matches Some((_, piece)) && piece == Piece::Pawn);
    }
    if capture_shape(pos, m) {
        assert(men[m.from.index()] matches Some((_, piece)) && piece == Piece::Pawn);
    }
    assert(pos.fits(m));
    crate::laws::lemma_king_survives(pos, m, side);
    assert(king_at(after, side, k));
    crate::movgen::lemma_king_square(after, side, k);
    assert forall|t: int| #[trigger]
        member(occupied(after), t) == (0 <= t < 64 && after[t].is_some()) by {
        lemma_member_bits_of(|i: int| after[i].is_some(), t);
    }
}

/// Whether a simple move leaves the king out of check: it does exactly if it answers every
/// check and keeps every line shut that the moving man alone shuts.
#[verifier::rlimit(100)]
pub proof fn lemma_simple_safe(pos: Position, m: Move)
    requires
        pos.sound(),
        simple_shape(pos, m),
    ensures
        safe_after(pos, m) == (answers_all(pos, m.to.index()) && keeps_lines_shut(
            pos,
            m.from.index(),
            m.to.index(),
        )),
{
    lemma_cache(pos);
    lemma_after_simple(pos, m);
    let men = pos.men;
    let side = pos.side_to_move;
    let foe = side.flip();
    let k = king_square(men, side);
    let from = m.from.index();
    let to = m.to.index();
    let after = pos.men_after(m);
    let occ = occupied(men);
    let occ2 = occupied(after);
    if answers_all(pos, to) && keeps_lines_shut(pos, from, to) {
        assert forall|s: int| !is_checker(after, side, s) by {
            if is_checker(after, side, s) {
                lemma_simple_checker_before(pos, m, s);
            }
        }
    }
    if safe_after(pos, m) {
        assert forall|c: int| #[trigger] is_checker(men, side, c) implies to == c
            || lies_between(k, c, to) by {
            if to != c && !lies_between(k, c, to) {
                lemma_simple_checker_stays(pos, m, c);
                assert(in_check(after, side));
            }
        }
        assert forall|s: int| #[trigger]
            is_pinner(men, side, s, k) && only_between(men, s, k, from) implies to == s
            || lies_between(s, k, to) by {
            if to != s && !lies_between(s, k, to) {
                lemma_simple_pinner_sees(pos, m, s);
                assert(in_check(after, side));
            }
        }
    }
}

/// A man that gives check after a simple move gave check before it and is neither taken nor
/// blocked, or was held off by the moving man alone and is neither taken nor blocked.
#[verifier::rlimit(100)]
proof fn lemma_simple_checker_before(pos: Position, m: Move, s: int)
    requires
        pos.sound(),
        simple_shape(pos, m),
        is_checker(pos.men_after(m), pos.side_to_move, s),
    ensures
        !(answers_all(pos, m.to.index()) && keeps_lines_shut(pos, m.from.index(), m.to.index())),
{
    lemma_cache(pos);
    lemma_after_simple(pos, m);
    let men = pos.men;
    let side = pos.side_to_move;
    let k = king_square(men, side);
    let from = m.from.index();
    let to = m.to.index();
    let after = pos.men_after(m);
    let occ = occupied(men);
    let occ2 = occupied(after);
    assert(s != to && s != from);
    assert(after[s] == men[s]);
    let piece = men[s].unwrap().1;
    if piece == Piece::Pawn || piece == Piece::Knight || piece == Piece::King {
        assert(is_checker(men, side, s));
        lemma_short_attack(side.flip(), s, k, to);
    } else {
        assert(clear_between(occ2, s, k));
        if clear_between(occ, s, k) {
            assert(is_checker(men, side, s));
            if lies_between(k, s, to) {
                assert(lies_between(s, k, to));
                assert(member(occ2, to));
            }
        } else {
            let t0 = choose|t: int| lies_between(s, k, t) && member(occ, t);
            assert(!member(occ2, t0));
            assert(t0 == from);
            assert forall|t: int| lies_between(s, k, t) && t != from implies men[t].is_none() by {
                assert(!member(occ2, t));
            }
            assert(is_pinner(men, side, s, k));
            assert(only_between(men, s, k, from));
            if lies_between(s, k, to) {
                assert(member(occ2, to));
            }
        }
    }
}

/// A man that gives check and is not taken by a simple move gives check after it unless
/// the moving man lands between it and the king.
#[verifier::rlimit(100)]
proof fn lemma_simple_checker_stays(pos: Position, m: Move, c: int)
    requires
        pos.sound(),
        simple_shape(pos, m),
        is_checker(pos.men, pos.side_to_move, c),
        m.to.index() != c,
        !lies_between(king_square(pos.men, pos.side_to_move), c, m.to.index()),
    ensures
        is_checker(pos.men_after(m), pos.side_to_move, c),
{
    lemma_cache(pos);
    lemma_after_simple(pos, m);
    let men = pos.men;
    let side = pos.side_to_move;
    let k = king_square(men, side);
    let from = m.from.index();
    let to = m.to.index();
    let after = pos.men_after(m);
    let occ = occupied(men);
    let occ2 = occupied(after);
    assert(c != from);
    assert(after[c] == men[c]);
    assert forall|t: int| lies_between(c, k, t) implies !member(occ2, t) by {
        assert(lies_between(k, c, t));
        assert(t != to);
        if clear_between(occ, c, k) {
            assert(!member(occ, t));
        }
    }
}

/// A rook, bishop or queen that the moving man alone holds off, and that a simple move does
/// not take, gives check after the move unless the man lands between it and the king.
#[verifier::rlimit(100)]
proof fn lemma_simple_pinner_sees(pos: Position, m: Move, s: int)
    requires
        pos.sound(),
        simple_shape(pos, m),
        is_pinner(pos.men, pos.side_to_move, s, king_square(pos.men, pos.side_to_move)),
        only_between(pos.men, s, king_square(pos.men, pos.side_to_move), m.from.index()),
        m.to.index() != s,
        !lies_between(s, king_square(pos.men, pos.side_to_move), m.to.index()),
    ensures
        is_checker(pos.men_after(m), pos.side_to_move, s),
{
    lemma_cache(pos);
    lemma_after_simple(pos, m);
    let men = pos.men;
    let side = pos.side_to_move;
    let k = king_square(men, side);
    let from = m.from.index();
    let to = m.to.index();
    let after = pos.men_after(m);
    let occ2 = occupied(after);
    assert(s != from);
    assert(after[s] == men[s]);
    assert forall|t: int| lies_between(s, k, t) implies !member(occ2, t) by {
        assert(t != to);
        if t != from {
            assert(men[t].is_none());
        }
    }
    assert(clear_between(occ2, s, k));
}

/// Of two different squares that both have `t` between them and `k`, one lies between `k`
/// and the other.
pub proof fn lemma_same_ray(k: int, a: int, b: int, t: int)
    requires
        lies_between(k, a, t),
        lies_between(k, b, t),
        a != b,
    ensures
        lies_between(k, a, b) || lies_between(k, b, a),
{
}

/// A man that gives check with a square between it and the king sees the king along a free
/// line: of the squares between them none is occupied.
proof fn lemma_far_checker(pos: Position, c: int, t: int)
    requires
        pos.sound(),
        is_checker(pos.men, pos.side_to_move, c),
        lies_between(king_square(pos.men, pos.side_to_move), c, t),
    ensures
        clear_between(occupied(pos.men), c, king_square(pos.men, pos.side_to_move)),
        pos.men[t].is_none(),
{
    lemma_cache(pos);
    let k = king_square(pos.men, pos.side_to_move);
    let piece = pos.men[c].unwrap().1;
    if piece == Piece::Pawn || piece == Piece::Knight || piece == Piece::King {
        lemma_short_attack(pos.side_to_move.flip(), c, k, t);
    }
    assert(lies_between(c, k, t));
    assert(!member(occupied(pos.men), t));
}

/// A landing square answers every check exactly if there is no check, or one man gives
/// check and the square is his or lies between him and the king.
#[verifier::rlimit(100)]
pub proof fn lemma_answers(pos: Position, to: int)
    requires
        pos.sound(),
        0 <= to < 64,
    ensures
        answers_all(pos, to) == (pos.state.checkers.0 == 0 || (count(pos.state.checkers.0) == 1
            && answers_check(pos, true, to))),
{
    lemma_cache(pos);
    let men = pos.men;
    let side = pos.side_to_move;
    let k = king_square(men, side);
    let checkers = pos.state.checkers.0;
    if checkers != 0 {
        crate::bitboard::lemma_count_one(checkers);
        let first = first_checker(pos);
        assert(is_checker(men, side, first));
        if count(checkers) == 1 {
            assert forall|c: int| #[trigger] is_checker(men, side, c) implies c == first by {
                assert(member(checkers, c));
            }
        } else {
            let other = choose|i: int| member(checkers, i) && i != first;
            assert(is_checker(men, side, other));
            if answers_all(pos, to) {
                if to == first {
                    lemma_far_checker(pos, other, to);
                } else if to == other {
                    lemma_far_checker(pos, first, to);
                } else {
                    lemma_same_ray(k, first, other, to);
                    if lies_between(k, first, other) {
                        lemma_far_checker(pos, first, other);
                    } else {
                        lemma_far_checker(pos, other, first);
                    }
                }
            }
        }
    }
}

/// A square on the stretch from `s` to `k`, or `s` itself, lies on the line through `k`
/// and any other square between `s` and `k`.
pub proof fn lemma_stretch_on_line(s: int, k: int, from: int, to: int)
    requires
        lies_between(s, k, from),
        to == s || lies_between(s, k, to),
        to != from,
    ensures
        on_line(k, from, to),
{
}

/// A square on the line through `k` and a square between `s` and `k` that is neither on
/// the stretch from `s` to `k` nor one of its ends lies beyond one of the ends.
pub proof fn lemma_line_beyond(s: int, k: int, from: int, to: int)
    requires
        lies_between(s, k, from),
        on_line(k, from, to),
        to != s,
        to != k,
        to != from,
        !lies_between(s, k, to),
    ensures
        lies_between(from, to, s) || lies_between(from, to, k),
{
}

/// A knight never lands on a line through the square it leaves, and a pawn takes on a
/// square next to its own.
pub proof fn lemma_jump_off_line(by: Color, k: int, from: int, to: int, t: int)
    ensures
        knight_jump(from, to) ==> !on_line(k, from, to),
        pawn_hits(by, from, to) ==> !lies_between(from, to, t),
{
}

/// The man on `from` is pinned if it alone stands between its king and a rook, bishop or
/// queen of the other side.
proof fn lemma_is_pinned(pos: Position, s: int, from: int)
    requires
        pos.sound(),
        0 <= from < 64,
        pos.men[from] matches Some((color, _)) && color == pos.side_to_move,
        is_pinner(pos.men, pos.side_to_move, s, king_square(pos.men, pos.side_to_move)),
        only_between(pos.men, s, king_square(pos.men, pos.side_to_move), from),
    ensures
        member(pos.state.pinned.0, from),
{
    lemma_cache(pos);
    assert(is_pinned(pos.men, pos.side_to_move, from));
}

/// For a knight, bishop, rook or queen, and for a pawn that takes, to keep the lines shut
/// that it alone shuts is to stay on the line of its pin.
#[verifier::rlimit(100)]
pub proof fn lemma_pin_line(pos: Position, m: Move)
    requires
        pos.sound(),
        officer_shape(pos, m) || capture_shape(pos, m),
    ensures
        keeps_lines_shut(pos, m.from.index(), m.to.index()) == respects_pin(
            pos,
            m.from.index(),
            m.to.index(),
        ),
{
    lemma_cache(pos);
    lemma_after_simple(pos, m);
    let men = pos.men;
    let side = pos.side_to_move;
    let k = king_square(men, side);
    let from = m.from.index();
    let to = m.to.index();
    let occ = occupied(men);
    if respects_pin(pos, from, to) {
        assert forall|s: int|
            #[trigger] is_pinner(men, side, s, k) && only_between(men, s, k, from) implies to == s
            || lies_between(s, k, to) by {
            lemma_is_pinned(pos, s, from);
            assert(on_line(k, from, to));
            if to != s && !lies_between(s, k, to) {
                lemma_line_beyond(s, k, from, to);
                lemma_jump_off_line(side, k, from, to, s);
                lemma_jump_off_line(side, k, from, to, k);
                assert(member(occ, s) && member(occ, k));
            }
        }
    }
    if keeps_lines_shut(pos, from, to) {
        if member(pos.state.pinned.0, from) {
            assert(is_pinned(men, side, from));
            let s = choose|s: int| #[trigger]
                is_pinner(men, side, s, k) && only_between(men, s, k, from);
            lemma_stretch_on_line(s, k, from, to);
        }
    }
}

/// A pawn on the file of its king, between the king and `s`, that advances one square, or
/// two over a square that is neither `s` nor the king's, and lands neither on `s` nor on
/// the king, still stands between the two.
pub proof fn lemma_push_stays(s: int, k: int, from: int, to: int, step: int)
    requires
        lies_between(s, k, from),
        file_of(from) == file_of(k),
        step == 8 || step == -8,
        0 <= to < 64,
        to == from + step || (to == from + 2 * step && from + step != s && from + step != k),
        to != s,
        to != k,
    ensures
        lies_between(s, k, to),
{
}

/// Two squares of one file that both lie between `s` and `k` put `k` on that file.
pub proof fn lemma_push_file(s: int, k: int, from: int, to: int)
    requires
        lies_between(s, k, from),
        lies_between(s, k, to),
        from != to,
        file_of(from) == file_of(to),
    ensures
        file_of(from) == file_of(k),
{
}

/// For a pawn that advances, to keep the lines shut that it alone shuts is to stand on the
/// file of its king if it is pinned.
#[verifier::rlimit(100)]
pub proof fn lemma_pin_file(pos: Position, m: Move)
    requires
        pos.sound(),
        push_shape(pos, m),
    ensures
        keeps_lines_shut(pos, m.from.index(), m.to.index()) == (!member(
            pos.state.pinned.0,
            m.from.index(),
        ) || file_of(m.from.index()) == file_of(king_square(pos.men, pos.side_to_move))),
{
    lemma_cache(pos);
    lemma_after_simple(pos, m);
    let men = pos.men;
    let side = pos.side_to_move;
    let k = king_square(men, side);
    let from = m.from.index();
    let to = m.to.index();
    let step = 8 * side.pawn_step();
    assert(men[to].is_none());
    assert(men[from + step].is_none());
    assert(men[k].is_some());
    assert(to == from + step || to == from + 2 * step);
    assert(file_of(to) == file_of(from));
    if !member(pos.state.pinned.0, from) || file_of(from) == file_of(k) {
        assert forall|s: int|
            #[trigger] is_pinner(men, side, s, k) && only_between(men, s, k, from) implies to == s
            || lies_between(s, k, to) by {
            lemma_is_pinned(pos, s, from);
            assert(men[s].is_some());
            lemma_push_stays(s, k, from, to, step);
        }
    }
    if keeps_lines_shut(pos, from, to) {
        if member(pos.state.pinned.0, from) {
            assert(is_pinned(men, side, from));
            let s = choose|s: int| #[trigger]
                is_pinner(men, side, s, k) && only_between(men, s, k, from);
            assert(men[s].is_some());
            assert(lies_between(s, k, to));
            lemma_push_file(s, k, from, to);
        }
    }
}

/// Whether `m` is a simple move that the generators yield with the check taken as `check`.
pub open spec fn simple_move(pos: Position, check: bool, m: Move) -> bool {
    quiet_pawn_move(pos, check, m) || pawn_capture_move(pos, check, m) || officer_move(
        pos,
        check,
        m,
    )
}

/// A simple move that the generators yield, with the check taken as `check`, is a move of
/// simple shape that lands on a square that answers the check and keeps to its pin.
#[verifier::rlimit(100)]
pub proof fn lemma_simple_parts(pos: Position, check: bool, m: Move)
    requires
        pos.sound(),
        check ==> pos.state.checkers.0 != 0,
    ensures
        simple_move(pos, check, m) == (simple_shape(pos, m) && answers_check(
            pos,
            check,
            m.to.index(),
        ) && keeps_lines_shut(pos, m.from.index(), m.to.index())),
{
    lemma_cache(pos);
    let men = pos.men;
    let from = m.from.index();
    let to = m.to.index();
    if officer_shape(pos, m) || officer_move(pos, check, m) {
        assert(officer_shape(pos, m));
        lemma_pin_line(pos, m);
        assert(officer_move(pos, check, m) == piece_move(pos, check, m.piece, m));
    } else if capture_shape(pos, m) || pawn_capture_move(pos, check, m) {
        assert(capture_shape(pos, m));
        lemma_pin_line(pos, m);
    } else if push_shape(pos, m) || quiet_pawn_move(pos, check, m) {
        assert(push_shape(pos, m));
        lemma_pin_file(pos, m);
        assert(men[to].is_none());
        if check {
            assert(is_checker(men, pos.side_to_move, first_checker(pos)));
            assert(to != first_checker(pos));
        }
    }
}

/// The simple moves that the generator yields are the legal ones: a move of simple shape
/// is yielded exactly if it leaves the king out of check.
#[verifier::rlimit(100)]
pub proof fn lemma_simple_exact(pos: Position, m: Move)
    requires
        pos.sound(),
        simple_shape(pos, m),
    ensures
        ((pos.state.checkers.0 == 0 && simple_move(pos, false, m)) || (count(
            pos.state.checkers.0,
        ) == 1 && simple_move(pos, true, m))) == safe_after(pos, m),
{
    lemma_cache(pos);
    lemma_after_simple(pos, m);
    lemma_simple_safe(pos, m);
    lemma_answers(pos, m.to.index());
    lemma_simple_parts(pos, false, m);
    if pos.state.checkers.0 != 0 {
        lemma_simple_parts(pos, true, m);
    } else {
        crate::bitboard::lemma_count_gap(0, 0, 64);
    }
}

/// Whether a pawn, a knight or a king of the other side on `c` gives check.
pub open spec fn short_checker(pos: Position, c: int) -> bool {
    is_checker(pos.men, pos.side_to_move, c) && (pos.men[c] matches Some((_, piece)) && (piece
        == Piece::Pawn || piece == Piece::Knight || piece == Piece::King))
}

/// What stands where after a capture in passing: the source and the square of the taken
/// pawn are empty, the target holds the pawn, every other square holds what it held; the
/// king has not moved.
#[verifier::rlimit(100)]
pub proof fn lemma_after_passing(pos: Position, m: Move)
    requires
        pos.sound(),
        passing_shape(pos, m),
    ensures
        pos.fits(m),
        0 <= en_passant_victim(pos.side_to_move, m.to.index()) < 64,
        pos.men[en_passant_victim(pos.side_to_move, m.to.index())] == Some(
            (pos.side_to_move.flip(), Piece::Pawn),
        ),
        pos.men[m.to.index()].is_none(),
        pos.men_after(m).len() == 64,
        pos.men_after(m)[m.from.index()].is_none(),
        pos.men_after(m)[en_passant_victim(pos.side_to_move, m.to.index())].is_none(),
        pos.men_after(m)[m.to.index()] == Some((pos.side_to_move, Piece::Pawn)),
        forall|t: int|
            0 <= t < 64 && t != m.from.index() && t != m.to.index() && t != en_passant_victim(
                pos.side_to_move,
                m.to.index(),
            ) ==> #[trigger] pos.men_after(m)[t] == pos.men[t],
        king_square(pos.men_after(m), pos.side_to_move) == king_square(
            pos.men,
            pos.side_to_move,
        ),
        occupied(pos.men_after(m)) == occupied_after_passing(
            pos.men,
            en_passant_victim(pos.side_to_move, m.to.index()),
            m.from.index(),
            m.to.index(),
        ),
        forall|t: int| #[trigger]
            member(occupied(pos.men_after(m)), t) == (0 <= t < 64 && pos.men_after(m)[t].is_some()),
{
    lemma_cache(pos);
    let men = pos.men;
    let side = pos.side_to_move;
    let k = king_square(men, side);
    let after = pos.men_after(m);
    let from = m.from.index();
    let to = m.to.index();
    let victim = en_passant_victim(side, to);
    assert(men[from] matches Some((_, piece)) && piece == Piece::Pawn);
    assert(pos.fits(m));
    crate::laws::lemma_king_survives(pos, m, side);
    assert(king_at(after, side, k));
    crate::movgen::lemma_king_square(after, side, k);
    assert forall|t: int| #[trigger]
        member(occupied(after), t) == (0 <= t < 64 && after[t].is_some()) by {
        lemma_member_bits_of(|i: int| after[i].is_some(), t);
    }
    let simulated = occupied_after_passing(men, victim, from, to);
    assert forall|t: int| 0 <= t < 64 implies member(occupied(after), t) == member(simulated, t) by {
        broadcast use lemma_member_bits_of;

    }
    crate::bitboard::lemma_bits_equal(occupied(after), simulated);
}

/// A pawn that is taken in passing and gives check stands so that the square on which the
/// capturing pawn lands is on no line with the king.
pub proof fn lemma_passing_off_line(side: Color, k: int, victim: int, to: int, c: int)
    requires
        pawn_hits(side.flip(), victim, k),
        victim == en_passant_victim(side, to),
    ensures
        !lies_between(k, c, to),
{
}

/// Whether a capture in passing leaves the king out of check: it does exactly if no rook,
/// bishop or queen reaches the king over the squares as they are after it, and no pawn,
/// knight or king gives check but the pawn that is taken.
#[verifier::rlimit(100)]
pub proof fn lemma_passing_safe(pos: Position, m: Move)
    requires
        pos.sound(),
        passing_shape(pos, m),
    ensures
        safe_after(pos, m) == (passing_is_safe(
            pos,
            en_passant_victim(pos.side_to_move, m.to.index()),
            m.from.index(),
            m.to.index(),
        ) && forall|c: int| #[trigger]
            short_checker(pos, c) ==> c == en_passant_victim(pos.side_to_move, m.to.index())),
{
    lemma_cache(pos);
    lemma_after_passing(pos, m);
    let men = pos.men;
    let side = pos.side_to_move;
    let foe = side.flip();
    let k = king_square(men, side);
    let from = m.from.index();
    let to = m.to.index();
    let victim = en_passant_victim(side, to);
    let after = pos.men_after(m);
    let occ2 = occupied(after);
    assert forall|s: int|
        is_checker(after, side, s) == (slider_reaches_king(pos, occ2, s) || (short_checker(pos, s)
            && s != victim)) by {
        if 0 <= s < 64 {
            crate::movgen::lemma_attacks_mirror(foe, occ2, s, k);
            if s != from && s != to && s != victim {
                assert(after[s] == men[s]);
            }
        }
    }
    if safe_after(pos, m) {
        assert forall|p: int| !#[trigger] slider_reaches_king(pos, occ2, p) by {
            assert(!is_checker(after, side, p));
        }
        assert forall|c: int| #[trigger] short_checker(pos, c) implies c == victim by {
            assert(!is_checker(after, side, c));
        }
    }
    let only_victim = forall|c: int| #[trigger] short_checker(pos, c) ==> c == victim;
    if passing_is_safe(pos, victim, from, to) && only_victim {
        let simulated = occupied_after_passing(men, victim, from, to);
        assert(occ2 == simulated);
        assert forall|s: int| !is_checker(after, side, s) by {
            assert(!slider_reaches_king(pos, simulated, s));
            assert(short_checker(pos, s) ==> s == victim);
            assert(is_checker(after, side, s) == (slider_reaches_king(pos, occ2, s) || (
            short_checker(pos, s) && s != victim)));
        }
    }
}

/// A rook, bishop or queen that gives check and does not reach the king once a pawn has
/// taken in passing is blocked by that pawn.
#[verifier::rlimit(100)]
proof fn lemma_passing_blocks(pos: Position, m: Move, c: int)
    requires
        pos.sound(),
        passing_shape(pos, m),
        is_checker(pos.men, pos.side_to_move, c),
        !short_checker(pos, c),
        !slider_reaches_king(pos, occupied(pos.men_after(m)), c),
    ensures
        lies_between(king_square(pos.men, pos.side_to_move), c, m.to.index()),
{
    lemma_cache(pos);
    lemma_after_passing(pos, m);
    let men = pos.men;
    let side = pos.side_to_move;
    let k = king_square(men, side);
    let to = m.to.index();
    let after = pos.men_after(m);
    let occ = occupied(men);
    let occ2 = occupied(after);
    crate::movgen::lemma_attacks_mirror(side.flip(), occ2, c, k);
    crate::movgen::lemma_attacks_mirror(side.flip(), occ, c, k);
    assert(clear_between(occ, c, k));
    assert(!clear_between(occ2, c, k));
    let t = choose|t: int| lies_between(c, k, t) && member(occ2, t);
    assert(!member(occ, t));
    assert(t == to);
    assert(lies_between(k, c, to));
}

/// The captures in passing that the generator yields are the legal ones.
#[verifier::rlimit(100)]
pub proof fn lemma_passing_exact(pos: Position, m: Move)
    requires
        pos.sound(),
        passing_shape(pos, m),
    ensures
        ((pos.state.checkers.0 == 0 && en_passant_move(pos, m)) || (count(pos.state.checkers.0)
            == 1 && en_passant_move(pos, m) && passing_answers(pos, true))) == safe_after(pos, m),
{
    lemma_cache(pos);
    lemma_after_passing(pos, m);
    lemma_passing_safe(pos, m);
    let men = pos.men;
    let side = pos.side_to_move;
    let k = king_square(men, side);
    let from = m.from.index();
    let to = m.to.index();
    let victim = en_passant_victim(side, to);
    let after = pos.men_after(m);
    let occ2 = occupied(after);
    let checkers = pos.state.checkers.0;
    assert(en_passant_move(pos, m) == passing_is_safe(pos, victim, from, to));
    if checkers == 0 {
        crate::bitboard::lemma_count_gap(0, 0, 64);
        assert forall|c: int| #[trigger] short_checker(pos, c) implies c == victim by {
            assert(member(checkers, c));
            lemma_member_zero(c);
        }
    } else {
        crate::bitboard::lemma_count_one(checkers);
        let first = first_checker(pos);
        assert(is_checker(men, side, first));
        if safe_after(pos, m) {
            // each man that gives check is the pawn taken or is blocked by the capturing pawn
            assert forall|c: int| is_checker(men, side, c) implies c == victim || lies_between(
                k,
                c,
                to,
            ) by {
                if !short_checker(pos, c) {
                    assert(!slider_reaches_king(pos, occ2, c));
                    lemma_passing_blocks(pos, m, c);
                }
            }
            assert(first == victim || lies_between(k, first, to));
            if count(checkers) != 1 {
                let other = choose|i: int| member(checkers, i) && i != first;
                assert(is_checker(men, side, other));
                assert(other == victim || lies_between(k, other, to));
                if first == victim {
                    lemma_passing_off_line(side, k, victim, to, other);
                } else if other == victim {
                    lemma_passing_off_line(side, k, victim, to, first);
                } else {
                    lemma_same_ray(k, first, other, to);
                    if lies_between(k, first, other) {
                        lemma_far_checker(pos, first, other);
                    } else {
                        lemma_far_checker(pos, other, first);
                    }
                }
            }
        }
        if count(checkers) == 1 && en_passant_move(pos, m) && passing_answers(pos, true) {
            assert forall|c: int| #[trigger] short_checker(pos, c) implies c == victim by {
                assert(member(checkers, c));
                assert(c == first);
                if lies_between(k, first, to) {
                    lemma_short_attack(side.flip(), c, k, to);
                }
            }
        }
    }
}

/// What stands where after castling: king and rook have changed to their new squares, and
/// every other square holds what it held.
#[verifier::rlimit(100)]
pub proof fn lemma_after_castling(pos: Position, king_side: bool)
    requires
        pos.sound(),
        wing_shape(pos, king_side),
    ensures
        castling_of(pos.side_to_move, king_side).from.index() == 8 * pos.side_to_move.home_rank()
            + 4,
        castling_of(pos.side_to_move, king_side).to.index() == castle_target(
            pos.side_to_move,
            king_side,
        ),
        pos.fits(castling_of(pos.side_to_move, king_side)),
        king_square(pos.men, pos.side_to_move) == 8 * pos.side_to_move.home_rank() + 4,
        pos.men_after(castling_of(pos.side_to_move, king_side)) == pos.men.update(
            8 * pos.side_to_move.home_rank() + 4,
            None,
        ).update(
            castle_target(pos.side_to_move, king_side),
            Some((pos.side_to_move, Piece::King)),
        ).update(castle_corner(pos.side_to_move, king_side), None).update(
            castle_crossing(pos.side_to_move, king_side),
            Some((pos.side_to_move, Piece::Rook)),
        ),
        king_square(
            pos.men_after(castling_of(pos.side_to_move, king_side)),
            pos.side_to_move,
        ) == castle_target(pos.side_to_move, king_side),
        forall|t: int| #[trigger]
            member(occupied(pos.men_after(castling_of(pos.side_to_move, king_side))), t) == (0 <= t
                < 64 && pos.men_after(castling_of(pos.side_to_move, king_side))[t].is_some()),
{
    lemma_cache(pos);
    let men = pos.men;
    let side = pos.side_to_move;
    let home = 8 * side.home_rank();
    let m = castling_of(side, king_side);
    let target = castle_target(side, king_side);
    let corner = castle_corner(side, king_side);
    let crossing = castle_crossing(side, king_side);
    crate::square::lemma_square_at_index(home + 4);
    crate::square::lemma_square_at_index(target);
    assert(king_at(men, side, home + 4));
    assert(lies_between(home + 4, corner, target));
    assert(lies_between(home + 4, corner, crossing));
    assert(men[target].is_none());
    assert(men[crossing].is_none());
    assert(crate::position::rook_start(side, target) == corner);
    assert(crate::position::rook_end(side, target) == crossing);
    assert(pos.fits(m));
    let after = pos.men_after(m);
    crate::laws::lemma_king_survives(pos, m, side);
    assert(king_at(after, side, target));
    crate::movgen::lemma_king_square(after, side, target);
    assert forall|t: int| #[trigger]
        member(occupied(after), t) == (0 <= t < 64 && after[t].is_some()) by {
        lemma_member_bits_of(|i: int| after[i].is_some(), t);
    }
}

/// A square of the king's home rank, other than those that castling changes and those that
/// have to be empty, has the king's square or the square that the king crosses between
/// itself and the square that the king reaches; a square of another rank has no square of
/// the home rank between itself and that square.
pub proof fn lemma_castling_lines(side: Color, king_side: bool, s: int, t: int)
    requires
        0 <= s < 64,
        lies_between(s, castle_target(side, king_side), t),
    ensures
        rank_of(s) != side.home_rank() ==> rank_of(t) != side.home_rank(),
        rank_of(s) == side.home_rank() && s != 8 * side.home_rank() + 4 && s != castle_corner(
            side,
            king_side,
        ) && s != castle_crossing(side, king_side) && !lies_between(
            8 * side.home_rank() + 4,
            castle_corner(side, king_side),
            s,
        ) ==> lies_between(s, castle_target(side, king_side), 8 * side.home_rank() + 4)
            && lies_between(
            s,
            castle_target(side, king_side),
            castle_crossing(side, king_side),
        ),
{
}

/// Castling leaves the king out of check exactly if no man of the other side attacks the
/// square that the king reaches as the men stand before it.
#[verifier::rlimit(100)]
pub proof fn lemma_castling_safe(pos: Position, king_side: bool)
    requires
        pos.sound(),
        wing_shape(pos, king_side),
    ensures
        safe_after(pos, castling_of(pos.side_to_move, king_side)) == !attacked_by(
            pos.men,
            occupied(pos.men),
            pos.side_to_move.flip(),
            castle_target(pos.side_to_move, king_side),
        ),
{
    lemma_cache(pos);
    lemma_after_castling(pos, king_side);
    let men = pos.men;
    let side = pos.side_to_move;
    let foe = side.flip();
    let home = 8 * side.home_rank();
    let m = castling_of(side, king_side);
    let target = castle_target(side, king_side);
    let corner = castle_corner(side, king_side);
    let crossing = castle_crossing(side, king_side);
    let after = pos.men_after(m);
    let occ = occupied(men);
    let occ2 = occupied(after);
    assert(after[home + 4].is_none() && after[corner].is_none());
    assert(after[target] == Some((side, Piece::King)));
    assert(after[crossing] == Some((side, Piece::Rook)));
    assert forall|s: int| is_checker(after, side, s) == attacker_on(men, occ, foe, target, s) by {
        lemma_checker_hits(after, side, s);
        if 0 <= s < 64 {
            if s == home + 4 || s == corner || s == crossing || s == target {
                if s == target || s == crossing {
                    assert(men[s].is_none());
                }
            } else {
                assert(after[s] == men[s]);
                if men[s].is_some() {
                    assert(!lies_between(home + 4, corner, s));
                    if rank_of(s) != side.home_rank() {
                        assert forall|t: int| lies_between(s, target, t) implies member(occ2, t)
                            == member(occ, t) by {
                            lemma_castling_lines(side, king_side, s, t);
                            assert(after[t] == men[t]);
                        }
                        lemma_same_sight(occ2, occ, s, target);
                    } else {
                        if lies_between(s, target, home + 4) {
                            assert(member(occ, home + 4));
                            assert(member(occ2, crossing));
                            assert(lies_between(s, target, crossing));
                        } else {
                            assert forall|t: int| !lies_between(s, target, t) by {
                                if lies_between(s, target, t) {
                                    lemma_castling_lines(side, king_side, s, t);
                                }
                            }
                            lemma_same_sight(occ2, occ, s, target);
                        }
                    }
                }
            }
        }
    }
    if in_check(after, side) {
        let s = choose|s: int| is_checker(after, side, s);
        assert(attacker_on(men, occ, foe, target, s));
    }
    if attacked_by(men, occ, foe, target) {
        let s = choose|s: int| attacker_on(men, occ, foe, target, s);
        assert(is_checker(after, side, s));
    }
}

/// The two castling moves of a side differ.
proof fn lemma_castlings_differ(side: Color)
    ensures
        castling_of(side, true) != castling_of(side, false),
        castling_of(side, true).flags == MoveFlag::Castling,
        castling_of(side, false).flags == MoveFlag::Castling,
{
    crate::square::lemma_square_at_index(castle_target(side, true));
    crate::square::lemma_square_at_index(castle_target(side, false));
}

/// The generator yields exactly the legal moves: a move is yielded if and only if it obeys
/// the rules by which the men move and, once it is made, the mover's king is not in check.
#[verifier::rlimit(100)]
pub proof fn lemma_generated_is_legal(pos: Position, m: Move)
    requires
        pos.sound(),
    ensures
        generated(pos, m) == legal(pos, m),
{
    lemma_cache(pos);
    let side = pos.side_to_move;
    lemma_castlings_differ(side);
    let checkers = pos.state.checkers.0;
    if checkers == 0 {
        crate::bitboard::lemma_count_gap(0, 0, 64);
    }
    if king_shape(pos, m) {
        lemma_king_step_safe(pos, m);
        assert(!other_move(pos, true, m) && !other_move(pos, false, m));
    } else if simple_shape(pos, m) {
        lemma_simple_exact(pos, m);
        assert(!king_move(pos, m));
        assert(!en_passant_move(pos, m));
        assert(other_move(pos, true, m) == simple_move(pos, true, m));
        assert(other_move(pos, false, m) == simple_move(pos, false, m));
    } else if passing_shape(pos, m) {
        lemma_passing_exact(pos, m);
        assert(!king_move(pos, m));
        assert(!simple_move(pos, true, m) && !simple_move(pos, false, m));
    } else if castling_shape(pos, m) {
        let king_side = m == castling_of(side, true);
        assert(wing_shape(pos, king_side));
        lemma_castling_safe(pos, king_side);
        assert(!king_move(pos, m));
        assert(!other_move(pos, true, m) && !other_move(pos, false, m));
        assert(may_castle(pos, king_side) == !attacked_by(
            pos.men,
            occupied(pos.men),
            side.flip(),
            castle_target(side, king_side),
        ));
    } else {
        assert(!pseudo_legal(pos, m));
        assert(!king_move(pos, m));
        assert(!simple_move(pos, true, m) && !simple_move(pos, false, m));
        assert(!en_passant_move(pos, m));
        if castling_move(pos, m) && checkers == 0 {
            let king_side = m == castling_of(side, true);
            assert(may_castle(pos, king_side));
            assert(wing_shape(pos, king_side));
        }
    }
}

/// What is left of a list without repetition when only the moves that `keep` accepts are
/// kept: a list without repetition of those moves of the list that `keep` accepts.
pub proof fn lemma_kept(list: Seq<Move>, keep: spec_fn(Move) -> bool)
    requires
        list.no_duplicates(),
    ensures
        list.filter(keep).no_duplicates(),
        forall|m: Move| #[trigger] list.filter(keep).contains(m) <==> list.contains(m) && keep(m),
    decreases list.len(),
{
    reveal(Seq::filter);
    if list.len() > 0 {
        let rest = list.drop_last();
        let last = list.last();
        lemma_kept(rest, keep);
        let kept = rest.filter(keep);
        assert forall|m: Move| #[trigger] list.contains(m) <==> rest.contains(m) || m == last by {
            if list.contains(m) {
                let i = choose|i: int| 0 <= i < list.len() && list[i] == m;
                if i < rest.len() {
                    assert(rest[i] == m);
                }
            }
            if rest.contains(m) {
                let i = choose|i: int| 0 <= i < rest.len() && rest[i] == m;
                assert(list[i] == m);
            }
            if m == last {
                assert(list[list.len() - 1] == m);
            }
        }
        assert(!rest.contains(last)) by {
            if rest.contains(last) {
                let i = choose|i: int| 0 <= i < rest.len() && rest[i] == last;
                assert(list[i] == list[list.len() - 1]);
            }
        }
        if keep(last) {
            let all = kept.push(last);
            assert(list.filter(keep) == all);
            assert forall|m: Move| #[trigger] all.contains(m) <==> list.contains(m) && keep(m) by {
                if all.contains(m) {
                    let i = choose|i: int| 0 <= i < all.len() && all[i] == m;
                    if i < kept.len() {
                        assert(kept[i] == m);
                        assert(kept.contains(m));
                    }
                }
                if kept.contains(m) {
                    let i = choose|i: int| 0 <= i < kept.len() && kept[i] == m;
                    assert(all[i] == m);
                }
                if m == last {
                    assert(all[kept.len() as int] == m);
                }
            }
            assert forall|i: int, j: int| 0 <= i < all.len() && 0 <= j < all.len() && i
                != j implies all[i] != all[j] by {
                if i == kept.len() {
                    assert(kept.contains(all[j]));
                } else if j == kept.len() {
                    assert(kept.contains(all[i]));
                }
            }
        }
    }
}

/// The number of moves that the generator yields is the number of moves that are left when
/// all moves that obey the rules of movement are listed, each once, and those are struck
/// out that leave the mover's king in check once they are made.
pub proof fn lemma_legal_count(pos: Position, moves: Seq<Move>, candidates: Seq<Move>)
    requires
        pos.sound(),
        moves.no_duplicates(),
        forall|m: Move| moves.contains(m) <==> generated(pos, m),
        candidates.no_duplicates(),
        forall|m: Move| candidates.contains(m) <==> pseudo_legal(pos, m),
    ensures
        moves.len() == candidates.filter(|m: Move| safe_after(pos, m)).len(),
{
    let keep = |m: Move| safe_after(pos, m);
    let kept = candidates.filter(keep);
    lemma_kept(candidates, keep);
    assert forall|m: Move| moves.to_set().contains(m) == kept.to_set().contains(m) by {
        lemma_generated_is_legal(pos, m);
        assert(kept.contains(m) <==> candidates.contains(m) && keep(m));
    }
    assert(moves.to_set() =~= kept.to_set());
    moves.unique_seq_to_set();
    kept.unique_seq_to_set();
}

} // verus!
