use vstd::prelude::*;
use crate::bitboard::member;
use crate::color::Color;

verus! {

/// File of square number `i`.
pub open spec fn file_of(i: int) -> int {
    i % 8
}

/// Rank of square number `i`.
pub open spec fn rank_of(i: int) -> int {
    i / 8
}

pub open spec fn is_square(i: int) -> bool {
    0 <= i < 64
}

/// Distance between two numbers.
pub open spec fn gap(a: int, b: int) -> int {
    if a <= b {
        b - a
    } else {
        a - b
    }
}

/// Whether `x` lies strictly between `a` and `b`, whichever of the two is the smaller.
pub open spec fn strictly_inside(a: int, b: int, x: int) -> bool {
    (a < x && x < b) || (b < x && x < a)
}

/// Two different squares on one rank or one file.
pub open spec fn rook_line(a: int, b: int) -> bool {
    is_square(a) && is_square(b) && a != b && (file_of(a) == file_of(b) || rank_of(a) == rank_of(
        b,
    ))
}

/// Two different squares on one diagonal.
pub open spec fn bishop_line(a: int, b: int) -> bool {
    is_square(a) && is_square(b) && a != b && gap(file_of(a), file_of(b)) == gap(
        rank_of(a),
        rank_of(b),
    )
}

/// Whether square `t` lies strictly between `a` and `b` on the rank, file or diagonal that
/// they share. No square lies between squares that share none.
pub open spec fn lies_between(a: int, b: int, t: int) -> bool {
    let fa = file_of(a);
    let ra = rank_of(a);
    let fb = file_of(b);
    let rb = rank_of(b);
    let ft = file_of(t);
    let rt = rank_of(t);
    is_square(a) && is_square(b) && is_square(t) && if ra == rb {
        rt == ra && strictly_inside(fa, fb, ft)
    } else if fa == fb {
        ft == fa && strictly_inside(ra, rb, rt)
    } else if fb - fa == rb - ra {
        ft - fa == rt - ra && strictly_inside(fa, fb, ft)
    } else if fb - fa == ra - rb {
        ft - fa == ra - rt && strictly_inside(fa, fb, ft)
    } else {
        false
    }
}

/// No member of `occ` lies strictly between `a` and `b`.
pub open spec fn clear_between(occ: u64, a: int, b: int) -> bool {
    forall|t: int| lies_between(a, b, t) ==> !member(occ, t)
}

/// A rook on `a` attacks `b` when the squares between them are free of `occ`.
pub open spec fn rook_sees(occ: u64, a: int, b: int) -> bool {
    rook_line(a, b) && clear_between(occ, a, b)
}

/// A bishop on `a` attacks `b` when the squares between them are free of `occ`.
pub open spec fn bishop_sees(occ: u64, a: int, b: int) -> bool {
    bishop_line(a, b) && clear_between(occ, a, b)
}

/// A knight on `a` attacks `b`.
pub open spec fn knight_jump(a: int, b: int) -> bool {
    let df = gap(file_of(a), file_of(b));
    let dr = gap(rank_of(a), rank_of(b));
    is_square(a) && is_square(b) && ((df == 1 && dr == 2) || (df == 2 && dr == 1))
}

/// A king on `a` attacks `b`.
pub open spec fn king_step(a: int, b: int) -> bool {
    is_square(a) && is_square(b) && a != b && gap(file_of(a), file_of(b)) <= 1 && gap(
        rank_of(a),
        rank_of(b),
    ) <= 1
}

/// A pawn of `color` on `a` attacks `b`: one rank ahead, one file to either side.
pub open spec fn pawn_hits(color: Color, a: int, b: int) -> bool {
    is_square(a) && is_square(b) && rank_of(b) == rank_of(a) + color.pawn_step() && gap(
        file_of(a),
        file_of(b),
    ) == 1
}

/// Whether `t` lies in the direction (`df`, `dr`) from `a`, at any distance: `df` and `dr`
/// are each -1, 0 or 1 and give the sign of the change of file and of rank.
pub open spec fn in_direction(a: int, t: int, df: int, dr: int) -> bool {
    let x = file_of(t) - file_of(a);
    let y = rank_of(t) - rank_of(a);
    &&& is_square(a)
    &&& is_square(t)
    &&& a != t
    &&& (df == 0 ==> x == 0)
    &&& (df > 0 ==> x > 0)
    &&& (df < 0 ==> x < 0)
    &&& (dr == 0 ==> y == 0)
    &&& (dr > 0 ==> y > 0)
    &&& (dr < 0 ==> y < 0)
    &&& (df != 0 && dr != 0 ==> gap(file_of(a), file_of(t)) == gap(rank_of(a), rank_of(t)))
}

/// Number of king steps between two squares.
pub open spec fn distance(a: int, b: int) -> int {
    let x = gap(file_of(a), file_of(b));
    let y = gap(rank_of(a), rank_of(b));
    if x >= y {
        x
    } else {
        y
    }
}

/// What a slider on `a` attacks in one direction: the squares in that direction up to and
/// including the first member of `occ`.
#[verifier::opaque]
pub open spec fn ray_sees(occ: u64, a: int, t: int, df: int, dr: int) -> bool {
    in_direction(a, t, df, dr) && clear_between(occ, a, t)
}

/// A rook line runs in one of the four straight directions, a bishop line in one of the four
/// diagonal ones.
pub proof fn lemma_lines_are_directions(a: int, b: int)
    ensures
        rook_line(a, b) == (in_direction(a, b, 1, 0) || in_direction(a, b, -1, 0) || in_direction(
            a,
            b,
            0,
            1,
        ) || in_direction(a, b, 0, -1)),
        bishop_line(a, b) == (in_direction(a, b, 1, 1) || in_direction(a, b, -1, 1) || in_direction(
            a,
            b,
            1,
            -1,
        ) || in_direction(a, b, -1, -1)),
{
}

/// In one direction from `a`, the squares between `a` and `t` are those nearer than `t`.
pub proof fn lemma_between_in_direction(a: int, t: int, u: int, df: int, dr: int)
    requires
        in_direction(a, t, df, dr),
        -1 <= df <= 1,
        -1 <= dr <= 1,
    ensures
        lies_between(a, t, u) == (in_direction(a, u, df, dr) && distance(a, u) < distance(a, t)),
{
}

/// Whether `t` lies on the rank, file or diagonal that runs through the two different
/// squares `a` and `b`.
pub open spec fn on_line(a: int, b: int, t: int) -> bool {
    let fa = file_of(a);
    let ra = rank_of(a);
    let fb = file_of(b);
    let rb = rank_of(b);
    let ft = file_of(t);
    let rt = rank_of(t);
    &&& is_square(a)
    &&& is_square(b)
    &&& is_square(t)
    &&& a != b
    &&& ((ra == rb && rt == ra) || (fa == fb && ft == fa) || (fa - ra == fb - rb && ft - rt == fa
        - ra) || (fa + ra == fb + rb && ft + rt == fa + ra))
}

} // verus!
