use vstd::prelude::*;
use crate::bitboard::{group_member, member, BitBoard};
use crate::color::Color;
use crate::geometry::{
    bishop_sees, distance, file_of, in_direction, is_square, king_step, knight_jump,
    lemma_between_in_direction, lemma_lines_are_directions, lies_between, on_line, pawn_hits,
    rank_of, ray_sees, rook_sees,
};
use crate::pawn_move::mask_pawn_attacks;
use crate::square::Square;

verus! {

/// Whether `t` is the square reached from `a` by `df` files and `dr` ranks.
pub open spec fn is_offset(a: int, t: int, df: int, dr: int) -> bool {
    is_square(a) && is_square(t) && file_of(t) == file_of(a) + df && rank_of(t) == rank_of(a) + dr
}

/// Whether `t` lies in the direction (`df`, `dr`) from `a`, fewer than `k` steps away.
#[verifier::opaque]
pub open spec fn reach(a: int, t: int, df: int, dr: int, k: int) -> bool {
    in_direction(a, t, df, dr) && distance(a, t) < k
}

/// Whether `c` is the square `k` steps from `a` in the direction (`df`, `dr`).
#[verifier::opaque]
pub open spec fn is_step(a: int, c: int, df: int, dr: int, k: int) -> bool {
    &&& is_square(a)
    &&& is_square(c)
    &&& -1 <= df <= 1
    &&& -1 <= dr <= 1
    &&& (df != 0 || dr != 0)
    &&& 1 <= k
    &&& (df == 0 ==> file_of(c) == file_of(a))
    &&& (df == 1 ==> file_of(c) == file_of(a) + k)
    &&& (df == -1 ==> file_of(c) == file_of(a) - k)
    &&& (dr == 0 ==> rank_of(c) == rank_of(a))
    &&& (dr == 1 ==> rank_of(c) == rank_of(a) + k)
    &&& (dr == -1 ==> rank_of(c) == rank_of(a) - k)
}

proof fn lemma_reach_step(a: int, c: int, df: int, dr: int, k: int)
    requires
        is_step(a, c, df, dr, k),
    ensures
        in_direction(a, c, df, dr),
        distance(a, c) == k,
        forall|t: int| #[trigger] reach(a, t, df, dr, k + 1) == (reach(a, t, df, dr, k) || t == c),
{
    reveal(reach);
    reveal(is_step);
}

proof fn lemma_is_step(a: int, f: int, rk: int, df: int, dr: int, k: int)
    requires
        0 <= a < 64,
        -1 <= df <= 1,
        -1 <= dr <= 1,
        df != 0 || dr != 0,
        1 <= k,
        0 <= f < 8,
        0 <= rk < 8,
        df == 0 ==> f == a % 8,
        df == 1 ==> f == a % 8 + k,
        df == -1 ==> f == a % 8 - k,
        dr == 0 ==> rk == a / 8,
        dr == 1 ==> rk == a / 8 + k,
        dr == -1 ==> rk == a / 8 - k,
    ensures
        is_step(a, rk * 8 + f, df, dr, k),
        k < 8,
{
    reveal(is_step);
}

proof fn lemma_reach_start(a: int, df: int, dr: int)
    ensures
        forall|t: int| !#[trigger] reach(a, t, df, dr, 1),
{
    reveal(reach);
}

proof fn lemma_ray_open(occ: u64, a: int, df: int, dr: int, k: int, f: int, rk: int)
    requires
        is_square(a),
        -1 <= df <= 1,
        -1 <= dr <= 1,
        df != 0 || dr != 0,
        1 <= k,
        df == 0 ==> f == file_of(a),
        df == 1 ==> f == file_of(a) + k,
        df == -1 ==> f == file_of(a) - k,
        dr == 0 ==> rk == rank_of(a),
        dr == 1 ==> rk == rank_of(a) + k,
        dr == -1 ==> rk == rank_of(a) - k,
        !(0 <= f < 8 && 0 <= rk < 8),
        forall|u: int| #[trigger] reach(a, u, df, dr, k) ==> !member(occ, u),
    ensures
        forall|t: int| #[trigger] reach(a, t, df, dr, k) == ray_sees(occ, a, t, df, dr),
{
    reveal(reach);
    reveal(ray_sees);
    assert forall|t: int| #[trigger] reach(a, t, df, dr, k) == ray_sees(occ, a, t, df, dr) by {
        if in_direction(a, t, df, dr) {
            assert(distance(a, t) < k);
            assert forall|u: int| lies_between(a, t, u) implies !member(occ, u) by {
                lemma_between_in_direction(a, t, u, df, dr);
                assert(reach(a, u, df, dr, k));
            }
        }
    }
}

proof fn lemma_ray_closed(occ: u64, a: int, c: int, df: int, dr: int, k: int)
    requires
        is_step(a, c, df, dr, k),
        member(occ, c),
        forall|u: int| #[trigger] reach(a, u, df, dr, k) ==> !member(occ, u),
    ensures
        forall|t: int| #[trigger] reach(a, t, df, dr, k + 1) == ray_sees(occ, a, t, df, dr),
{
    reveal(reach);
    reveal(ray_sees);
    reveal(is_step);
    assert forall|t: int| #[trigger] reach(a, t, df, dr, k + 1) == ray_sees(occ, a, t, df, dr) by {
        if in_direction(a, t, df, dr) {
            if distance(a, t) <= k {
                assert forall|u: int| lies_between(a, t, u) implies !member(occ, u) by {
                    lemma_between_in_direction(a, t, u, df, dr);
                    assert(reach(a, u, df, dr, k));
                }
            } else {
                lemma_between_in_direction(a, t, c, df, dr);
            }
        }
    }
}

/// The squares that a slider on `sq` attacks in one direction.
#[verifier::rlimit(60)]
fn ray_attacks(sq: Square, df: i8, dr: i8, occ: BitBoard) -> (r: BitBoard)
    requires
        -1 <= df <= 1,
        -1 <= dr <= 1,
        df != 0 || dr != 0,
    ensures
        forall|t: int| member(r.0, t) == ray_sees(occ.0, sq.index(), t, df as int, dr as int),
{
    let a: u8 = sq.to_index();
    let file: i8 = (a % 8) as i8;
    let rank: i8 = (a / 8) as i8;
    let mut f: i8 = file + df;
    let mut rk: i8 = rank + dr;
    let mut acc: u64 = 0;
    let mut k: i8 = 1;
    proof {
        lemma_reach_start(a as int, df as int, dr as int);
        assert forall|t: int| !member(acc, t) by {
            crate::bitboard::lemma_member_zero(t);
        }
    }
    loop
        invariant_except_break
            1 <= k <= 8,
            a < 64,
            file == a % 8,
            rank == a / 8,
            -1 <= df <= 1,
            -1 <= dr <= 1,
            df != 0 || dr != 0,
            df == 0 ==> f == file,
            df == 1 ==> f == file + k,
            df == -1 ==> f == file - k,
            dr == 0 ==> rk == rank,
            dr == 1 ==> rk == rank + k,
            dr == -1 ==> rk == rank - k,
            forall|u: int| #[trigger]
                reach(a as int, u, df as int, dr as int, k as int) ==> !member(occ.0, u),
            forall|t: int|
                member(acc, t) == #[trigger] reach(a as int, t, df as int, dr as int, k as int),
        ensures
            forall|t: int| member(acc, t) == ray_sees(occ.0, a as int, t, df as int, dr as int),
        decreases 8 - k,
    {
        if !(0 <= f && f < 8 && 0 <= rk && rk < 8) {
            proof {
                lemma_ray_open(
                    occ.0,
                    a as int,
                    df as int,
                    dr as int,
                    k as int,
                    f as int,
                    rk as int,
                );
                assert forall|t: int|
                    member(acc, t) == ray_sees(occ.0, a as int, t, df as int, dr as int) by {
                    assert(member(acc, t) == reach(a as int, t, df as int, dr as int, k as int));
                }
            }
            break ;
        }
        let c: u8 = (rk * 8 + f) as u8;
        let ghost before = acc;
        acc = acc | (1u64 << (c as u64));
        proof {
            lemma_is_step(a as int, f as int, rk as int, df as int, dr as int, k as int);
            lemma_reach_step(a as int, c as int, df as int, dr as int, k as int);
            assert forall|t: int|
                member(acc, t) == #[trigger] reach(
                    a as int,
                    t,
                    df as int,
                    dr as int,
                    k as int + 1,
                ) by {
                crate::bitboard::lemma_member_or(before, 1u64 << (c as u64), t);
                crate::bitboard::lemma_member_bit(c as u64, t);
                assert(member(before, t) == reach(a as int, t, df as int, dr as int, k as int));
            }
        }
        if occ.0 & (1u64 << (c as u64)) != 0 {
            proof {
                assert(member(occ.0, c as int));
                lemma_ray_closed(occ.0, a as int, c as int, df as int, dr as int, k as int);
                assert forall|t: int|
                    member(acc, t) == ray_sees(occ.0, a as int, t, df as int, dr as int) by {
                    assert(member(acc, t) == reach(
                        a as int,
                        t,
                        df as int,
                        dr as int,
                        k as int + 1,
                    ));
                }
            }
            break ;
        }
        proof {
            assert(!member(occ.0, c as int));
        }
        f = f + df;
        rk = rk + dr;
        k = k + 1;
    }
    BitBoard(acc)
}

/// The squares a rook on `sq` attacks when `occupancy` holds the occupied squares.
pub fn get_rook_attacks(sq: Square, occupancy: BitBoard) -> (r: BitBoard)
    ensures
        forall|t: int| member(r.0, t) == rook_sees(occupancy.0, sq.index(), t),
{
    let east = ray_attacks(sq, 1, 0, occupancy);
    let west = ray_attacks(sq, -1, 0, occupancy);
    let north = ray_attacks(sq, 0, 1, occupancy);
    let south = ray_attacks(sq, 0, -1, occupancy);
    let r = BitBoard(east.0 | west.0 | north.0 | south.0);
    proof {
        broadcast use group_member;

        reveal(ray_sees);
        assert forall|t: int| member(r.0, t) == rook_sees(occupancy.0, sq.index(), t) by {
            lemma_lines_are_directions(sq.index(), t);
        }
    }
    r
}

/// The squares a bishop on `sq` attacks when `occupancy` holds the occupied squares.
pub fn get_bishop_attacks(sq: Square, occupancy: BitBoard) -> (r: BitBoard)
    ensures
        forall|t: int| member(r.0, t) == bishop_sees(occupancy.0, sq.index(), t),
{
    let ne = ray_attacks(sq, 1, 1, occupancy);
    let nw = ray_attacks(sq, -1, 1, occupancy);
    let se = ray_attacks(sq, 1, -1, occupancy);
    let sw = ray_attacks(sq, -1, -1, occupancy);
    let r = BitBoard(ne.0 | nw.0 | se.0 | sw.0);
    proof {
        broadcast use group_member;

        reveal(ray_sees);
        assert forall|t: int| member(r.0, t) == bishop_sees(occupancy.0, sq.index(), t) by {
            lemma_lines_are_directions(sq.index(), t);
        }
    }
    r
}

/// `acc` with the square `df` files and `dr` ranks from `a`, where that square is on the board.
fn with_offset(acc: u64, a: u8, df: i8, dr: i8) -> (r: u64)
    requires
        a < 64,
        -2 <= df <= 2,
        -2 <= dr <= 2,
    ensures
        forall|t: int| member(r, t) == (member(acc, t) || is_offset(a as int, t, df as int, dr as int)),
{
    let f: i8 = (a % 8) as i8 + df;
    let rk: i8 = (a / 8) as i8 + dr;
    proof {
        broadcast use group_member;

    }
    if 0 <= f && f < 8 && 0 <= rk && rk < 8 {
        let c: u8 = (rk * 8 + f) as u8;
        let r = acc | (1u64 << (c as u64));
        proof {
            assert forall|t: int|
                member(r, t) == (member(acc, t) || is_offset(a as int, t, df as int, dr as int)) by {
                assert(member(r, t) == (member(acc, t) || t == c));
            }
        }
        r
    } else {
        acc
    }
}

/// The squares a knight on `sq` attacks.
pub fn get_knight_attacks(sq: Square) -> (r: BitBoard)
    ensures
        forall|t: int| member(r.0, t) == knight_jump(sq.index(), t),
{
    let a: u8 = sq.to_index();
    let mut acc: u64 = 0;
    proof {
        broadcast use group_member;

    }
    acc = with_offset(acc, a, 1, 2);
    acc = with_offset(acc, a, 2, 1);
    acc = with_offset(acc, a, 2, -1);
    acc = with_offset(acc, a, 1, -2);
    acc = with_offset(acc, a, -1, -2);
    acc = with_offset(acc, a, -2, -1);
    acc = with_offset(acc, a, -2, 1);
    acc = with_offset(acc, a, -1, 2);
    BitBoard(acc)
}

/// The squares a king on `sq` attacks.
pub fn get_king_attacks(sq: Square) -> (r: BitBoard)
    ensures
        forall|t: int| member(r.0, t) == king_step(sq.index(), t),
{
    let a: u8 = sq.to_index();
    let mut acc: u64 = 0;
    proof {
        broadcast use group_member;

    }
    acc = with_offset(acc, a, 0, 1);
    acc = with_offset(acc, a, 1, 1);
    acc = with_offset(acc, a, 1, 0);
    acc = with_offset(acc, a, 1, -1);
    acc = with_offset(acc, a, 0, -1);
    acc = with_offset(acc, a, -1, -1);
    acc = with_offset(acc, a, -1, 0);
    acc = with_offset(acc, a, -1, 1);
    BitBoard(acc)
}

/// The squares a pawn of `color` on `sq` attacks.
pub fn get_pawn_attacks(sq: Square, color: Color) -> (r: BitBoard)
    ensures
        forall|t: int| member(r.0, t) == pawn_hits(color, sq.index(), t),
{
    mask_pawn_attacks(sq, color)
}

fn signum(x: i8) -> (r: i8)
    ensures
        x > 0 ==> r == 1,
        x == 0 ==> r == 0,
        x < 0 ==> r == -1,
{
    if x > 0 {
        1
    } else if x < 0 {
        -1
    } else {
        0
    }
}

/// Whether `t` lies between `a` and `b`, fewer than `k` steps from `a`.
#[verifier::opaque]
pub open spec fn near_between(a: int, b: int, t: int, k: int) -> bool {
    lies_between(a, b, t) && distance(a, t) < k
}

proof fn lemma_near_between_step(a: int, b: int, c: int, df: int, dr: int, k: int)
    requires
        is_step(a, c, df, dr, k),
        in_direction(a, b, df, dr),
        k < distance(a, b),
    ensures
        forall|t: int| #[trigger]
            near_between(a, b, t, k + 1) == (near_between(a, b, t, k) || t == c),
{
    reveal(near_between);
    reveal(is_step);
    assert forall|t: int| #[trigger]
        near_between(a, b, t, k + 1) == (near_between(a, b, t, k) || t == c) by {
        lemma_between_in_direction(a, b, t, df, dr);
        lemma_between_in_direction(a, b, c, df, dr);
    }
}

proof fn lemma_near_between_ends(a: int, b: int, df: int, dr: int)
    requires
        in_direction(a, b, df, dr),
        -1 <= df <= 1,
        -1 <= dr <= 1,
    ensures
        forall|t: int| !#[trigger] near_between(a, b, t, 1),
        forall|t: int| #[trigger] near_between(a, b, t, distance(a, b)) == lies_between(a, b, t),
{
    reveal(near_between);
    assert forall|t: int| #[trigger] near_between(a, b, t, distance(a, b)) == lies_between(
        a,
        b,
        t,
    ) by {
        lemma_between_in_direction(a, b, t, df, dr);
    }
    assert forall|t: int| !#[trigger] near_between(a, b, t, 1) by {
        lemma_between_in_direction(a, b, t, df, dr);
    }
}

/// The squares strictly between `a` and `b` on the rank, file or diagonal they share; empty
/// when they share none.
#[verifier::rlimit(60)]
pub fn between(a: Square, b: Square) -> (r: BitBoard)
    ensures
        forall|t: int| member(r.0, t) == lies_between(a.index(), b.index(), t),
{
    let ai: u8 = a.to_index();
    let bi: u8 = b.to_index();
    let x: i8 = (bi % 8) as i8 - (ai % 8) as i8;
    let y: i8 = (bi / 8) as i8 - (ai / 8) as i8;
    if !(x == 0 || y == 0 || x == y || x == -y) || (x == 0 && y == 0) {
        proof {
            assert forall|t: int| member(0u64, t) == lies_between(ai as int, bi as int, t) by {
                crate::bitboard::lemma_member_zero(t);
            }
        }
        return BitBoard(0);
    }
    let df: i8 = signum(x);
    let dr: i8 = signum(y);
    let n: i8 = if x != 0 {
        if x > 0 {
            x
        } else {
            -x
        }
    } else if y > 0 {
        y
    } else {
        -y
    };
    assert(in_direction(ai as int, bi as int, df as int, dr as int));
    assert(n == distance(ai as int, bi as int));
    let mut acc: u64 = 0;
    let mut k: i8 = 1;
    let mut f: i8 = (ai % 8) as i8 + df;
    let mut rk: i8 = (ai / 8) as i8 + dr;
    proof {
        lemma_near_between_ends(ai as int, bi as int, df as int, dr as int);
        assert forall|t: int| member(acc, t) == near_between(ai as int, bi as int, t, 1) by {
            crate::bitboard::lemma_member_zero(t);
        }
    }
    while k < n
        invariant
            1 <= k <= n <= 7,
            ai < 64,
            bi < 64,
            -1 <= df <= 1,
            -1 <= dr <= 1,
            df != 0 || dr != 0,
            in_direction(ai as int, bi as int, df as int, dr as int),
            n == distance(ai as int, bi as int),
            df == 0 ==> f == ai % 8,
            df == 1 ==> f == ai % 8 + k,
            df == -1 ==> f == ai % 8 - k,
            dr == 0 ==> rk == ai / 8,
            dr == 1 ==> rk == ai / 8 + k,
            dr == -1 ==> rk == ai / 8 - k,
            forall|t: int|
                member(acc, t) == #[trigger] near_between(ai as int, bi as int, t, k as int),
        decreases n - k,
    {
        assert(0 <= f < 8 && 0 <= rk < 8) by {
            assert(in_direction(ai as int, bi as int, df as int, dr as int));
        }
        let c: u8 = (rk * 8 + f) as u8;
        let ghost before = acc;
        acc = acc | (1u64 << (c as u64));
        proof {
            lemma_is_step(ai as int, f as int, rk as int, df as int, dr as int, k as int);
            lemma_near_between_step(ai as int, bi as int, c as int, df as int, dr as int, k as int);
            assert forall|t: int|
                member(acc, t) == #[trigger] near_between(ai as int, bi as int, t, k as int + 1) by {
                crate::bitboard::lemma_member_or(before, 1u64 << (c as u64), t);
                crate::bitboard::lemma_member_bit(c as u64, t);
                assert(member(before, t) == near_between(ai as int, bi as int, t, k as int));
            }
        }
        f = f + df;
        rk = rk + dr;
        k = k + 1;
    }
    proof {
        lemma_near_between_ends(ai as int, bi as int, df as int, dr as int);
        assert forall|t: int| member(acc, t) == lies_between(ai as int, bi as int, t) by {
            assert(member(acc, t) == near_between(ai as int, bi as int, t, k as int));
        }
    }
    BitBoard(acc)
}

/// The squares of the rank, file or diagonal that runs through `a` and `b`; empty when the
/// two share none.
pub fn line_through(a: Square, b: Square) -> (r: BitBoard)
    ensures
        forall|t: int| member(r.0, t) == on_line(a.index(), b.index(), t),
{
    let ai: u8 = a.to_index();
    let bi: u8 = b.to_index();
    let fa: i8 = (ai % 8) as i8;
    let ra: i8 = (ai / 8) as i8;
    let fb: i8 = (bi % 8) as i8;
    let rb: i8 = (bi / 8) as i8;
    let mut acc: u64 = 0;
    let mut t: u8 = 0;
    proof {
        assert forall|i: int| member(acc, i) == (0 <= i < 0 && on_line(ai as int, bi as int, i)) by {
            crate::bitboard::lemma_member_zero(i);
        }
    }
    while t < 64
        invariant
            0 <= t <= 64,
            ai < 64,
            bi < 64,
            fa == ai % 8,
            ra == ai / 8,
            fb == bi % 8,
            rb == bi / 8,
            forall|i: int| member(acc, i) == (0 <= i < t && on_line(ai as int, bi as int, i)),
        decreases 64 - t,
    {
        let ft: i8 = (t % 8) as i8;
        let rt: i8 = (t / 8) as i8;
        let ghost before = acc;
        if ai != bi && ((ra == rb && rt == ra) || (fa == fb && ft == fa) || (fa - ra == fb - rb
            && ft - rt == fa - ra) || (fa + ra == fb + rb && ft + rt == fa + ra)) {
            acc = acc | (1u64 << (t as u64));
        }
        proof {
            assert forall|i: int|
                member(acc, i) == (0 <= i < t + 1 && on_line(ai as int, bi as int, i)) by {
                crate::bitboard::lemma_member_or(before, 1u64 << (t as u64), i);
                crate::bitboard::lemma_member_bit(t as u64, i);
                assert(member(before, i) == (0 <= i < t && on_line(ai as int, bi as int, i)));
            }
        }
        t = t + 1;
    }
    BitBoard(acc)
}

} // verus!
