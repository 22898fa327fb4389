use vstd::prelude::*;
use crate::square::Square;

verus! {

/// The word with only bit `i` set, for `i` from 0 to 63.
pub open spec fn bit(i: int) -> u64 {
    1u64 << (i as u64)
}

/// Whether square number `i` is in the set that the word `bb` stands for.
pub open spec fn member(bb: u64, i: int) -> bool {
    0 <= i < 64 && bb & bit(i) != 0
}

/// The word whose set bits below `n` are the numbers that `f` accepts.
pub open spec fn bits_where(f: spec_fn(int) -> bool, n: int) -> u64
    decreases n,
{
    if n <= 0 {
        0
    } else if f(n - 1) {
        bits_where(f, n - 1) | bit(n - 1)
    } else {
        bits_where(f, n - 1)
    }
}

/// The set of the squares that `f` accepts, as a word.
pub open spec fn bits_of(f: spec_fn(int) -> bool) -> u64 {
    bits_where(f, 64)
}

/// Whether `k` is the one member of `bb`.
pub open spec fn only_member(bb: u64, k: int) -> bool {
    0 <= k < 64 && forall|i: int| member(bb, i) == (i == k)
}

/// Number of squares below `n` that are in `bb`.
pub open spec fn count_below(bb: u64, n: int) -> nat
    decreases n,
{
    if n <= 0 {
        0
    } else if member(bb, n - 1) {
        count_below(bb, n - 1) + 1
    } else {
        count_below(bb, n - 1)
    }
}

/// Number of squares in `bb`.
pub open spec fn count(bb: u64) -> nat {
    count_below(bb, 64)
}

pub broadcast proof fn lemma_member_or(a: u64, b: u64, i: int)
    ensures
        #[trigger] member(a | b, i) == (member(a, i) || member(b, i)),
{
    if 0 <= i < 64 {
        let k = i as u64;
        assert(((a | b) & (1u64 << k) != 0) == (a & (1u64 << k) != 0 || b & (1u64 << k) != 0))
            by (bit_vector);
    }
}

pub broadcast proof fn lemma_member_and(a: u64, b: u64, i: int)
    ensures
        #[trigger] member(a & b, i) == (member(a, i) && member(b, i)),
{
    if 0 <= i < 64 {
        let k = i as u64;
        assert(((a & b) & (1u64 << k) != 0) == (a & (1u64 << k) != 0 && b & (1u64 << k) != 0))
            by (bit_vector)
            requires
                k < 64,
        ;
    }
}

pub broadcast proof fn lemma_member_xor(a: u64, b: u64, i: int)
    ensures
        #[trigger] member(a ^ b, i) == (0 <= i < 64 && member(a, i) != member(b, i)),
{
    if 0 <= i < 64 {
        let k = i as u64;
        assert(((a ^ b) & (1u64 << k) != 0) == ((a & (1u64 << k) != 0) != (b & (1u64 << k) != 0)))
            by (bit_vector)
            requires
                k < 64,
        ;
    }
}

pub broadcast proof fn lemma_member_not(a: u64, i: int)
    ensures
        #[trigger] member(!a, i) == (0 <= i < 64 && !member(a, i)),
{
    if 0 <= i < 64 {
        let k = i as u64;
        assert(((!a) & (1u64 << k) != 0) == !(a & (1u64 << k) != 0)) by (bit_vector)
            requires
                k < 64,
        ;
    }
}

pub broadcast proof fn lemma_member_bit(s: u64, i: int)
    requires
        s < 64,
    ensures
        #[trigger] member(1u64 << s, i) == (i == s),
{
    if 0 <= i < 64 {
        let k = i as u64;
        assert(((1u64 << s) & (1u64 << k) != 0) == (s == k)) by (bit_vector)
            requires
                k < 64,
                s < 64,
        ;
    }
}

pub broadcast proof fn lemma_member_zero(i: int)
    ensures
        !#[trigger] member(0u64, i),
{
    if 0 <= i < 64 {
        let k = i as u64;
        assert(0u64 & (1u64 << k) == 0) by (bit_vector);
    }
}

pub broadcast proof fn lemma_member_shl(a: u64, n: u64, i: int)
    requires
        n < 64,
    ensures
        #[trigger] member(a << n, i) == (n <= i < 64 && member(a, i - n)),
{
    if 0 <= i < 64 {
        let k = i as u64;
        if k >= n {
            let d = (k - n) as u64;
            assert(((a << n) & (1u64 << k) != 0) == (a & (1u64 << d) != 0)) by (bit_vector)
                requires
                    k < 64,
                    n <= k,
                    d == k - n,
            ;
        } else {
            assert((a << n) & (1u64 << k) == 0) by (bit_vector)
                requires
                    k < n,
                    n < 64,
            ;
        }
    }
}

pub broadcast proof fn lemma_member_shr(a: u64, n: u64, i: int)
    requires
        n < 64,
    ensures
        #[trigger] member(a >> n, i) == (0 <= i && i + n < 64 && member(a, i + n)),
{
    if 0 <= i < 64 {
        let k = i as u64;
        if k + n < 64 {
            let d = (k + n) as u64;
            assert(((a >> n) & (1u64 << k) != 0) == (a & (1u64 << d) != 0)) by (bit_vector)
                requires
                    d < 64,
                    d == k + n,
            ;
        } else {
            assert((a >> n) & (1u64 << k) == 0) by (bit_vector)
                requires
                    k + n >= 64,
                    k < 64,
                    n < 64,
            ;
        }
    }
}

/// The rules by which membership follows the bitwise operators.
pub broadcast group group_member {
    lemma_member_or,
    lemma_member_and,
    lemma_member_xor,
    lemma_member_not,
    lemma_member_bit,
    lemma_member_zero,
    lemma_member_shl,
    lemma_member_shr,
}

/// A non-empty word has a lowest member, which `trailing_zeros` finds.
pub proof fn lemma_lowest(x: u64)
    requires
        x != 0,
    ensures
        member(x, x.trailing_zeros() as int),
        forall|j: int| 0 <= j < x.trailing_zeros() ==> !member(x, j),
{
    vstd::std_specs::bits::axiom_u64_trailing_zeros(x);
    let k = x.trailing_zeros() as u64;
    assert(((x >> k) & 1u64 == 1u64) ==> x & (1u64 << k) != 0) by (bit_vector)
        requires
            k < 64,
    ;
    assert forall|j: int| 0 <= j < k implies !member(x, j) by {
        let w = j as u64;
        assert((x >> w) & 1u64 == 0u64);
        assert(((x >> w) & 1u64 == 0u64) ==> x & (1u64 << w) == 0) by (bit_vector)
            requires
                w < 64,
        ;
    }
}

/// Two words with the same members are the same word.
pub proof fn lemma_bits_equal(a: u64, b: u64)
    requires
        forall|i: int| 0 <= i < 64 ==> member(a, i) == member(b, i),
    ensures
        a == b,
{
    let x = a ^ b;
    if x != 0 {
        lemma_lowest(x);
        lemma_member_xor(a, b, x.trailing_zeros() as int);
    }
    assert(a ^ b == 0 ==> a == b) by (bit_vector);
}

pub proof fn lemma_member_bits_where(f: spec_fn(int) -> bool, n: int, i: int)
    requires
        0 <= n <= 64,
    ensures
        member(bits_where(f, n), i) == (0 <= i < n && f(i)),
    decreases n,
{
    broadcast use group_member;

    if n > 0 {
        lemma_member_bits_where(f, n - 1, i);
    }
}

/// The members of `bits_of(f)` are the squares that `f` accepts.
pub broadcast proof fn lemma_member_bits_of(f: spec_fn(int) -> bool, i: int)
    ensures
        #[trigger] member(bits_of(f), i) == (0 <= i < 64 && f(i)),
{
    lemma_member_bits_where(f, 64, i);
}

/// A word whose members are the squares that `f` accepts is `bits_of(f)`.
pub proof fn lemma_is_bits_of(x: u64, f: spec_fn(int) -> bool)
    requires
        forall|i: int| 0 <= i < 64 ==> member(x, i) == f(i),
    ensures
        x == bits_of(f),
{
    assert forall|i: int| 0 <= i < 64 implies member(x, i) == member(bits_of(f), i) by {
        lemma_member_bits_of(f, i);
    }
    lemma_bits_equal(x, bits_of(f));
}

/// Taking a member out of a word makes the word smaller.
pub proof fn lemma_remove_decreases(x: u64, k: int)
    requires
        member(x, k),
    ensures
        x ^ bit(k) < x,
{
    let w = k as u64;
    assert(x & (1u64 << w) != 0 ==> x ^ (1u64 << w) < x) by (bit_vector)
        requires
            w < 64,
    ;
}

/// A set of squares of the board, one bit per square.
#[derive(Debug, Copy, Clone, PartialEq, Eq, Structural)]
pub struct BitBoard(pub u64);

/// Every square but those of the a-file.
pub const NOT_A_FILE: u64 = 0xfefe_fefe_fefe_fefe;

/// Every square but those of the h-file.
pub const NOT_H_FILE: u64 = 0x7f7f_7f7f_7f7f_7f7f;

/// The squares of the a-file.
pub const FILE_A: u64 = 0x0101_0101_0101_0101;

/// The squares of the first rank.
pub const RANK_1: u64 = 0xff;

/// The squares of the first and of the eighth rank.
pub const EDGE_RANKS: u64 = 0xff00_0000_0000_00ff;

pub proof fn lemma_file_masks(i: int)
    requires
        0 <= i < 64,
    ensures
        member(NOT_A_FILE, i) == (i % 8 != 0),
        member(NOT_H_FILE, i) == (i % 8 != 7),
        member(EDGE_RANKS, i) == (i < 8 || i >= 56),
{
    let k = i as u64;
    assert(((0xfefe_fefe_fefe_fefeu64 & (1u64 << k) != 0) == (k % 8 != 0)) && ((
    0x7f7f_7f7f_7f7f_7f7fu64 & (1u64 << k) != 0) == (k % 8 != 7)) && ((0xff00_0000_0000_00ffu64 & (
    1u64 << k) != 0) == (k < 8 || k >= 56))) by (bit_vector)
        requires
            k < 64,
    ;
}

pub proof fn lemma_file_rank_masks(n: int, i: int)
    requires
        0 <= n < 8,
        0 <= i < 64,
    ensures
        member(FILE_A << (n as u64), i) == (i % 8 == n),
        member(RANK_1 << ((8 * n) as u64), i) == (i / 8 == n),
{
    let k = i as u64;
    let f = n as u64;
    let s = (8 * n) as u64;
    assert(((0x0101_0101_0101_0101u64 << f) & (1u64 << k) != 0) == (k % 8 == f)) by (bit_vector)
        requires
            k < 64,
            f < 8,
    ;
    assert(((0xffu64 << s) & (1u64 << k) != 0) == (k / 8 == f)) by (bit_vector)
        requires
            k < 64,
            f < 8,
            s == 8 * f,
    ;
}

impl BitBoard {
    /// Whether the square is in the set.
    pub open spec fn contains(self, sq: Square) -> bool {
        member(self.0, sq.index())
    }

    pub fn empty() -> (r: BitBoard)
        ensures
            r.0 == 0,
    {
        BitBoard(0)
    }

    /// The set that holds the one square.
    pub fn from_square(sq: Square) -> (r: BitBoard)
        ensures
            r.0 == bit(sq.index()),
            forall|i: int| member(r.0, i) == (i == sq.index()),
    {
        let k: u8 = sq.to_index();
        let r = BitBoard(1u64 << (k as u64));
        proof {
            assert forall|i: int| member(r.0, i) == (i == sq.index()) by {
                lemma_member_bit(k as u64, i);
            }
        }
        r
    }

    pub fn is_empty(self) -> (r: bool)
        ensures
            r == (self.0 == 0),
            r == (forall|i: int| !member(self.0, i)),
    {
        proof {
            if self.0 != 0 {
                lemma_lowest(self.0);
            } else {
                assert forall|i: int| !member(self.0, i) by {
                    lemma_member_zero(i);
                }
            }
        }
        self.0 == 0
    }

    /// Whether the set holds exactly one square.
    pub fn is_single(self) -> (r: bool)
        ensures
            r == (exists|k: int| only_member(self.0, k)),
    {
        if self.0 == 0 {
            proof {
                assert forall|k: int| !only_member(self.0, k) by {
                    lemma_member_zero(k);
                }
            }
            return false;
        }
        proof {
            lemma_singleton(self.0);
            lemma_lowest(self.0);
        }
        let k: u32 = self.0.trailing_zeros();
        let r = self.0 ^ (1u64 << (k as u64)) == 0;
        proof {
            if r {
                assert(only_member(self.0, k as int));
            } else {
                let j = (self.0 ^ bit(k as int)).trailing_zeros() as int;
                assert forall|w: int| !only_member(self.0, w) by {
                    if w == k {
                        assert(member(self.0, j));
                    } else {
                        assert(member(self.0, k as int));
                    }
                }
            }
        }
        r
    }

    /// Whether the square is in the set.
    pub fn has_square(self, sq: Square) -> (r: bool)
        ensures
            r == self.contains(sq),
    {
        let k: u8 = sq.to_index();
        self.0 & (1u64 << (k as u64)) != 0
    }

    /// The set with the square added.
    pub fn with(self, sq: Square) -> (r: BitBoard)
        ensures
            r.0 == self.0 | bit(sq.index()),
            forall|i: int| member(r.0, i) == (member(self.0, i) || i == sq.index()),
    {
        let k: u8 = sq.to_index();
        let r = BitBoard(self.0 | (1u64 << (k as u64)));
        proof {
            broadcast use group_member;

            assert forall|i: int| member(r.0, i) == (member(self.0, i) || i == sq.index()) by {}
        }
        r
    }

    /// The least square of a non-empty set (bit-scan forward).
    pub fn bit_scan(self) -> (r: Square)
        requires
            self.0 != 0,
        ensures
            self.contains(r),
            forall|j: int| 0 <= j < r.index() ==> !member(self.0, j),
    {
        proof {
            lemma_lowest(self.0);
        }
        let k: u32 = self.0.trailing_zeros();
        Square::from_index(k as u8)
    }

    /// The number of squares in the set.
    pub fn popcnt(self) -> (r: u32)
        ensures
            r == count(self.0),
            r <= 64,
    {
        let mut rest: u64 = self.0;
        let mut n: u32 = 0;
        let mut low: u32 = 0;
        while rest != 0
            invariant
                low <= 64,
                n == count_below(self.0, low as int),
                n <= low,
                forall|i: int|
                    #![trigger member(rest, i)]
                    #![trigger member(self.0, i)]
                    member(rest, i) == (member(self.0, i) && i >= low),
            decreases rest,
        {
            proof {
                lemma_lowest(rest);
            }
            let k: u32 = rest.trailing_zeros();
            let ghost before = rest;
            proof {
                assert forall|j: int| low <= j < k implies !member(self.0, j) by {
                    assert(!member(rest, j));
                }
                lemma_count_gap(self.0, low as int, k as int);
                lemma_remove_decreases(rest, k as int);
            }
            rest = rest ^ (1u64 << (k as u64));
            proof {
                broadcast use group_member;

                assert forall|i: int| member(rest, i) == (member(self.0, i) && i >= k + 1) by {
                    assert(member(before, i) == (member(self.0, i) && i >= low));
                    if 0 <= i < k {
                        assert(!member(before, i));
                    }
                }
            }
            n = n + 1;
            low = k + 1;
        }
        proof {
            BitBoard(rest).is_empty_means_none();
            assert forall|j: int| low <= j < 64 implies !member(self.0, j) by {
                assert(!member(rest, j));
            }
            lemma_count_gap(self.0, low as int, 64);
        }
        n
    }

    proof fn is_empty_means_none(self)
        requires
            self.0 == 0,
        ensures
            forall|i: int| !member(self.0, i),
    {
        assert forall|i: int| !member(self.0, i) by {
            lemma_member_zero(i);
        }
    }

    /// The set moved by `n` squares: towards H8 for a positive `n`, towards A1 for a negative one.
    /// Squares that leave the board are lost.
    pub fn shift(self, n: i32) -> (r: BitBoard)
        requires
            -64 < n < 64,
        ensures
            forall|i: int| member(r.0, i) == (0 <= i < 64 && member(self.0, i - n)),
    {
        proof {
            broadcast use group_member;

        }
        if n >= 0 {
            let r = BitBoard(self.0 << (n as u64));
            proof {
                assert forall|i: int| member(r.0, i) == (0 <= i < 64 && member(self.0, i - n)) by {}
            }
            r
        } else {
            let m: u64 = (-n) as u64;
            let r = BitBoard(self.0 >> m);
            proof {
                assert forall|i: int| member(r.0, i) == (0 <= i < 64 && member(self.0, i - n)) by {}
            }
            r
        }
    }

    /// The squares of a file (0 is the a-file).
    pub fn mask_file(file: u8) -> (r: BitBoard)
        requires
            file < 8,
        ensures
            forall|i: int| member(r.0, i) == (0 <= i < 64 && i % 8 == file),
    {
        let r = BitBoard(FILE_A << (file as u64));
        proof {
            assert forall|i: int| member(r.0, i) == (0 <= i < 64 && i % 8 == file) by {
                if 0 <= i < 64 {
                    lemma_file_rank_masks(file as int, i);
                }
            }
        }
        r
    }

    /// The squares of a rank (0 is the first rank).
    pub fn mask_rank(rank: u8) -> (r: BitBoard)
        requires
            rank < 8,
        ensures
            forall|i: int| member(r.0, i) == (0 <= i < 64 && i / 8 == rank),
    {
        let r = BitBoard(RANK_1 << ((8 * rank) as u64));
        proof {
            assert forall|i: int| member(r.0, i) == (0 <= i < 64 && i / 8 == rank) by {
                if 0 <= i < 64 {
                    lemma_file_rank_masks(rank as int, i);
                }
            }
        }
        r
    }
}

/// No member between `lo` and `hi` means the count does not change between them.
pub proof fn lemma_count_gap(bb: u64, lo: int, hi: int)
    requires
        0 <= lo <= hi <= 64,
        forall|j: int| lo <= j < hi ==> !member(bb, j),
    ensures
        count_below(bb, hi) == count_below(bb, lo),
    decreases hi - lo,
{
    if lo < hi {
        lemma_count_gap(bb, lo, hi - 1);
    }
}

/// A non-empty word either is its lowest member alone or has a second member.
pub proof fn lemma_singleton(x: u64)
    requires
        x != 0,
    ensures
        x ^ bit(x.trailing_zeros() as int) == 0 ==> forall|i: int|
            member(x, i) == (i == x.trailing_zeros()),
        x ^ bit(x.trailing_zeros() as int) != 0 ==> member(x, x.trailing_zeros() as int) && member(
            x,
            (x ^ bit(x.trailing_zeros() as int)).trailing_zeros() as int,
        ) && (x ^ bit(x.trailing_zeros() as int)).trailing_zeros() != x.trailing_zeros(),
{
    lemma_lowest(x);
    let k = x.trailing_zeros() as int;
    let others = x ^ bit(k);
    if others == 0 {
        assert forall|i: int| member(x, i) == (i == k) by {
            lemma_member_xor(x, bit(k), i);
            lemma_member_bit(k as u64, i);
            lemma_member_zero(i);
        }
    } else {
        lemma_lowest(others);
        let j = others.trailing_zeros() as int;
        lemma_member_xor(x, bit(k), j);
        lemma_member_bit(k as u64, j);
    }
}

/// A word with one member counts one.
pub proof fn lemma_count_single(bb: u64, k: int, n: int)
    requires
        0 <= k < 64,
        0 <= n <= 64,
        forall|i: int| member(bb, i) == (i == k),
    ensures
        count_below(bb, n) == if k < n {
            1nat
        } else {
            0nat
        },
    decreases n,
{
    if n > 0 {
        lemma_count_single(bb, k, n - 1);
    }
}

/// A word with a member below `n` counts at least one below `n`.
pub proof fn lemma_count_member(bb: u64, k: int, n: int)
    requires
        member(bb, k),
        k < n <= 64,
    ensures
        count_below(bb, n) >= 1,
    decreases n,
{
    if n - 1 > k {
        lemma_count_member(bb, k, n - 1);
    }
}

/// A word with two members below `n` counts at least two below `n`.
pub proof fn lemma_count_two(bb: u64, a: int, b: int, n: int)
    requires
        member(bb, a),
        member(bb, b),
        a < b < n <= 64,
    ensures
        count_below(bb, n) >= 2,
    decreases n,
{
    if n - 1 > b {
        lemma_count_two(bb, a, b, n - 1);
    } else {
        lemma_count_member(bb, a, n - 1);
    }
}

/// A non-empty word counts one exactly if its lowest member is its only member.
pub proof fn lemma_count_one(bb: u64)
    requires
        bb != 0,
    ensures
        (count(bb) == 1) == (forall|i: int| member(bb, i) ==> i == bb.trailing_zeros()),
{
    lemma_lowest(bb);
    let k = bb.trailing_zeros() as int;
    if forall|i: int| member(bb, i) ==> i == k {
        assert forall|i: int| member(bb, i) == (i == k) by {}
        lemma_count_single(bb, k, 64);
    } else {
        let j = choose|j: int| member(bb, j) && j != k;
        lemma_count_two(bb, k, j, 64);
    }
}

} // verus!
