use vstd::prelude::*;
use crate::bitboard::{
    bit, group_member, lemma_is_bits_of, lemma_lowest, lemma_member_bit, lemma_member_bits_of,
    lemma_member_xor, lemma_member_zero, lemma_remove_decreases, member, BitBoard,
};
use crate::board::{lemma_class_members, Board, PartialBoard};
use crate::chess_move::{Move, MoveFlag, Promotion, ALL_PROMOTIONS};
use crate::color::Color;
use crate::geometry::{clear_between, lies_between};
use crate::piece::Piece;
use crate::position::{
    checkers_of, is_checker, is_pinned, is_pinner, king_at, king_square, occupied, one_king,
    only_between, pinned_of, Position,
};
use crate::square::Square;
use crate::tables::{
    between, get_bishop_attacks, get_king_attacks, get_knight_attacks, get_pawn_attacks,
    get_rook_attacks,
};

pub mod castling;
pub mod en_passant;
pub mod exact;
pub mod king;
pub mod legal;
pub mod pawn_capture;
pub mod pieces;
pub mod quiet_pawn;

verus! {

/// The moves that a generator has found, in the order in which it found them.
#[derive(Debug, Clone)]
pub struct MoveList {
    pub moves: Vec<Move>,
}

impl View for MoveList {
    type V = Seq<Move>;

    open spec fn view(&self) -> Seq<Move> {
        self.moves@
    }
}

impl MoveList {
    pub fn new() -> (r: MoveList)
        ensures
            r@.len() == 0,
    {
        MoveList { moves: Vec::new() }
    }

    pub fn len(&self) -> (r: usize)
        ensures
            r == self@.len(),
    {
        self.moves.len()
    }

    pub fn is_empty(&self) -> (r: bool)
        ensures
            r == (self@.len() == 0),
    {
        self.moves.len() == 0
    }

    pub fn push(&mut self, m: Move)
        ensures
            final(self)@ == old(self)@.push(m),
    {
        self.moves.push(m);
    }

    /// The move at a position of the list.
    pub fn get(&self, i: usize) -> (r: Move)
        requires
            i < self@.len(),
        ensures
            r == self@[i as int],
    {
        self.moves[i]
    }

    /// Exchanges the moves at two positions of the list: the list holds the same moves as
    /// before, each as often as before.
    pub fn swap(&mut self, i: usize, j: usize)
        requires
            i < old(self)@.len(),
            j < old(self)@.len(),
        ensures
            final(self)@ == old(self)@.update(i as int, old(self)@[j as int]).update(
                j as int,
                old(self)@[i as int],
            ),
            final(self)@.len() == old(self)@.len(),
            forall|m: Move| final(self)@.contains(m) <==> old(self)@.contains(m),
            old(self)@.no_duplicates() ==> final(self)@.no_duplicates(),
    {
        let a = self.moves[i];
        let b = self.moves[j];
        self.moves[i] = b;
        self.moves[j] = a;
        proof {
            let before = old(self)@;
            let after = self@;
            assert(after =~= before.update(i as int, before[j as int]).update(
                j as int,
                before[i as int],
            ));
            assert forall|m: Move| after.contains(m) <==> before.contains(m) by {
                if after.contains(m) {
                    let k = choose|k: int| 0 <= k < after.len() && after[k] == m;
                    if k == i {
                        assert(before[j as int] == m);
                    } else if k == j {
                        assert(before[i as int] == m);
                    } else {
                        assert(before[k] == m);
                    }
                }
                if before.contains(m) {
                    let k = choose|k: int| 0 <= k < before.len() && before[k] == m;
                    if k == i {
                        assert(after[j as int] == m);
                    } else if k == j {
                        assert(after[i as int] == m);
                    } else {
                        assert(after[k] == m);
                    }
                }
            }
            if before.no_duplicates() {
                assert forall|x: int, y: int|
                    0 <= x < after.len() && 0 <= y < after.len() && x != y implies after[x]
                    != after[y] by {
                    let px = if x == i {
                        j as int
                    } else if x == j {
                        i as int
                    } else {
                        x
                    };
                    let py = if y == i {
                        j as int
                    } else if y == j {
                        i as int
                    } else {
                        y
                    };
                    assert(after[x] == before[px] && after[y] == before[py]);
                    assert(px != py);
                }
            }
        }
    }

    /// Whether the move is in the list.
    pub fn contains(&self, m: &Move) -> (r: bool)
        ensures
            r == self@.contains(*m),
    {
        let mut i: usize = 0;
        while i < self.moves.len()
            invariant
                0 <= i <= self@.len(),
                forall|j: int| 0 <= j < i ==> self@[j] != *m,
            decreases self@.len() - i,
        {
            if self.moves[i] == *m {
                return true;
            }
            i = i + 1;
        }
        false
    }
}

/// Whether `after` is `before` with new moves at its end: each move that `wanted` accepts,
/// once, and no other.
pub open spec fn extends(before: Seq<Move>, after: Seq<Move>, wanted: spec_fn(Move) -> bool) -> bool {
    let added = after.subrange(before.len() as int, after.len() as int);
    &&& before.len() <= after.len()
    &&& after.subrange(0, before.len() as int) == before
    &&& added.no_duplicates()
    &&& forall|m: Move| #[trigger] added.contains(m) <==> wanted(m)
}

/// A list extends itself by the moves of a condition that no move meets.
pub proof fn lemma_extends_none(list: Seq<Move>, wanted: spec_fn(Move) -> bool)
    requires
        forall|m: Move| !#[trigger] wanted(m),
    ensures
        extends(list, list, wanted),
{
    assert(list.subrange(0, list.len() as int) =~= list);
}

/// One more move, which was not wanted before, extends the list by what was wanted and by
/// that move.
pub proof fn lemma_extends_push(
    before: Seq<Move>,
    now: Seq<Move>,
    wanted: spec_fn(Move) -> bool,
    m: Move,
    wider: spec_fn(Move) -> bool,
)
    requires
        extends(before, now, wanted),
        !wanted(m),
        forall|x: Move| #[trigger] wider(x) <==> wanted(x) || x == m,
    ensures
        extends(before, now.push(m), wider),
{
    let added = now.subrange(before.len() as int, now.len() as int);
    let next = now.push(m);
    let more = next.subrange(before.len() as int, next.len() as int);
    assert(more =~= added.push(m));
    assert(next.subrange(0, before.len() as int) =~= now.subrange(0, before.len() as int));
    assert forall|x: Move| #[trigger] more.contains(x) <==> wider(x) by {
        if more.contains(x) {
            let i = choose|i: int| 0 <= i < more.len() && more[i] == x;
            if i < added.len() {
                assert(added[i] == x);
                assert(added.contains(x));
            }
        }
        if wanted(x) {
            assert(added.contains(x));
            let i = choose|i: int| 0 <= i < added.len() && added[i] == x;
            assert(more[i] == x);
        }
        if x == m {
            assert(more[added.len() as int] == x);
        }
    }
    assert forall|i: int, j: int| 0 <= i < more.len() && 0 <= j < more.len() && i != j implies more[i]
        != more[j] by {
        if i == added.len() {
            assert(added.contains(more[j]));
        } else if j == added.len() {
            assert(added.contains(more[i]));
        }
    }
}

/// The same list extends by any condition that accepts the same moves.
pub proof fn lemma_extends_same(
    before: Seq<Move>,
    after: Seq<Move>,
    wanted: spec_fn(Move) -> bool,
    other: spec_fn(Move) -> bool,
)
    requires
        extends(before, after, wanted),
        forall|m: Move| #[trigger] wanted(m) <==> other(m),
    ensures
        extends(before, after, other),
{
    let added = after.subrange(before.len() as int, after.len() as int);
    assert forall|m: Move| #[trigger] added.contains(m) <==> other(m) by {
        assert(added.contains(m) <==> wanted(m));
    }
}

/// Two extensions in a row, by conditions that no move meets both, are one extension by
/// either condition.
pub proof fn lemma_extends_twice(
    first: Seq<Move>,
    second: Seq<Move>,
    third: Seq<Move>,
    wanted: spec_fn(Move) -> bool,
    then_wanted: spec_fn(Move) -> bool,
    either: spec_fn(Move) -> bool,
)
    requires
        extends(first, second, wanted),
        extends(second, third, then_wanted),
        forall|m: Move| !(#[trigger] wanted(m) && then_wanted(m)),
        forall|m: Move| #[trigger] either(m) <==> wanted(m) || then_wanted(m),
    ensures
        extends(first, third, either),
{
    let a = second.subrange(first.len() as int, second.len() as int);
    let b = third.subrange(second.len() as int, third.len() as int);
    let c = third.subrange(first.len() as int, third.len() as int);
    assert(third.subrange(0, first.len() as int) =~= second.subrange(0, first.len() as int)) by {
        assert(third.subrange(0, second.len() as int) == second);
        assert forall|i: int| 0 <= i < first.len() implies third[i] == second[i] by {
            assert(third.subrange(0, second.len() as int)[i] == second[i]);
        }
    }
    assert(c =~= a + b) by {
        assert forall|i: int| 0 <= i < a.len() implies c[i] == a[i] by {
            assert(third.subrange(0, second.len() as int)[first.len() + i] == second[first.len()
                + i]);
        }
    }
    assert forall|m: Move| #[trigger] c.contains(m) <==> either(m) by {
        if c.contains(m) {
            let i = choose|i: int| 0 <= i < c.len() && c[i] == m;
            if i < a.len() {
                assert(a[i] == m);
                assert(a.contains(m));
            } else {
                assert(b[i - a.len()] == m);
                assert(b.contains(m));
            }
        }
        if wanted(m) {
            assert(a.contains(m));
            let i = choose|i: int| 0 <= i < a.len() && a[i] == m;
            assert(c[i] == m);
        }
        if then_wanted(m) {
            assert(b.contains(m));
            let i = choose|i: int| 0 <= i < b.len() && b[i] == m;
            assert(c[a.len() + i] == m);
        }
    }
    assert forall|i: int, j: int| 0 <= i < c.len() && 0 <= j < c.len() && i != j implies c[i]
        != c[j] by {
        if i < a.len() && j >= a.len() {
            assert(a.contains(c[i]));
            assert(b[j - a.len()] == c[j]);
            assert(b.contains(c[j]));
        } else if j < a.len() && i >= a.len() {
            assert(a.contains(c[j]));
            assert(b[i - a.len()] == c[i]);
            assert(b.contains(c[i]));
        } else if i < a.len() {
            assert(a[i] != a[j]);
        } else {
            assert(b[i - a.len()] != b[j - a.len()]);
        }
    }
}

/// Going through the sources in rising order: once the moves from the squares below `low`
/// are in the list and those from the next source `s` are added, the moves from the squares
/// up to `s` are in the list.
pub proof fn lemma_sources_step(
    start: Seq<Move>,
    mid: Seq<Move>,
    end: Seq<Move>,
    wanted: spec_fn(Move) -> bool,
    here: spec_fn(Move) -> bool,
    sources: u64,
    low: int,
    s: int,
)
    requires
        0 <= low <= s < 64,
        extends(start, mid, |m: Move| wanted(m) && m.from.index() < low),
        extends(mid, end, here),
        forall|m: Move| #[trigger] here(m) <==> wanted(m) && m.from.index() == s,
        forall|m: Move| #[trigger] wanted(m) ==> member(sources, m.from.index()),
        forall|i: int| low <= i < s ==> !member(sources, i),
    ensures
        extends(start, end, |m: Move| wanted(m) && m.from.index() < s + 1),
{
    let before = |m: Move| wanted(m) && m.from.index() < low;
    let after = |m: Move| wanted(m) && m.from.index() < s + 1;
    let either = |m: Move| before(m) || here(m);
    lemma_extends_twice(start, mid, end, before, here, either);
    assert forall|m: Move| #[trigger] either(m) <==> after(m) by {
        if wanted(m) {
            assert(member(sources, m.from.index()));
        }
    }
    lemma_extends_same(start, end, either, after);
}

/// Once no source is left at or above `low`, the moves from the squares below `low` are all
/// the moves.
pub proof fn lemma_sources_done(
    start: Seq<Move>,
    end: Seq<Move>,
    wanted: spec_fn(Move) -> bool,
    sources: u64,
    low: int,
)
    requires
        extends(start, end, |m: Move| wanted(m) && m.from.index() < low),
        forall|m: Move| #[trigger] wanted(m) ==> member(sources, m.from.index()),
        forall|i: int| low <= i ==> !member(sources, i),
    ensures
        extends(start, end, wanted),
{
    let before = |m: Move| wanted(m) && m.from.index() < low;
    assert forall|m: Move| #[trigger] before(m) <==> wanted(m) by {
        if wanted(m) {
            assert(member(sources, m.from.index()));
        }
    }
    lemma_extends_same(start, end, before, wanted);
}

/// Whether `m` is the move of `piece` from square `from` to a member of `targets` that
/// promotes nothing and is a capture exactly if the target is a member of `theirs`.
pub open spec fn move_in(from: int, piece: Piece, targets: u64, theirs: u64, m: Move) -> bool {
    &&& m.from.index() == from
    &&& m.piece == piece
    &&& member(targets, m.to.index())
    &&& m.promotion.is_none()
    &&& m.flags == if member(theirs, m.to.index()) {
        MoveFlag::Capture
    } else {
        MoveFlag::Normal
    }
}

/// Adds to the list the moves of `piece` from `from` to each member of `targets`: captures
/// where the target is a member of `theirs`, plain moves elsewhere.
#[verifier::rlimit(60)]
pub fn push_moves_from(
    from: Square,
    piece: Piece,
    targets: BitBoard,
    theirs: BitBoard,
    move_list: &mut MoveList,
)
    ensures
        extends(
            old(move_list)@,
            final(move_list)@,
            |m: Move| move_in(from.index(), piece, targets.0, theirs.0, m),
        ),
{
    let mut rest: u64 = targets.0;
    let ghost mut low: int = 0;
    let ghost start = move_list@;
    proof {
        lemma_extends_none(
            start,
            |m: Move| move_in(from.index(), piece, targets.0, theirs.0, m) && m.to.index() < 0,
        );
    }
    while rest != 0
        invariant
            0 <= low <= 64,
            forall|i: int| member(rest, i) == (member(targets.0, i) && i >= low),
            extends(
                start,
                move_list@,
                |m: Move|
                    move_in(from.index(), piece, targets.0, theirs.0, m) && m.to.index() < low,
            ),
        decreases rest,
    {
        proof {
            lemma_lowest(rest);
        }
        let t: u32 = rest.trailing_zeros();
        let target = Square::from_index(t as u8);
        let flags = if theirs.0 & (1u64 << (t as u64)) != 0 {
            MoveFlag::Capture
        } else {
            MoveFlag::Normal
        };
        let found = Move { from, to: target, piece, promotion: None, flags };
        let ghost done = |m: Move|
            move_in(from.index(), piece, targets.0, theirs.0, m) && m.to.index() < low;
        let ghost next = |m: Move|
            move_in(from.index(), piece, targets.0, theirs.0, m) && m.to.index() < t + 1;
        proof {
            assert(member(rest, t as int));
            assert forall|x: Move| #[trigger] next(x) <==> done(x) || x == found by {
                crate::square::lemma_square_index_roundtrip(x.from);
                crate::square::lemma_square_index_roundtrip(x.to);
                crate::square::lemma_square_index_roundtrip(from);
                if low <= x.to.index() < t {
                    assert(!member(rest, x.to.index()));
                }
            }
            lemma_extends_push(start, move_list@, done, found, next);
        }
        move_list.push(found);
        let ghost before = rest;
        proof {
            lemma_remove_decreases(rest, t as int);
        }
        rest = rest ^ (1u64 << (t as u64));
        proof {
            broadcast use group_member;

            assert forall|i: int| member(rest, i) == (member(targets.0, i) && i >= t + 1) by {
                assert(member(before, i) == (member(targets.0, i) && i >= low));
                if low <= i < t {
                    assert(!member(before, i));
                }
            }
            low = t + 1;
        }
    }
    proof {
        let all = |m: Move| move_in(from.index(), piece, targets.0, theirs.0, m);
        let seen = |m: Move|
            move_in(from.index(), piece, targets.0, theirs.0, m) && m.to.index() < low;
        assert forall|m: Move| #[trigger] seen(m) <==> all(m) by {
            if m.to.index() >= low {
                lemma_member_zero(m.to.index());
                assert(!member(rest, m.to.index()));
            }
        }
        lemma_extends_same(start, move_list@, seen, all);
    }
}

/// Whether `m` is a pawn move with the given flag to a member of `targets`, from the square
/// `back` squares further on, that promotes exactly if `promote` says so.
pub open spec fn pawn_move_in(targets: u64, back: int, flags: MoveFlag, promote: bool, m: Move) -> bool {
    &&& member(targets, m.to.index())
    &&& m.from.index() == m.to.index() + back
    &&& m.piece == Piece::Pawn
    &&& m.flags == flags
    &&& m.promotion.is_some() == promote
}

/// Whether `m` is one of the first `n` moves that a pawn makes from `from` to `to`: the
/// move without promotion where `promote` is false, else the promotions to knight, bishop,
/// rook and queen, in this order.
pub open spec fn pawn_move_here(
    from: int,
    to: int,
    flags: MoveFlag,
    promote: bool,
    n: int,
    m: Move,
) -> bool {
    &&& m.from.index() == from
    &&& m.to.index() == to
    &&& m.piece == Piece::Pawn
    &&& m.flags == flags
    &&& if promote {
        m.promotion matches Some(p) && match p {
            Promotion::Knight => n >= 1,
            Promotion::Bishop => n >= 2,
            Promotion::Rook => n >= 3,
            Promotion::Queen => n >= 4,
        }
    } else {
        m.promotion.is_none() && n >= 1
    }
}

/// Adds to the list the pawn moves to each member of `targets`, each from the square `back`
/// squares further on: one move per target, or its four promotions.
#[verifier::rlimit(60)]
pub fn push_pawn_moves(
    targets: BitBoard,
    back: i8,
    flags: MoveFlag,
    promote: bool,
    move_list: &mut MoveList,
)
    requires
        forall|t: int| member(targets.0, t) ==> 0 <= t + back < 64,
    ensures
        extends(
            old(move_list)@,
            final(move_list)@,
            |m: Move| pawn_move_in(targets.0, back as int, flags, promote, m),
        ),
{
    let mut rest: u64 = targets.0;
    let ghost mut low: int = 0;
    let ghost start = move_list@;
    proof {
        lemma_extends_none(
            start,
            |m: Move| pawn_move_in(targets.0, back as int, flags, promote, m) && m.to.index() < 0,
        );
    }
    while rest != 0
        invariant
            0 <= low <= 64,
            forall|t: int| member(targets.0, t) ==> 0 <= t + back < 64,
            forall|i: int| member(rest, i) == (member(targets.0, i) && i >= low),
            extends(
                start,
                move_list@,
                |m: Move|
                    pawn_move_in(targets.0, back as int, flags, promote, m) && m.to.index() < low,
            ),
        decreases rest,
    {
        proof {
            lemma_lowest(rest);
        }
        let t: u32 = rest.trailing_zeros();
        let target = Square::from_index(t as u8);
        let source = Square::from_index((t as i8 + back) as u8);
        let ghost done = |m: Move|
            pawn_move_in(targets.0, back as int, flags, promote, m) && m.to.index() < low;
        let ghost from = source.index();
        let ghost to = target.index();
        let ghost step0 = |m: Move| done(m) || pawn_move_here(from, to, flags, promote, 0, m);
        let ghost step1 = |m: Move| done(m) || pawn_move_here(from, to, flags, promote, 1, m);
        let ghost step2 = |m: Move| done(m) || pawn_move_here(from, to, flags, promote, 2, m);
        let ghost step3 = |m: Move| done(m) || pawn_move_here(from, to, flags, promote, 3, m);
        let ghost step4 = |m: Move| done(m) || pawn_move_here(from, to, flags, promote, 4, m);
        proof {
            assert(member(rest, t as int));
            lemma_extends_same(start, move_list@, done, step0);
        }
        if promote {
            let first = Move {
                from: source,
                to: target,
                piece: Piece::Pawn,
                promotion: Some(Promotion::Knight),
                flags,
            };
            let second = Move {
                from: source,
                to: target,
                piece: Piece::Pawn,
                promotion: Some(Promotion::Bishop),
                flags,
            };
            let third = Move {
                from: source,
                to: target,
                piece: Piece::Pawn,
                promotion: Some(Promotion::Rook),
                flags,
            };
            let fourth = Move {
                from: source,
                to: target,
                piece: Piece::Pawn,
                promotion: Some(Promotion::Queen),
                flags,
            };
            proof {
                lemma_moves_here(from, to, flags, promote);
                lemma_extends_push(start, move_list@, step0, first, step1);
                lemma_extends_push(start, move_list@.push(first), step1, second, step2);
                lemma_extends_push(start, move_list@.push(first).push(second), step2, third, step3);
                lemma_extends_push(
                    start,
                    move_list@.push(first).push(second).push(third),
                    step3,
                    fourth,
                    step4,
                );
            }
            move_list.push(first);
            move_list.push(second);
            move_list.push(third);
            move_list.push(fourth);
        } else {
            let only = Move { from: source, to: target, piece: Piece::Pawn, promotion: None, flags };
            proof {
                lemma_moves_here(from, to, flags, promote);
                lemma_extends_push(start, move_list@, step0, only, step1);
                lemma_extends_same(start, move_list@.push(only), step1, step4);
            }
            move_list.push(only);
        }
        let ghost before = rest;
        proof {
            lemma_remove_decreases(rest, t as int);
        }
        rest = rest ^ (1u64 << (t as u64));
        proof {
            broadcast use group_member;

            assert forall|i: int| member(rest, i) == (member(targets.0, i) && i >= t + 1) by {
                assert(member(before, i) == (member(targets.0, i) && i >= low));
                if low <= i < t {
                    assert(!member(before, i));
                }
            }
            let next = |m: Move|
                pawn_move_in(targets.0, back as int, flags, promote, m) && m.to.index() < t + 1;
            assert forall|m: Move| #[trigger] step4(m) <==> next(m) by {
                if low <= m.to.index() < t {
                    assert(!member(before, m.to.index()));
                }
            }
            lemma_extends_same(start, move_list@, step4, next);
            low = t + 1;
        }
    }
    proof {
        let all = |m: Move| pawn_move_in(targets.0, back as int, flags, promote, m);
        let seen = |m: Move|
            pawn_move_in(targets.0, back as int, flags, promote, m) && m.to.index() < low;
        assert forall|m: Move| #[trigger] seen(m) <==> all(m) by {
            if m.to.index() >= low {
                lemma_member_zero(m.to.index());
                assert(!member(rest, m.to.index()));
            }
        }
        lemma_extends_same(start, move_list@, seen, all);
    }
}

/// The moves that a pawn makes between two squares are told apart by their promotion.
proof fn lemma_moves_here(from: int, to: int, flags: MoveFlag, promote: bool)
    ensures
        forall|m: Move| !#[trigger] pawn_move_here(from, to, flags, promote, 0, m),
        forall|m: Move, n: int|
            0 <= n < 4 ==> (#[trigger] pawn_move_here(from, to, flags, promote, n + 1, m)
                <==> pawn_move_here(from, to, flags, promote, n, m) || (m.from.index() == from
                && m.to.index() == to && m.piece == Piece::Pawn && m.flags == flags && if promote {
                m.promotion == Some(ALL_PROMOTIONS[n])
            } else {
                m.promotion.is_none() && n == 0
            })),
{
}

/// Whether `s` is the one member of `occ` between `p` and `k`.
pub open spec fn sole_blocker(occ: u64, p: int, k: int, s: int) -> bool {
    &&& lies_between(p, k, s)
    &&& member(occ, s)
    &&& forall|t: int| lies_between(p, k, t) && t != s ==> !member(occ, t)
}

/// Whether `s` alone stands between `k` and one of the members of `pinners` below `low`.
#[verifier::opaque]
pub open spec fn shields(occ: u64, pinners: u64, k: int, s: int, low: int) -> bool {
    exists|p: int| 0 <= p < low && member(pinners, p) && sole_blocker(occ, p, k, s)
}

/// What the members of `occ` between `p` and `k` say about the line from `p` to `k`: with
/// none it is clear, with one that one is the sole blocker, with more there is none.
proof fn lemma_blockers(occ: u64, p: int, k: int, blockers: u64)
    requires
        forall|t: int| member(blockers, t) == (lies_between(p, k, t) && member(occ, t)),
    ensures
        blockers == 0 ==> clear_between(occ, p, k) && forall|s: int| !#[trigger] sole_blocker(occ, p, k, s),
        blockers != 0 ==> !clear_between(occ, p, k),
        blockers != 0 && blockers ^ bit(blockers.trailing_zeros() as int) == 0 ==> forall|s: int| #[trigger]
            sole_blocker(occ, p, k, s) == (s == blockers.trailing_zeros()),
        blockers != 0 && blockers ^ bit(blockers.trailing_zeros() as int) != 0 ==> forall|s: int| !#[trigger]
            sole_blocker(occ, p, k, s),
{
    if blockers == 0 {
        assert forall|t: int| lies_between(p, k, t) implies !member(occ, t) by {
            lemma_member_zero(t);
            assert(!member(blockers, t));
        }
        assert forall|s: int| !#[trigger] sole_blocker(occ, p, k, s) by {
            lemma_member_zero(s);
            assert(!member(blockers, s));
        }
    } else {
        lemma_lowest(blockers);
        let s0 = blockers.trailing_zeros() as int;
        assert(member(blockers, s0));
        let others = blockers ^ bit(s0);
        if others == 0 {
            assert forall|s: int| #[trigger] sole_blocker(occ, p, k, s) == (s == s0) by {
                assert forall|t: int| member(blockers, t) == (t == s0) by {
                    lemma_member_xor(blockers, bit(s0), t);
                    lemma_member_bit(s0 as u64, t);
                    lemma_member_zero(t);
                }
                if s != s0 && sole_blocker(occ, p, k, s) {
                    assert(member(blockers, s));
                }
            }
        } else {
            lemma_lowest(others);
            let s1 = others.trailing_zeros() as int;
            lemma_member_xor(blockers, bit(s0), s1);
            lemma_member_bit(s0 as u64, s1);
            assert(member(blockers, s1) && s1 != s0);
            assert forall|s: int| !#[trigger] sole_blocker(occ, p, k, s) by {
                if sole_blocker(occ, p, k, s) {
                    if s == s0 {
                        assert(!member(occ, s1));
                    } else {
                        assert(!member(occ, s0));
                    }
                }
            }
        }
    }
}

proof fn lemma_shields_step(occ: u64, pinners: u64, k: int, low: int, p: int)
    requires
        0 <= low <= p < 64,
        member(pinners, p),
        forall|j: int| low <= j < p ==> !member(pinners, j),
    ensures
        forall|s: int| #[trigger]
            shields(occ, pinners, k, s, p + 1) == (shields(occ, pinners, k, s, low) || sole_blocker(
                occ,
                p,
                k,
                s,
            )),
{
    reveal(shields);
    assert forall|s: int| #[trigger]
        shields(occ, pinners, k, s, p + 1) == (shields(occ, pinners, k, s, low) || sole_blocker(
            occ,
            p,
            k,
            s,
        )) by {
        if shields(occ, pinners, k, s, p + 1) {
            let q = choose|q: int| 0 <= q < p + 1 && member(pinners, q) && sole_blocker(occ, q, k, s);
            if q < low {
                assert(shields(occ, pinners, k, s, low));
            } else {
                assert(q == p);
            }
        }
        if shields(occ, pinners, k, s, low) {
            let q = choose|q: int| 0 <= q < low && member(pinners, q) && sole_blocker(occ, q, k, s);
            assert(0 <= q < p + 1 && member(pinners, q) && sole_blocker(occ, q, k, s));
        }
        if sole_blocker(occ, p, k, s) {
            assert(0 <= p < p + 1 && member(pinners, p) && sole_blocker(occ, p, k, s));
        }
    }
}

proof fn lemma_shields_none(occ: u64, pinners: u64, k: int)
    ensures
        forall|s: int| !#[trigger] shields(occ, pinners, k, s, 0),
{
    reveal(shields);
}

/// The word `combined` of agreeing sets is the set of the occupied squares.
pub proof fn lemma_combined_is_occupied(
    pieces: [BitBoard; 6],
    occupancies: [BitBoard; 2],
    combined: BitBoard,
)
    requires
        crate::board::squares_agree(pieces, occupancies, combined),
    ensures
        combined.0 == occupied(crate::board::men_of(pieces, occupancies, combined)),
{
    let men = crate::board::men_of(pieces, occupancies, combined);
    assert forall|i: int| 0 <= i < 64 implies member(combined.0, i) == men[i].is_some() by {
        lemma_class_members(pieces, occupancies, combined, Color::White, Piece::Pawn, i);
    }
    lemma_is_bits_of(combined.0, |i: int| men[i].is_some());
}

/// The square of the one king of a color is the square on which a king of that color stands.
pub proof fn lemma_king_square(men: Seq<Option<(Color, Piece)>>, color: Color, k: int)
    requires
        one_king(men, color),
        king_at(men, color, k),
    ensures
        king_square(men, color) == k,
{
    let w = choose|w: int| #[trigger]
        king_at(men, color, w) && forall|j: int| #[trigger] king_at(men, color, j) ==> j == w;
    assert(king_at(men, color, king_square(men, color)));
}

/// The pieces of `side` that are pinned among the members of `pinned`, and the checkers,
/// agree with what the placement says once every pinner has been looked at.
#[verifier::rlimit(60)]
proof fn lemma_pins_and_checks(
    board: &PartialBoard,
    k: int,
    pinners: u64,
    pinned: u64,
    checkers: u64,
    knights: u64,
    pawns: u64,
    kings: u64,
)
    requires
        board.squares_ok(),
        one_king(board.men(), board.side_to_move),
        king_at(board.men(), board.side_to_move, k),
        forall|p: int| member(pinners, p) == is_pinner(board.men(), board.side_to_move, p, k),
        forall|s: int|
            member(pinned, s) == (member(board.occupancies[board.side_to_move.index()].0, s)
                && shields(board.combined.0, pinners, k, s, 64)),
        forall|s: int|
            member(checkers, s) == ((member(pinners, s) && clear_between(board.combined.0, s, k))
                || member(knights, s) || member(pawns, s) || member(kings, s)),
        forall|s: int|
            member(knights, s) == (crate::geometry::knight_jump(k, s) && 0 <= s < 64
                && board.men()[s] == Some((board.side_to_move.flip(), Piece::Knight))),
        forall|s: int|
            member(pawns, s) == (crate::geometry::pawn_hits(board.side_to_move, k, s) && 0 <= s
                < 64 && board.men()[s] == Some((board.side_to_move.flip(), Piece::Pawn))),
        forall|s: int|
            member(kings, s) == (crate::geometry::king_step(k, s) && 0 <= s < 64 && board.men()[s]
                == Some((board.side_to_move.flip(), Piece::King))),
    ensures
        pinned == pinned_of(board.men(), board.side_to_move),
        checkers == checkers_of(board.men(), board.side_to_move),
{
    let men = board.men();
    let side = board.side_to_move;
    let occ = board.combined.0;
    lemma_king_square(men, side, k);
    lemma_combined_is_occupied(board.pieces, board.occupancies, board.combined);
    assert forall|t: int| 0 <= t < 64 implies member(occ, t) == men[t].is_some() by {
        lemma_member_bits_of(|i: int| men[i].is_some(), t);
    }
    assert forall|s: int| 0 <= s < 64 implies member(checkers, s) == is_checker(men, side, s) by {
        assert(member(pinners, s) == is_pinner(men, side, s, k));
    }
    lemma_is_bits_of(checkers, |s: int| is_checker(men, side, s));
    assert forall|s: int| 0 <= s < 64 implies member(pinned, s) == is_pinned(men, side, s) by {
        reveal(shields);
        lemma_class_members(board.pieces, board.occupancies, board.combined, side, Piece::Pawn, s);
        if member(pinned, s) {
            let p = choose|p: int| 0 <= p < 64 && member(pinners, p) && sole_blocker(occ, p, k, s);
            assert(is_pinner(men, side, p, k));
            assert(only_between(men, p, k, s));
        }
        if is_pinned(men, side, s) {
            let p = choose|p: int| #[trigger]
                is_pinner(men, side, p, k) && only_between(men, p, k, s);
            assert(member(pinners, p));
            assert(sole_blocker(occ, p, k, s));
        }
    }
    lemma_is_bits_of(pinned, |s: int| is_pinned(men, side, s));
}

/// The pinned men of the side to move and the men that give it check, worked out from the
/// placement: the king is taken for a bishop and for a rook to find the sliders on a line
/// with it, and the men between each of them and the king are counted.
#[verifier::rlimit(60)]
pub fn calculate_pinned_checkers(board: &PartialBoard) -> (r: (BitBoard, BitBoard))
    requires
        board.squares_ok(),
        one_king(board.men(), board.side_to_move),
    ensures
        r.0.0 == pinned_of(board.men(), board.side_to_move),
        r.1.0 == checkers_of(board.men(), board.side_to_move),
{
    let side = board.side_to_move();
    let foe = side.opposite();
    let own: u64 = board.occupancies(side).0;
    let theirs: u64 = board.occupancies(foe).0;
    let combined: u64 = board.combined().0;
    let ghost men = board.men();
    let king_set = BitBoard(board.pieces(Piece::King).0 & own);
    proof {
        let w = choose|w: int| #[trigger]
            king_at(men, side, w) && forall|j: int| #[trigger] king_at(men, side, j) ==> j == w;
        lemma_class_members(board.pieces, board.occupancies, board.combined, side, Piece::King, w);
        lemma_member_zero(w);
    }
    let king_square = king_set.bit_scan();
    let ghost k = king_square.index();
    proof {
        lemma_class_members(board.pieces, board.occupancies, board.combined, side, Piece::King, k);
        assert(king_at(men, side, k));
    }
    let diagonal: u64 = get_bishop_attacks(king_square, BitBoard(0)).0 & (board.pieces(
        Piece::Bishop,
    ).0 | board.pieces(Piece::Queen).0);
    let straight: u64 = get_rook_attacks(king_square, BitBoard(0)).0 & (board.pieces(
        Piece::Rook,
    ).0 | board.pieces(Piece::Queen).0);
    let pinners: u64 = (diagonal | straight) & theirs;
    proof {
        broadcast use group_member;

        assert forall|p: int| member(pinners, p) == is_pinner(men, side, p, k) by {
            if 0 <= p < 64 {
                lemma_class_members(
                    board.pieces,
                    board.occupancies,
                    board.combined,
                    foe,
                    Piece::Bishop,
                    p,
                );
                lemma_class_members(
                    board.pieces,
                    board.occupancies,
                    board.combined,
                    foe,
                    Piece::Rook,
                    p,
                );
                lemma_class_members(
                    board.pieces,
                    board.occupancies,
                    board.combined,
                    foe,
                    Piece::Queen,
                    p,
                );
            }
        }
    }
    let mut rest: u64 = pinners;
    let mut pinned: u64 = 0;
    let mut sliders: u64 = 0;
    let ghost mut low: int = 0;
    proof {
        lemma_shields_none(combined, pinners, k);
    }
    while rest != 0
        invariant
            0 <= low <= 64,
            k == king_square.index(),
            forall|i: int| member(rest, i) == (member(pinners, i) && i >= low),
            forall|s: int|
                member(sliders, s) == (s < low && member(pinners, s) && clear_between(
                    combined,
                    s,
                    k,
                )),
            forall|s: int|
                member(pinned, s) == (member(own, s) && shields(combined, pinners, k, s, low)),
        decreases rest,
    {
        proof {
            lemma_lowest(rest);
        }
        let p: u32 = rest.trailing_zeros();
        let square = Square::from_index(p as u8);
        let blockers: u64 = between(square, king_square).0 & combined;
        let ghost pinned_before = pinned;
        let ghost sliders_before = sliders;
        let ghost rest_before = rest;
        proof {
            broadcast use group_member;

            lemma_blockers(combined, p as int, k, blockers);
            assert forall|j: int| low <= j < p implies !member(pinners, j) by {
                assert(!member(rest, j));
            }
            lemma_shields_step(combined, pinners, k, low, p as int);
            lemma_remove_decreases(rest, p as int);
        }
        if blockers == 0 {
            sliders = sliders | (1u64 << (p as u64));
        } else {
            let first: u32 = blockers.trailing_zeros();
            if blockers ^ (1u64 << (first as u64)) == 0 {
                pinned = pinned | (blockers & own);
                proof {
                    broadcast use group_member;

                    assert forall|t: int| member(blockers, t) == (t == first) by {
                        lemma_member_xor(blockers, bit(first as int), t);
                    }
                }
            }
        }
        rest = rest ^ (1u64 << (p as u64));
        proof {
            broadcast use group_member;

            assert forall|i: int| member(rest, i) == (member(pinners, i) && i >= p + 1) by {
                assert(member(rest_before, i) == (member(pinners, i) && i >= low));
            }
            assert forall|s: int|
                member(sliders, s) == (s < p + 1 && member(pinners, s) && clear_between(
                    combined,
                    s,
                    k,
                )) by {
                assert(member(sliders_before, s) == (s < low && member(pinners, s)
                    && clear_between(combined, s, k)));
                if low <= s < p {
                    assert(!member(rest_before, s));
                }
            }
            assert forall|s: int|
                member(pinned, s) == (member(own, s) && shields(combined, pinners, k, s, p + 1)) by {
                assert(member(pinned_before, s) == (member(own, s) && shields(
                    combined,
                    pinners,
                    k,
                    s,
                    low,
                )));
                assert(shields(combined, pinners, k, s, p + 1) == (shields(
                    combined,
                    pinners,
                    k,
                    s,
                    low,
                ) || sole_blocker(combined, p as int, k, s)));
            }
            low = p + 1;
        }
    }
    let knights: u64 = get_knight_attacks(king_square).0 & board.pieces(Piece::Knight).0 & theirs;
    let pawns: u64 = get_pawn_attacks(king_square, side).0 & board.pieces(Piece::Pawn).0 & theirs;
    let kings: u64 = get_king_attacks(king_square).0 & board.pieces(Piece::King).0 & theirs;
    let checkers: u64 = sliders | knights | pawns | kings;
    proof {
        broadcast use group_member;

        assert forall|s: int|
            member(pinned, s) == (member(own, s) && shields(combined, pinners, k, s, 64)) by {
            lemma_shields_rest(combined, pinners, k, s, low);
        }
        assert forall|s: int|
            member(sliders, s) == (member(pinners, s) && clear_between(combined, s, k)) by {
            if s >= low {
                assert(!member(rest, s));
            }
        }
        assert forall|s: int| 0 <= s < 64 implies member(knights, s) == (
        crate::geometry::knight_jump(k, s) && men[s] == Some((foe, Piece::Knight))) by {
            lemma_class_members(board.pieces, board.occupancies, board.combined, foe, Piece::Knight, s);
        }
        assert forall|s: int| 0 <= s < 64 implies member(pawns, s) == (crate::geometry::pawn_hits(
            side,
            k,
            s,
        ) && men[s] == Some((foe, Piece::Pawn))) by {
            lemma_class_members(board.pieces, board.occupancies, board.combined, foe, Piece::Pawn, s);
        }
        assert forall|s: int| 0 <= s < 64 implies member(kings, s) == (crate::geometry::king_step(
            k,
            s,
        ) && men[s] == Some((foe, Piece::King))) by {
            lemma_class_members(board.pieces, board.occupancies, board.combined, foe, Piece::King, s);
        }
        lemma_pins_and_checks(board, k, pinners, pinned, checkers, knights, pawns, kings);
    }
    (BitBoard(pinned), BitBoard(checkers))
}

proof fn lemma_shields_rest(occ: u64, pinners: u64, k: int, s: int, low: int)
    requires
        0 <= low <= 64,
        forall|j: int| low <= j < 64 ==> !member(pinners, j),
    ensures
        shields(occ, pinners, k, s, 64) == shields(occ, pinners, k, s, low),
{
    reveal(shields);
    if shields(occ, pinners, k, s, 64) {
        let q = choose|q: int| 0 <= q < 64 && member(pinners, q) && sole_blocker(occ, q, k, s);
        assert(q < low);
    }
    if shields(occ, pinners, k, s, low) {
        let q = choose|q: int| 0 <= q < low && member(pinners, q) && sole_blocker(occ, q, k, s);
        assert(0 <= q < 64 && member(pinners, q) && sole_blocker(occ, q, k, s));
    }
}

/// Whether what stands on `t` lets a man of `side` land there: nothing, or a man of the
/// other side that is no king.
pub open spec fn may_land(pos: Position, t: int) -> bool {
    match pos.men[t] {
        None => true,
        Some((color, piece)) => color == pos.side_to_move.flip() && piece != Piece::King,
    }
}

/// The first of the men that give check.
pub open spec fn first_checker(pos: Position) -> int {
    pos.state.checkers.0.trailing_zeros() as int
}

/// Whether a man that lands on `t` answers the check: without check every square does, in
/// check the square of the first checker and the squares between it and the king.
pub open spec fn answers_check(pos: Position, check: bool, t: int) -> bool {
    !check || t == first_checker(pos) || lies_between(
        king_square(pos.men, pos.side_to_move),
        first_checker(pos),
        t,
    )
}

/// Whether a move from `from` to `to` keeps a pinned man on the line through its king and
/// itself; a man that is not pinned goes where it likes.
pub open spec fn respects_pin(pos: Position, from: int, to: int) -> bool {
    !member(pos.state.pinned.0, from) || crate::geometry::on_line(
        king_square(pos.men, pos.side_to_move),
        from,
        to,
    )
}

/// Whether a piece of a kind on `from` reaches `to` over the occupied squares `occ`: a
/// knight by its jump, a king by its step, a bishop, rook or queen along a free line. Pawns
/// reach nothing in this sense.
pub open spec fn reaches(piece: Piece, occ: u64, from: int, to: int) -> bool {
    match piece {
        Piece::Pawn => false,
        Piece::Knight => crate::geometry::knight_jump(from, to),
        Piece::Bishop => crate::geometry::bishop_sees(occ, from, to),
        Piece::Rook => crate::geometry::rook_sees(occ, from, to),
        Piece::Queen => crate::geometry::bishop_sees(occ, from, to) || crate::geometry::rook_sees(
            occ,
            from,
            to,
        ),
        Piece::King => crate::geometry::king_step(from, to),
    }
}

/// The king of the side to move of a well-formed board, found among its sets.
pub fn king_of_side(board: &Board) -> (r: Square)
    requires
        board.wf(),
    ensures
        r.index() == king_square(board.men(), board.side_to_move),
        king_at(board.men(), board.side_to_move, r.index()),
{
    let side = board.side_to_move();
    let ghost men = board.men();
    let kings = BitBoard(board.pieces(Piece::King).0 & board.occupancies(side).0);
    proof {
        crate::laws::lemma_wf_sound(board@);
        let w = choose|w: int| #[trigger]
            king_at(men, side, w) && forall|j: int| #[trigger] king_at(men, side, j) ==> j == w;
        lemma_class_members(board.pieces, board.occupancies, board.combined, side, Piece::King, w);
        lemma_member_zero(w);
    }
    let king_square = kings.bit_scan();
    proof {
        lemma_class_members(
            board.pieces,
            board.occupancies,
            board.combined,
            side,
            Piece::King,
            king_square.index(),
        );
        lemma_king_square(men, side, king_square.index());
    }
    king_square
}

/// The squares on which a man answers the check: all of them without check, else the first
/// checker and what lies between it and the king.
pub fn check_mask(board: &Board, check: bool, king: Square) -> (r: BitBoard)
    requires
        board.wf(),
        check ==> board.state.checkers.0 != 0,
        king.index() == king_square(board.men(), board.side_to_move),
    ensures
        forall|t: int| member(r.0, t) == (0 <= t < 64 && answers_check(board@, check, t)),
{
    if check {
        let checker = board.checkers().bit_scan();
        proof {
            lemma_lowest(board.state.checkers.0);
        }
        let r = BitBoard(between(king, checker).0 | BitBoard::from_square(checker).0);
        proof {
            broadcast use group_member;

            assert forall|t: int|
                member(r.0, t) == (0 <= t < 64 && answers_check(board@, check, t)) by {}
        }
        r
    } else {
        let r = BitBoard(!0u64);
        proof {
            broadcast use group_member;

            assert forall|t: int|
                member(r.0, t) == (0 <= t < 64 && answers_check(board@, check, t)) by {}
        }
        r
    }
}

/// The squares to which the man on `source` may go as far as a pin goes: all of them if it
/// is not pinned, else the line through its king and itself.
pub fn pin_mask(board: &Board, source: Square, king: Square) -> (r: BitBoard)
    requires
        king.index() == king_square(board.men(), board.side_to_move),
    ensures
        forall|t: int|
            member(r.0, t) == (0 <= t < 64 && respects_pin(board@, source.index(), t)),
{
    let r = if board.pinned().has_square(source) {
        crate::tables::line_through(king, source)
    } else {
        BitBoard(!0u64)
    };
    proof {
        broadcast use group_member;

        assert forall|t: int|
            member(r.0, t) == (0 <= t < 64 && respects_pin(board@, source.index(), t)) by {}
    }
    r
}

/// The squares on which a man of the side to move may land: those that hold no man of its
/// own side and no king.
pub fn landing_mask(board: &Board) -> (r: BitBoard)
    requires
        board.squares_ok(),
    ensures
        forall|t: int| member(r.0, t) == (0 <= t < 64 && may_land(board@, t)),
{
    let own: u64 = board.occupancies(board.side_to_move()).0;
    let r = BitBoard(!own & !board.pieces(Piece::King).0);
    proof {
        broadcast use group_member;

        assert forall|t: int| member(r.0, t) == (0 <= t < 64 && may_land(board@, t)) by {
            if 0 <= t < 64 {
                lemma_class_members(
                    board.pieces,
                    board.occupancies,
                    board.combined,
                    board.side_to_move,
                    Piece::King,
                    t,
                );
                lemma_class_members(
                    board.pieces,
                    board.occupancies,
                    board.combined,
                    board.side_to_move.flip(),
                    Piece::King,
                    t,
                );
            }
        }
    }
    r
}

/// Whether a man of kind `piece` and color `by` on `from` attacks `to` over the occupied
/// squares `occ`.
pub open spec fn hits(piece: Piece, by: Color, occ: u64, from: int, to: int) -> bool {
    match piece {
        Piece::Pawn => crate::geometry::pawn_hits(by, from, to),
        _ => reaches(piece, occ, from, to),
    }
}

/// Whether a man of color `by` stands on `s` and attacks `target` over the occupied squares
/// `occ`.
pub open spec fn attacker_on(
    men: Seq<Option<(Color, Piece)>>,
    occ: u64,
    by: Color,
    target: int,
    s: int,
) -> bool {
    0 <= s < 64 && (men[s] matches Some((color, piece)) && color == by && hits(
        piece,
        by,
        occ,
        s,
        target,
    ))
}

/// Whether some man of color `by` attacks `target` over the occupied squares `occ`.
pub open spec fn attacked_by(men: Seq<Option<(Color, Piece)>>, occ: u64, by: Color, target: int) -> bool {
    exists|s: int| attacker_on(men, occ, by, target, s)
}

/// Attacks along lines, jumps and steps look the same from either end, and a pawn attacks
/// where a pawn of the other color on the target would attack it.
pub proof fn lemma_attacks_mirror(by: Color, occ: u64, a: int, b: int)
    ensures
        crate::geometry::pawn_hits(by, a, b) == crate::geometry::pawn_hits(by.flip(), b, a),
        crate::geometry::knight_jump(a, b) == crate::geometry::knight_jump(b, a),
        crate::geometry::king_step(a, b) == crate::geometry::king_step(b, a),
        crate::geometry::rook_sees(occ, a, b) == crate::geometry::rook_sees(occ, b, a),
        crate::geometry::bishop_sees(occ, a, b) == crate::geometry::bishop_sees(occ, b, a),
{
    assert forall|t: int| lies_between(a, b, t) == lies_between(b, a, t) by {}
    assert(clear_between(occ, a, b) == clear_between(occ, b, a)) by {
        if clear_between(occ, a, b) {
            assert forall|t: int| lies_between(b, a, t) implies !member(occ, t) by {
                assert(lies_between(a, b, t));
            }
        }
        if clear_between(occ, b, a) {
            assert forall|t: int| lies_between(a, b, t) implies !member(occ, t) by {
                assert(lies_between(b, a, t));
            }
        }
    }
}

/// The men of color `by` that attack `target` when `occupancy` holds the occupied squares.
#[verifier::rlimit(60)]
pub fn attackers_to(board: &Board, target: Square, occupancy: BitBoard, by: Color) -> (r: BitBoard)
    requires
        board.squares_ok(),
    ensures
        forall|s: int|
            member(r.0, s) == attacker_on(board.men(), occupancy.0, by, target.index(), s),
        (r.0 != 0) == attacked_by(board.men(), occupancy.0, by, target.index()),
{
    let theirs: u64 = board.occupancies(by).0;
    let pawns: u64 = get_pawn_attacks(target, by.opposite()).0 & board.pieces(Piece::Pawn).0;
    let knights: u64 = get_knight_attacks(target).0 & board.pieces(Piece::Knight).0;
    let kings: u64 = get_king_attacks(target).0 & board.pieces(Piece::King).0;
    let diagonal: u64 = get_bishop_attacks(target, occupancy).0 & (board.pieces(Piece::Bishop).0
        | board.pieces(Piece::Queen).0);
    let straight: u64 = get_rook_attacks(target, occupancy).0 & (board.pieces(Piece::Rook).0
        | board.pieces(Piece::Queen).0);
    let r: u64 = (pawns | knights | kings | diagonal | straight) & theirs;
    proof {
        broadcast use group_member;

        let men = board.men();
        assert forall|s: int|
            member(r, s) == attacker_on(men, occupancy.0, by, target.index(), s) by {
            if 0 <= s < 64 {
                lemma_attacks_mirror(by, occupancy.0, s, target.index());
                lemma_class_members(board.pieces, board.occupancies, board.combined, by, Piece::Pawn, s);
                lemma_class_members(board.pieces, board.occupancies, board.combined, by, Piece::Knight, s);
                lemma_class_members(board.pieces, board.occupancies, board.combined, by, Piece::Bishop, s);
                lemma_class_members(board.pieces, board.occupancies, board.combined, by, Piece::Rook, s);
                lemma_class_members(board.pieces, board.occupancies, board.combined, by, Piece::Queen, s);
                lemma_class_members(board.pieces, board.occupancies, board.combined, by, Piece::King, s);
            }
        }
        if r != 0 {
            lemma_lowest(r);
            assert(attacker_on(men, occupancy.0, by, target.index(), r.trailing_zeros() as int));
        } else {
            assert forall|s: int| !attacker_on(men, occupancy.0, by, target.index(), s) by {
                lemma_member_zero(s);
                assert(!member(r, s));
            }
        }
    }
    BitBoard(r)
}

} // verus!
