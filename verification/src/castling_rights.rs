use vstd::prelude::*;
use crate::color::Color;
use crate::square::Square;

verus! {

/// White may still castle on the king's side.
pub const WHITE_KING_SIDE: u8 = 1;

/// White may still castle on the queen's side.
pub const WHITE_QUEEN_SIDE: u8 = 2;

/// Black may still castle on the king's side.
pub const BLACK_KING_SIDE: u8 = 4;

/// Black may still castle on the queen's side.
pub const BLACK_QUEEN_SIDE: u8 = 8;

pub const WHITE_BOTH_SIDES: u8 = 3;

pub const BLACK_BOTH_SIDES: u8 = 12;

pub const ALL_RIGHTS: u8 = 15;

/// The castling rights of both sides as a mask of four bits.
#[derive(Debug, Copy, Clone, PartialEq, Eq, Structural)]
pub struct CastlingRights(pub u8);

/// The rights that survive when a rook leaves or reaches square `sq`, or is taken there: a
/// rook's corner ends the right on that wing, every other square ends none.
pub open spec fn kept_rights(sq: int) -> u8 {
    if sq == 0 {
        13
    } else if sq == 7 {
        14
    } else if sq == 56 {
        7
    } else if sq == 63 {
        11
    } else {
        15
    }
}

/// The rights that survive the move of a rook between the squares `from` and `to`.
pub open spec fn kept_between(from: int, to: int) -> u8 {
    kept_rights(from) & kept_rights(to)
}

/// Both rights of a side.
pub open spec fn both_sides(color: Color) -> u8 {
    match color {
        Color::White => WHITE_BOTH_SIDES,
        Color::Black => BLACK_BOTH_SIDES,
    }
}

/// Whether every right of `a` is a right of `b`.
pub open spec fn rights_within(a: u8, b: u8) -> bool {
    a & b == a
}

/// Masking rights keeps them a 4-bit mask and never adds one.
pub proof fn lemma_rights_shrink(r: u8, m: u8)
    ensures
        rights_within(r & m, r),
        rights_within(r & !m, r),
        r < 16 ==> (r & m) < 16 && (r & !m) < 16,
        r & 15 == r <==> r < 16,
{
    assert((r & m) & r == r & m && (r & !m) & r == r & !m && (r < 16 ==> (r & m) < 16 && (r & !m)
        < 16) && (r & 15 == r <==> r < 16)) by (bit_vector);
}

impl CastlingRights {
    /// A mask is valid when it uses the four low bits only.
    pub open spec fn wf(self) -> bool {
        self.0 < 16
    }

    /// Whether the right `flag` (one of the four single rights) is held.
    pub open spec fn holds(self, flag: u8) -> bool {
        self.0 & flag != 0
    }

    pub fn none() -> (r: CastlingRights)
        ensures
            r.0 == 0,
    {
        CastlingRights(0)
    }

    pub fn all() -> (r: CastlingRights)
        ensures
            r.0 == ALL_RIGHTS,
    {
        CastlingRights(ALL_RIGHTS)
    }

    pub fn to_usize(self) -> (r: usize)
        ensures
            r == self.0,
    {
        self.0 as usize
    }

    pub fn contains(self, flag: u8) -> (r: bool)
        ensures
            r == self.holds(flag),
    {
        self.0 & flag != 0
    }

    /// The rights that are in both masks.
    pub fn intersection(self, other: CastlingRights) -> (r: CastlingRights)
        ensures
            r.0 == self.0 & other.0,
            rights_within(r.0, self.0),
            self.wf() ==> r.wf(),
    {
        proof {
            lemma_rights_shrink(self.0, other.0);
        }
        CastlingRights(self.0 & other.0)
    }

    /// The rights that are in either mask.
    pub fn union(self, other: CastlingRights) -> (r: CastlingRights)
        ensures
            r.0 == self.0 | other.0,
    {
        CastlingRights(self.0 | other.0)
    }

    /// The rights of `self` that are not in `other`.
    pub fn without(self, other: CastlingRights) -> (r: CastlingRights)
        ensures
            r.0 == self.0 & !other.0,
            rights_within(r.0, self.0),
            self.wf() ==> r.wf(),
    {
        proof {
            lemma_rights_shrink(self.0, other.0);
        }
        CastlingRights(self.0 & !other.0)
    }

    /// The rights that a rook leaves standing when it leaves or reaches `sq` or is taken
    /// there.
    pub fn kept_after(sq: Square) -> (r: CastlingRights)
        ensures
            r.0 == kept_rights(sq.index()),
    {
        match sq {
            Square::A1 => CastlingRights(13),
            Square::H1 => CastlingRights(14),
            Square::A8 => CastlingRights(7),
            Square::H8 => CastlingRights(11),
            _ => CastlingRights(15),
        }
    }

    /// Both rights of one side.
    pub fn of_side(color: Color) -> (r: CastlingRights)
        ensures
            r.0 == both_sides(color),
    {
        match color {
            Color::White => CastlingRights(WHITE_BOTH_SIDES),
            Color::Black => CastlingRights(BLACK_BOTH_SIDES),
        }
    }
}

} // verus!
