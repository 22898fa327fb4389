use vstd::prelude::*;

verus! {

/// The two sides of a game.
#[derive(Debug, Copy, Clone, PartialEq, Eq, Structural)]
pub enum Color {
    White,
    Black,
}

pub const NUM_COLORS: usize = 2;

pub const ALL_COLORS: [Color; 2] = [Color::White, Color::Black];

impl Color {
    /// Position of the color in per-color tables: White is 0, Black is 1.
    pub open spec fn index(self) -> int {
        match self {
            Color::White => 0,
            Color::Black => 1,
        }
    }

    /// The color with a given table index; indices past 0 give Black.
    pub open spec fn at(i: int) -> Color {
        if i == 0 {
            Color::White
        } else {
            Color::Black
        }
    }

    /// The other side.
    pub open spec fn flip(self) -> Color {
        match self {
            Color::White => Color::Black,
            Color::Black => Color::White,
        }
    }

    /// Rank (0-based) on which the side's pieces start.
    pub open spec fn home_rank(self) -> int {
        match self {
            Color::White => 0,
            Color::Black => 7,
        }
    }

    /// Rank step of a pawn of this side: up the board for White, down for Black.
    pub open spec fn pawn_step(self) -> int {
        match self {
            Color::White => 1,
            Color::Black => -1,
        }
    }

    pub fn to_index(self) -> (r: usize)
        ensures
            r == self.index(),
            r < NUM_COLORS,
    {
        match self {
            Color::White => 0,
            Color::Black => 1,
        }
    }

    pub fn opposite(self) -> (r: Color)
        ensures
            r == self.flip(),
    {
        match self {
            Color::White => Color::Black,
            Color::Black => Color::White,
        }
    }

    /// Rank (0-based) of the side's back rank.
    pub fn backrank(self) -> (r: u8)
        ensures
            r == self.home_rank(),
    {
        match self {
            Color::White => 0,
            Color::Black => 7,
        }
    }

    /// Rank (0-based) on which a pawn of this side lands after a double push.
    pub fn double_pawn_push_rank(self) -> (r: u8)
        ensures
            r == self.home_rank() + 3 * self.pawn_step(),
    {
        match self {
            Color::White => 3,
            Color::Black => 4,
        }
    }
}

} // verus!
