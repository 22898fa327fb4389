use vstd::prelude::*;
use crate::color::Color;

verus! {

/// The 64 squares, rank by rank from White's side: `A1` is 0, `H1` is 7, `H8` is 63.
#[derive(Debug, Copy, Clone, PartialEq, Eq, Structural)]
pub enum Square {
    A1, B1, C1, D1, E1, F1, G1, H1,
    A2, B2, C2, D2, E2, F2, G2, H2,
    A3, B3, C3, D3, E3, F3, G3, H3,
    A4, B4, C4, D4, E4, F4, G4, H4,
    A5, B5, C5, D5, E5, F5, G5, H5,
    A6, B6, C6, D6, E6, F6, G6, H6,
    A7, B7, C7, D7, E7, F7, G7, H7,
    A8, B8, C8, D8, E8, F8, G8, H8,
}

pub const NUM_SQUARES: usize = 64;

impl Square {
    /// The number of the square, 0 to 63: eight times the rank plus the file.
    pub open spec fn index(self) -> int {
        match self {
            Square::A1 => 0, Square::B1 => 1, Square::C1 => 2, Square::D1 => 3, Square::E1 => 4, Square::F1 => 5, Square::G1 => 6, Square::H1 => 7,
            Square::A2 => 8, Square::B2 => 9, Square::C2 => 10, Square::D2 => 11, Square::E2 => 12, Square::F2 => 13, Square::G2 => 14, Square::H2 => 15,
            Square::A3 => 16, Square::B3 => 17, Square::C3 => 18, Square::D3 => 19, Square::E3 => 20, Square::F3 => 21, Square::G3 => 22, Square::H3 => 23,
            Square::A4 => 24, Square::B4 => 25, Square::C4 => 26, Square::D4 => 27, Square::E4 => 28, Square::F4 => 29, Square::G4 => 30, Square::H4 => 31,
            Square::A5 => 32, Square::B5 => 33, Square::C5 => 34, Square::D5 => 35, Square::E5 => 36, Square::F5 => 37, Square::G5 => 38, Square::H5 => 39,
            Square::A6 => 40, Square::B6 => 41, Square::C6 => 42, Square::D6 => 43, Square::E6 => 44, Square::F6 => 45, Square::G6 => 46, Square::H6 => 47,
            Square::A7 => 48, Square::B7 => 49, Square::C7 => 50, Square::D7 => 51, Square::E7 => 52, Square::F7 => 53, Square::G7 => 54, Square::H7 => 55,
            Square::A8 => 56, Square::B8 => 57, Square::C8 => 58, Square::D8 => 59, Square::E8 => 60, Square::F8 => 61, Square::G8 => 62, Square::H8 => 63,
        }
    }

    /// The square with a given number; numbers outside 0..64 give `H8`.
    pub open spec fn at(i: int) -> Square {
        Self::at_rank(i / 8, i % 8)
    }

    /// The square on a given rank and file (both 0 to 7).
    pub open spec fn at_rank(rank: int, file: int) -> Square {
        if rank == 0 {
            if file == 0 { Square::A1 } else if file == 1 { Square::B1 } else if file == 2 { Square::C1 } else if file == 3 { Square::D1 } else
            if file == 4 { Square::E1 } else if file == 5 { Square::F1 } else if file == 6 { Square::G1 } else { Square::H1 }
        } else if rank == 1 {
            if file == 0 { Square::A2 } else if file == 1 { Square::B2 } else if file == 2 { Square::C2 } else if file == 3 { Square::D2 } else
            if file == 4 { Square::E2 } else if file == 5 { Square::F2 } else if file == 6 { Square::G2 } else { Square::H2 }
        } else if rank == 2 {
            if file == 0 { Square::A3 } else if file == 1 { Square::B3 } else if file == 2 { Square::C3 } else if file == 3 { Square::D3 } else
            if file == 4 { Square::E3 } else if file == 5 { Square::F3 } else if file == 6 { Square::G3 } else { Square::H3 }
        } else if rank == 3 {
            if file == 0 { Square::A4 } else if file == 1 { Square::B4 } else if file == 2 { Square::C4 } else if file == 3 { Square::D4 } else
            if file == 4 { Square::E4 } else if file == 5 { Square::F4 } else if file == 6 { Square::G4 } else { Square::H4 }
        } else if rank == 4 {
            if file == 0 { Square::A5 } else if file == 1 { Square::B5 } else if file == 2 { Square::C5 } else if file == 3 { Square::D5 } else
            if file == 4 { Square::E5 } else if file == 5 { Square::F5 } else if file == 6 { Square::G5 } else { Square::H5 }
        } else if rank == 5 {
            if file == 0 { Square::A6 } else if file == 1 { Square::B6 } else if file == 2 { Square::C6 } else if file == 3 { Square::D6 } else
            if file == 4 { Square::E6 } else if file == 5 { Square::F6 } else if file == 6 { Square::G6 } else { Square::H6 }
        } else if rank == 6 {
            if file == 0 { Square::A7 } else if file == 1 { Square::B7 } else if file == 2 { Square::C7 } else if file == 3 { Square::D7 } else
            if file == 4 { Square::E7 } else if file == 5 { Square::F7 } else if file == 6 { Square::G7 } else { Square::H7 }
        } else {
            if file == 0 { Square::A8 } else if file == 1 { Square::B8 } else if file == 2 { Square::C8 } else if file == 3 { Square::D8 } else
            if file == 4 { Square::E8 } else if file == 5 { Square::F8 } else if file == 6 { Square::G8 } else { Square::H8 }
        }
    }

    /// File of the square, 0 (a) to 7 (h).
    pub open spec fn file_index(self) -> int {
        self.index() % 8
    }

    /// Rank of the square, 0 (first rank) to 7 (eighth rank).
    pub open spec fn rank_index(self) -> int {
        self.index() / 8
    }

    /// The square one step ahead as a pawn of `color` sees it, if there is one.
    pub open spec fn ahead(self, color: Color) -> Option<Square> {
        let r = self.rank_index() + color.pawn_step();
        if 0 <= r < 8 {
            Some(Square::at(self.index() + 8 * color.pawn_step()))
        } else {
            None
        }
    }

    pub fn to_index(self) -> (r: u8)
        ensures
            r == self.index(),
            r < 64,
    {
        match self {
            Square::A1 => 0, Square::B1 => 1, Square::C1 => 2, Square::D1 => 3, Square::E1 => 4, Square::F1 => 5, Square::G1 => 6, Square::H1 => 7,
            Square::A2 => 8, Square::B2 => 9, Square::C2 => 10, Square::D2 => 11, Square::E2 => 12, Square::F2 => 13, Square::G2 => 14, Square::H2 => 15,
            Square::A3 => 16, Square::B3 => 17, Square::C3 => 18, Square::D3 => 19, Square::E3 => 20, Square::F3 => 21, Square::G3 => 22, Square::H3 => 23,
            Square::A4 => 24, Square::B4 => 25, Square::C4 => 26, Square::D4 => 27, Square::E4 => 28, Square::F4 => 29, Square::G4 => 30, Square::H4 => 31,
            Square::A5 => 32, Square::B5 => 33, Square::C5 => 34, Square::D5 => 35, Square::E5 => 36, Square::F5 => 37, Square::G5 => 38, Square::H5 => 39,
            Square::A6 => 40, Square::B6 => 41, Square::C6 => 42, Square::D6 => 43, Square::E6 => 44, Square::F6 => 45, Square::G6 => 46, Square::H6 => 47,
            Square::A7 => 48, Square::B7 => 49, Square::C7 => 50, Square::D7 => 51, Square::E7 => 52, Square::F7 => 53, Square::G7 => 54, Square::H7 => 55,
            Square::A8 => 56, Square::B8 => 57, Square::C8 => 58, Square::D8 => 59, Square::E8 => 60, Square::F8 => 61, Square::G8 => 62, Square::H8 => 63,
        }
    }

    pub fn from_index(i: u8) -> (r: Square)
        requires
            i < 64,
        ensures
            r == Square::at(i as int),
            r.index() == i,
    {
        match i {
            0 => Square::A1, 1 => Square::B1, 2 => Square::C1, 3 => Square::D1, 4 => Square::E1, 5 => Square::F1, 6 => Square::G1, 7 => Square::H1,
            8 => Square::A2, 9 => Square::B2, 10 => Square::C2, 11 => Square::D2, 12 => Square::E2, 13 => Square::F2, 14 => Square::G2, 15 => Square::H2,
            16 => Square::A3, 17 => Square::B3, 18 => Square::C3, 19 => Square::D3, 20 => Square::E3, 21 => Square::F3, 22 => Square::G3, 23 => Square::H3,
            24 => Square::A4, 25 => Square::B4, 26 => Square::C4, 27 => Square::D4, 28 => Square::E4, 29 => Square::F4, 30 => Square::G4, 31 => Square::H4,
            32 => Square::A5, 33 => Square::B5, 34 => Square::C5, 35 => Square::D5, 36 => Square::E5, 37 => Square::F5, 38 => Square::G5, 39 => Square::H5,
            40 => Square::A6, 41 => Square::B6, 42 => Square::C6, 43 => Square::D6, 44 => Square::E6, 45 => Square::F6, 46 => Square::G6, 47 => Square::H6,
            48 => Square::A7, 49 => Square::B7, 50 => Square::C7, 51 => Square::D7, 52 => Square::E7, 53 => Square::F7, 54 => Square::G7, 55 => Square::H7,
            56 => Square::A8, 57 => Square::B8, 58 => Square::C8, 59 => Square::D8, 60 => Square::E8, 61 => Square::F8, 62 => Square::G8,
            _ => Square::H8,
        }
    }

    /// The square on a rank and a file, both counted from 0.
    pub fn from(rank: u8, file: u8) -> (r: Square)
        requires
            rank < 8,
            file < 8,
        ensures
            r == Square::at_rank(rank as int, file as int),
            r.index() == 8 * rank + file,
    {
        Square::from_index(rank * 8 + file)
    }

    pub fn file(self) -> (r: u8)
        ensures
            r == self.file_index(),
            r < 8,
    {
        self.to_index() % 8
    }

    pub fn rank(self) -> (r: u8)
        ensures
            r == self.rank_index(),
            r < 8,
    {
        self.to_index() / 8
    }

    /// The square one step ahead for a pawn of `color`; `None` at the edge of the board.
    pub fn forward(self, color: Color) -> (r: Option<Square>)
        ensures
            r == self.ahead(color),
    {
        let i: u8 = self.to_index();
        match color {
            Color::White => if i < 56 {
                Some(Square::from_index(i + 8))
            } else {
                None
            },
            Color::Black => if i >= 8 {
                Some(Square::from_index(i - 8))
            } else {
                None
            },
        }
    }
}

/// `Square::at` and `Square::index` are inverse to each other on 0..64.
pub proof fn lemma_square_index_roundtrip(s: Square)
    ensures
        0 <= s.index() < 64,
        Square::at(s.index()) == s,
{
}

/// Every number from 0 to 63 is the index of the square that `Square::at` gives for it.
pub proof fn lemma_square_at_index(i: int)
    requires
        0 <= i < 64,
    ensures
        Square::at(i).index() == i,
{
}

} // verus!
