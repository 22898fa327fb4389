use vstd::prelude::*;
use crate::color::Color;

verus! {

/// The six kinds of chess men.
#[derive(Debug, Copy, Clone, PartialEq, Eq, Structural)]
pub enum Piece {
    Pawn,
    Knight,
    Bishop,
    Rook,
    Queen,
    King,
}

pub const NUM_PIECES: usize = 6;

pub const ALL_PIECES: [Piece; 6] = [
    Piece::Pawn,
    Piece::Knight,
    Piece::Bishop,
    Piece::Rook,
    Piece::Queen,
    Piece::King,
];

impl Piece {
    /// Position of the piece in per-piece tables, 0 (pawn) to 5 (king).
    pub open spec fn index(self) -> int {
        match self {
            Piece::Pawn => 0,
            Piece::Knight => 1,
            Piece::Bishop => 2,
            Piece::Rook => 3,
            Piece::Queen => 4,
            Piece::King => 5,
        }
    }

    /// The piece with a given table index; indices past 5 give the king.
    pub open spec fn at(i: int) -> Piece {
        if i == 0 {
            Piece::Pawn
        } else if i == 1 {
            Piece::Knight
        } else if i == 2 {
            Piece::Bishop
        } else if i == 3 {
            Piece::Rook
        } else if i == 4 {
            Piece::Queen
        } else {
            Piece::King
        }
    }

    /// The letter of the piece in algebraic notation, upper case.
    pub open spec fn letter(self) -> char {
        match self {
            Piece::Pawn => 'P',
            Piece::Knight => 'N',
            Piece::Bishop => 'B',
            Piece::Rook => 'R',
            Piece::Queen => 'Q',
            Piece::King => 'K',
        }
    }

    /// The lower-case letter of the piece.
    pub open spec fn small_letter(self) -> char {
        match self {
            Piece::Pawn => 'p',
            Piece::Knight => 'n',
            Piece::Bishop => 'b',
            Piece::Rook => 'r',
            Piece::Queen => 'q',
            Piece::King => 'k',
        }
    }

    /// The ASCII symbol of a man: upper case for White, lower case for Black.
    pub open spec fn ascii_symbol(self, color: Color) -> char {
        match color {
            Color::White => self.letter(),
            Color::Black => self.small_letter(),
        }
    }

    /// The Unicode chess symbol of a man.
    pub open spec fn unicode_symbol(self, color: Color) -> char {
        match (color, self) {
            (Color::White, Piece::Pawn) => '♙',
            (Color::White, Piece::Knight) => '♘',
            (Color::White, Piece::Bishop) => '♗',
            (Color::White, Piece::Rook) => '♖',
            (Color::White, Piece::Queen) => '♕',
            (Color::White, Piece::King) => '♔',
            (Color::Black, Piece::Pawn) => '♟',
            (Color::Black, Piece::Knight) => '♞',
            (Color::Black, Piece::Bishop) => '♝',
            (Color::Black, Piece::Rook) => '♜',
            (Color::Black, Piece::Queen) => '♛',
            (Color::Black, Piece::King) => '♚',
        }
    }

    pub fn to_index(self) -> (r: usize)
        ensures
            r == self.index(),
            r < NUM_PIECES,
    {
        match self {
            Piece::Pawn => 0,
            Piece::Knight => 1,
            Piece::Bishop => 2,
            Piece::Rook => 3,
            Piece::Queen => 4,
            Piece::King => 5,
        }
    }

    pub fn from_index(i: usize) -> (r: Piece)
        requires
            i < NUM_PIECES,
        ensures
            r == Piece::at(i as int),
            r.index() == i,
    {
        ALL_PIECES[i]
    }

    pub fn to_unicode(&self, color: Color) -> (r: char)
        ensures
            r == self.unicode_symbol(color),
    {
        match (color, *self) {
            (Color::White, Piece::Pawn) => '♙',
            (Color::White, Piece::Knight) => '♘',
            (Color::White, Piece::Bishop) => '♗',
            (Color::White, Piece::Rook) => '♖',
            (Color::White, Piece::Queen) => '♕',
            (Color::White, Piece::King) => '♔',
            (Color::Black, Piece::Pawn) => '♟',
            (Color::Black, Piece::Knight) => '♞',
            (Color::Black, Piece::Bishop) => '♝',
            (Color::Black, Piece::Rook) => '♜',
            (Color::Black, Piece::Queen) => '♛',
            (Color::Black, Piece::King) => '♚',
        }
    }

    pub fn to_ascii(&self, color: Color) -> (r: char)
        ensures
            r == self.ascii_symbol(color),
    {
        match (color, *self) {
            (Color::White, Piece::Pawn) => 'P',
            (Color::White, Piece::Knight) => 'N',
            (Color::White, Piece::Bishop) => 'B',
            (Color::White, Piece::Rook) => 'R',
            (Color::White, Piece::Queen) => 'Q',
            (Color::White, Piece::King) => 'K',
            (Color::Black, Piece::Pawn) => 'p',
            (Color::Black, Piece::Knight) => 'n',
            (Color::Black, Piece::Bishop) => 'b',
            (Color::Black, Piece::Rook) => 'r',
            (Color::Black, Piece::Queen) => 'q',
            (Color::Black, Piece::King) => 'k',
        }
    }
}

} // verus!
