use vstd::prelude::*;
use crate::piece::Piece;
use crate::square::Square;

verus! {

/// How a move is to be carried out on the board.
#[derive(Debug, Copy, Clone, PartialEq, Eq, Structural)]
pub enum MoveFlag {
    Normal,
    Capture,
    DoublePawnPush,
    EnPassant,
    Castling,
}

/// The pieces a pawn can turn into.
#[derive(Debug, Copy, Clone, PartialEq, Eq, Structural)]
pub enum Promotion {
    Knight,
    Bishop,
    Rook,
    Queen,
}

pub const ALL_PROMOTIONS: [Promotion; 4] = [
    Promotion::Knight,
    Promotion::Bishop,
    Promotion::Rook,
    Promotion::Queen,
];

impl Promotion {
    /// The piece that the pawn becomes.
    pub open spec fn piece(self) -> Piece {
        match self {
            Promotion::Knight => Piece::Knight,
            Promotion::Bishop => Piece::Bishop,
            Promotion::Rook => Piece::Rook,
            Promotion::Queen => Piece::Queen,
        }
    }

    /// The letter of the promotion in a move string.
    pub open spec fn letter(self) -> char {
        match self {
            Promotion::Knight => 'n',
            Promotion::Bishop => 'b',
            Promotion::Rook => 'r',
            Promotion::Queen => 'q',
        }
    }

    pub fn as_piece(self) -> (r: Piece)
        ensures
            r == self.piece(),
    {
        match self {
            Promotion::Knight => Piece::Knight,
            Promotion::Bishop => Piece::Bishop,
            Promotion::Rook => Piece::Rook,
            Promotion::Queen => Piece::Queen,
        }
    }

    pub fn to_char(self) -> (r: char)
        ensures
            r == self.letter(),
    {
        match self {
            Promotion::Knight => 'n',
            Promotion::Bishop => 'b',
            Promotion::Rook => 'r',
            Promotion::Queen => 'q',
        }
    }
}

/// A move: the squares, the piece that moves, what a pawn becomes, and how to carry it out.
#[derive(Debug, Copy, Clone, PartialEq, Eq, Structural)]
pub struct Move {
    pub from: Square,
    pub to: Square,
    pub piece: Piece,
    pub promotion: Option<Promotion>,
    pub flags: MoveFlag,
}

impl Move {
    /// The piece that stands on the target square once the move is made.
    pub open spec fn arriving_piece(self) -> Piece {
        match self.promotion {
            Some(p) => p.piece(),
            None => self.piece,
        }
    }
}

} // verus!
