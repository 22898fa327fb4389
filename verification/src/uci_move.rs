use vstd::prelude::*;
use crate::chess_move::{Move, Promotion};
use crate::square::Square;

verus! {

/// A move as the engine protocol names it: by its two squares and what a pawn becomes.
#[derive(Debug, Copy, Clone, PartialEq, Eq, Structural)]
pub struct UCIMove {
    pub from: Square,
    pub to: Square,
    pub promotion: Option<Promotion>,
}

impl UCIMove {
    /// Whether the protocol's move names the move `m`.
    pub open spec fn names(self, m: Move) -> bool {
        self.from == m.from && self.to == m.to && self.promotion == m.promotion
    }

    /// Whether the protocol's move names the move `m`.
    pub fn matches(&self, m: &Move) -> (r: bool)
        ensures
            r == self.names(*m),
    {
        self.from == m.from && self.to == m.to && self.promotion == m.promotion
    }

    /// The name that the protocol gives to a move.
    pub fn of(m: &Move) -> (r: UCIMove)
        ensures
            r.names(*m),
            r.from == m.from,
            r.to == m.to,
            r.promotion == m.promotion,
    {
        UCIMove { from: m.from, to: m.to, promotion: m.promotion }
    }
}

} // verus!
