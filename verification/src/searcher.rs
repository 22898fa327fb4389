use vstd::prelude::*;
use crate::board::Board;

verus! {

/// What bounds a search: each bound that is set ends the search when it is reached.
#[derive(Debug, Copy, Clone, PartialEq, Eq, Structural)]
pub struct SearchLimits {
    /// Greatest depth of the search in plies.
    pub depth: Option<u8>,
    /// Greatest number of positions that the search looks at.
    pub nodes: Option<u64>,
    /// Time for the move in milliseconds.
    pub move_time: Option<u64>,
}

impl SearchLimits {
    /// Limits that bound nothing.
    pub fn none() -> (r: SearchLimits)
        ensures
            r.depth.is_none(),
            r.nodes.is_none(),
            r.move_time.is_none(),
    {
        SearchLimits { depth: None, nodes: None, move_time: None }
    }

    /// Limits that bound the depth only.
    pub fn to_depth(depth: u8) -> (r: SearchLimits)
        ensures
            r.depth == Some(depth),
            r.nodes.is_none(),
            r.move_time.is_none(),
    {
        SearchLimits { depth: Some(depth), nodes: None, move_time: None }
    }
}

/// What the front-end asks of a searcher: to start a search on a board within limits, to
/// stop it, and to forget what earlier searches have stored.
pub trait Searcher: Sized {
    fn new() -> Self;

    fn clear_tables(&mut self);

    fn initiate_search(&self, board: Board, limits: SearchLimits);

    fn stop_search(&mut self);
}

} // verus!
