//! Counters that describe the effort of one search.

use vstd::prelude::*;

verus! {

/// The counters of one search. They describe the search and steer nothing.
#[derive(Clone, Copy, Debug, PartialEq, Eq, Structural)]
pub struct SearchTelemetry {
    /// Entries removed from the frontier and examined.
    pub nodes_evaluated: u64,
    /// Entries put into the frontier, the first one included.
    pub heap_pushes: u64,
    /// Entries removed from the frontier.
    pub heap_pops: u64,
    /// Neighbors inside the grid that were looked at, blocked or not.
    pub neighbors_checked: u64,
}

impl SearchTelemetry {
    /// All counters at zero.
    pub fn new() -> (t: SearchTelemetry)
        ensures
            t.nodes_evaluated == 0,
            t.heap_pushes == 0,
            t.heap_pops == 0,
            t.neighbors_checked == 0,
    {
        SearchTelemetry { nodes_evaluated: 0, heap_pushes: 0, heap_pops: 0, neighbors_checked: 0 }
    }
}

} // verus!
