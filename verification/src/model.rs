//! The search as a state machine on mathematical values.
//!
//! A state holds what the search has recorded so far; `step` removes the
//! least frontier entry and relaxes the four neighbors of its cell. The
//! search result is defined by running the machine from `init` until it has
//! certainly come to rest.

use crate::frontier::is_least;
use crate::grid::{manhattan, neighbor, Grid};
use vstd::multiset::Multiset;
use vstd::prelude::*;

verus! {

/// What the search has recorded at some moment.
///
/// `g`, `parent` and `open` are the cost map, the predecessor map and the
/// frontier, `current` is the cell of the entry removed last, and `found`
/// says whether that cell was the goal. The four counters are the telemetry.
/// `closed`, `popped`, `floor` and `fresh` are bookkeeping that the search
/// never reads: the cells expanded so far, the entries removed so far, the
/// estimate of the entry removed last, and whether its cell was expanded for
/// the first time.
pub struct SearchState {
    pub g: Map<(int, int), int>,
    pub parent: Map<(int, int), (int, int)>,
    pub open: Multiset<(int, int, int)>,
    pub closed: Set<(int, int)>,
    pub popped: Set<(int, int, int)>,
    pub floor: int,
    pub current: (int, int),
    pub fresh: bool,
    pub nodes_evaluated: nat,
    pub heap_pushes: nat,
    pub heap_pops: nat,
    pub neighbors_checked: nat,
    pub found: bool,
}

/// The heuristic: Manhattan distance to the goal.
pub open spec fn h(grid: Grid, c: (int, int)) -> int {
    manhattan(c, grid.goal())
}

/// The state before the first step: only the start is known, at cost 0, and
/// the frontier holds it under the estimate 0.
pub open spec fn init(grid: Grid) -> SearchState {
    SearchState {
        g: Map::<(int, int), int>::empty().insert(grid.start(), 0),
        parent: Map::<(int, int), (int, int)>::empty(),
        open: Multiset::<(int, int, int)>::empty().insert((0, grid.start().0, grid.start().1)),
        closed: Set::<(int, int)>::empty(),
        popped: Set::<(int, int, int)>::empty(),
        floor: 0,
        current: grid.start(),
        fresh: false,
        nodes_evaluated: 0,
        heap_pushes: 1,
        heap_pops: 0,
        neighbors_checked: 0,
        found: false,
    }
}

/// The search has come to rest: the goal was removed from the frontier, or
/// the frontier is exhausted.
pub open spec fn finished(s: SearchState) -> bool {
    s.found || s.open.len() == 0
}

/// The least entry of a frontier.
pub open spec fn least(open: Multiset<(int, int, int)>) -> (int, int, int) {
    choose|k: (int, int, int)| is_least(open, k)
}

/// Removes the least entry from the frontier and makes its cell current.
pub open spec fn take(grid: Grid, s: SearchState) -> SearchState {
    let e = least(s.open);
    let c = (e.1, e.2);
    SearchState {
        open: s.open.remove(e),
        closed: s.closed.insert(c),
        popped: s.popped.insert(e),
        floor: e.0,
        current: c,
        fresh: !s.closed.contains(c),
        nodes_evaluated: s.nodes_evaluated + 1,
        heap_pops: s.heap_pops + 1,
        found: c == grid.goal(),
        ..s
    }
}

/// Examines the neighbor of the current cell in direction `i`: a neighbor
/// outside the grid is passed over; one inside is counted; a free one whose
/// recorded cost the current cell improves gets the new cost, the current
/// cell as predecessor, and a frontier entry.
pub open spec fn relax(grid: Grid, s: SearchState, i: int) -> SearchState {
    let n = neighbor(s.current, i);
    if !grid.contains(n) {
        s
    } else {
        let counted = SearchState { neighbors_checked: s.neighbors_checked + 1, ..s };
        let tentative = s.g[s.current] + 1;
        if grid.blocked.contains(n) {
            counted
        } else if s.g.contains_key(n) && s.g[n] <= tentative {
            counted
        } else {
            SearchState {
                g: s.g.insert(n, tentative),
                parent: s.parent.insert(n, s.current),
                open: s.open.insert((tentative + h(grid, n), n.0, n.1)),
                heap_pushes: s.heap_pushes + 1,
                ..counted
            }
        }
    }
}

/// The state after the first `i` of the four relaxations.
pub open spec fn relax_upto(grid: Grid, s: SearchState, i: int) -> SearchState
    decreases i,
{
    if i <= 0 {
        s
    } else {
        relax(grid, relax_upto(grid, s, i - 1), i - 1)
    }
}

/// One round of the search. A state at rest stays as it is.
pub open spec fn step(grid: Grid, s: SearchState) -> SearchState {
    if finished(s) {
        s
    } else {
        let t = take(grid, s);
        if t.found {
            t
        } else {
            relax_upto(grid, t, 4)
        }
    }
}

/// The state after `k` rounds.
pub open spec fn run(grid: Grid, k: nat) -> SearchState
    decreases k,
{
    if k == 0 {
        init(grid)
    } else {
        step(grid, run(grid, (k - 1) as nat))
    }
}

/// A number of rounds after which the search is certainly at rest.
pub open spec fn enough_rounds(grid: Grid) -> nat {
    (4 * grid.size * grid.size + 2) as nat
}

/// The cell found by following predecessors `j` times from `c`.
pub open spec fn ancestor(parent: Map<(int, int), (int, int)>, c: (int, int), j: nat) -> (int, int)
    decreases j,
{
    if j == 0 {
        c
    } else {
        parent[ancestor(parent, c, (j - 1) as nat)]
    }
}

/// The cells from the `len - 1`-th ancestor of `c` down to `c` itself.
pub open spec fn lineage(parent: Map<(int, int), (int, int)>, c: (int, int), len: nat) -> Seq<(int, int)> {
    Seq::new(len, |i: int| ancestor(parent, c, (len - 1 - i) as nat))
}

/// What a search hands back: the route, if one was found, and the telemetry.
pub struct Outcome {
    pub path: Option<Seq<(int, int)>>,
    pub nodes_evaluated: nat,
    pub heap_pushes: nat,
    pub heap_pops: nat,
    pub neighbors_checked: nat,
}

/// What a state at rest hands back.
pub open spec fn outcome(grid: Grid, s: SearchState) -> Outcome {
    Outcome {
        path: if s.found {
            Some(lineage(s.parent, grid.goal(), (s.g[grid.goal()] + 1) as nat))
        } else {
            None
        },
        nodes_evaluated: s.nodes_evaluated,
        heap_pushes: s.heap_pushes,
        heap_pops: s.heap_pops,
        neighbors_checked: s.neighbors_checked,
    }
}

/// The result of the search on a grid.
pub open spec fn search(grid: Grid) -> Outcome {
    outcome(grid, run(grid, enough_rounds(grid)))
}

} // verus!
