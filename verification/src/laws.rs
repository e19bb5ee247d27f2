//! What holds of the result of every search.

use crate::grid::{
    cut_off, is_route, is_shortest_route, lemma_column_barrier, lemma_open_grid_reach, lemma_reach_lower_bound,
    lemma_row_barrier, lemma_walk_reach, reach, Grid,
};
use crate::model::{enough_rounds, finished, h, lineage, run, search, SearchState};
use crate::search::report;
use crate::telemetry::SearchTelemetry;
use crate::soundness::{
    cell_of, cells, estimate, inv, lemma_bounds, lemma_cells_finite, lemma_comes_to_rest, lemma_frontier_bound,
    lemma_lineage, lemma_run_stable, stable,
};
use vstd::prelude::*;
use vstd::relations::injective_on;
use vstd::set_lib::{lemma_len_subset, lemma_map_size};

verus! {

/// The state in which the search comes to rest.
pub open spec fn resting_state(grid: Grid) -> SearchState {
    run(grid, enough_rounds(grid))
}

/// The search comes to rest in a state that meets the invariant.
pub proof fn lemma_resting_state(grid: Grid)
    requires
        grid.wf(),
    ensures
        finished(resting_state(grid)),
        stable(grid, resting_state(grid)),
        resting_state(grid).found ==> inv(grid, resting_state(grid), 0),
        !resting_state(grid).found ==> inv(grid, resting_state(grid), 4) && resting_state(grid).open.len() == 0,
{
    lemma_comes_to_rest(grid);
    lemma_run_stable(grid, enough_rounds(grid));
}

/// A route that the search returns begins at the start, ends at the goal,
/// moves one unit along one axis at a time through free cells, visits no cell
/// twice, and is as short as any route. Where the search returns none, the
/// grid has none.
pub proof fn theorem_shortest_route(grid: Grid)
    requires
        grid.wf(),
    ensures
        match search(grid).path {
            Some(p) => is_shortest_route(grid, p) && p.no_duplicates(),
            None => cut_off(grid),
        },
{
    reveal(inv);
    let s = resting_state(grid);
    let goal = grid.goal();
    lemma_resting_state(grid);
    if s.found {
        assert(s.closed.contains(goal));
        assert(s.g.contains_key(goal));
        lemma_lineage(grid, s, 0, goal);
        let p = lineage(s.parent, goal, (s.g[goal] + 1) as nat);
        assert forall|q: Seq<(int, int)>| #[trigger] is_route(grid, q) implies p.len() <= q.len() by {
            lemma_walk_reach(grid, q);
            assert(reach(grid, goal, (q.len() - 1) as nat));
        }
    } else {
        assert forall|q: Seq<(int, int)>| !#[trigger] is_route(grid, q) by {
            if is_route(grid, q) {
                lemma_walk_reach(grid, q);
                let k = (q.len() - 1) as nat;
                assert forall|e: (int, int, int)| s.open.count(e) > 0 implies k + h(grid, goal) + 1 <= e.0 by {
                    assert(s.open.count(e) <= s.open.len());
                }
                lemma_frontier_bound(grid, s, k + h(grid, goal) + 1, goal, k);
            }
        }
    }
}

/// Every removal from the frontier is an evaluation, nothing is removed that
/// was not pushed, and at most four neighbors are checked per evaluation.
pub proof fn theorem_counters(grid: Grid)
    requires
        grid.wf(),
    ensures
        search(grid).heap_pops == search(grid).nodes_evaluated,
        search(grid).heap_pushes >= search(grid).heap_pops,
        search(grid).neighbors_checked <= 4 * search(grid).nodes_evaluated,
        search(grid).heap_pushes <= 4 * grid.size * grid.size + 1,
{
    reveal(inv);
    let s = resting_state(grid);
    lemma_resting_state(grid);
    if s.found {
        lemma_bounds(grid, s, 0);
    } else {
        lemma_bounds(grid, s, 4);
    }
}

/// Where a whole row is blocked, the search returns no route.
pub proof fn theorem_row_barrier(grid: Grid, row: int)
    requires
        grid.wf(),
        0 <= row < grid.size,
        forall|x: int| 0 <= x < grid.size ==> #[trigger] grid.blocked.contains((x, row)),
    ensures
        search(grid).path is None,
{
    theorem_shortest_route(grid);
    if let Some(p) = search(grid).path {
        lemma_walk_reach(grid, p);
        lemma_row_barrier(grid, row, grid.goal(), (p.len() - 1) as nat);
    }
}

/// Where a whole column is blocked, the search returns no route.
pub proof fn theorem_column_barrier(grid: Grid, column: int)
    requires
        grid.wf(),
        0 <= column < grid.size,
        forall|y: int| 0 <= y < grid.size ==> #[trigger] grid.blocked.contains((column, y)),
    ensures
        search(grid).path is None,
{
    theorem_shortest_route(grid);
    if let Some(p) = search(grid).path {
        lemma_walk_reach(grid, p);
        lemma_column_barrier(grid, column, grid.goal(), (p.len() - 1) as nat);
    }
}

/// On a grid without blocked cells the search returns a route of
/// `2 * size - 1` cells and evaluates at most `size * size` nodes.
pub proof fn theorem_open_grid(grid: Grid)
    requires
        grid.wf(),
        forall|b: (int, int)| !grid.blocked.contains(b),
    ensures
        search(grid).path is Some,
        search(grid).path->0.len() == 2 * grid.size - 1,
        search(grid).nodes_evaluated <= grid.size * grid.size,
{
    reveal(inv);
    let s = resting_state(grid);
    let goal = grid.goal();
    let far = 2 * grid.size - 2;
    lemma_resting_state(grid);
    lemma_open_grid_reach(grid, goal);
    assert(reach(grid, goal, far as nat));
    if !s.found {
        assert forall|e: (int, int, int)| s.open.count(e) > 0 implies far + h(grid, goal) + 1 <= e.0 by {
            assert(s.open.count(e) <= s.open.len());
        }
        lemma_frontier_bound(grid, s, far + h(grid, goal) + 1, goal, far as nat);
    }
    assert(s.closed.contains(goal));
    assert(s.g.contains_key(goal));
    lemma_reach_lower_bound(grid, goal, s.g[goal] as nat);
    assert(s.g[goal] == far);
    assert(s.floor == far);
    let f = |e: (int, int, int)| cell_of(e);
    assert forall|e: (int, int, int)| #[trigger] s.popped.contains(e) implies e.0 == (if cell_of(e) == grid.start() {
        0
    } else {
        far
    }) && cells(grid).contains(cell_of(e)) by {
        let c = cell_of(e);
        assert(s.closed.contains(c));
        assert(s.g.contains_key(c));
        lemma_reach_lower_bound(grid, c, s.g[c] as nat);
        assert(estimate(grid, s, c) <= e.0 <= s.floor);
    }
    assert(injective_on(f, s.popped)) by {
        assert forall|a: (int, int, int), b: (int, int, int)|
            s.popped.contains(a) && s.popped.contains(b) && #[trigger] f(a) == #[trigger] f(b) implies a == b by {
            assert(cell_of(a) == cell_of(b));
        }
    }
    let image = s.popped.map(f);
    lemma_map_size(s.popped, image, f);
    lemma_cells_finite(grid);
    assert(image.subset_of(cells(grid))) by {
        assert forall|c: (int, int)| image.contains(c) implies cells(grid).contains(c) by {
            let e = choose|e: (int, int, int)| s.popped.contains(e) && c == f(e);
            assert(cells(grid).contains(cell_of(e)));
        }
    }
    lemma_len_subset(image, cells(grid));
}

/// Both are absent, or both are present and hold the same cells in the same
/// order.
pub open spec fn same_route(a: Option<Vec<(i32, i32)>>, b: Option<Vec<(i32, i32)>>) -> bool {
    match (a, b) {
        (Some(p), Some(q)) => p@ == q@,
        (None, None) => true,
        _ => false,
    }
}

/// Two searches on one grid hand back the same route and the same counters.
pub proof fn theorem_deterministic(
    grid: Grid,
    a: (Option<Vec<(i32, i32)>>, u64, SearchTelemetry),
    b: (Option<Vec<(i32, i32)>>, u64, SearchTelemetry),
)
    requires
        report(a) == search(grid),
        a.1 == a.2.nodes_evaluated,
        report(b) == search(grid),
        b.1 == b.2.nodes_evaluated,
    ensures
        same_route(a.0, b.0),
        a.1 == b.1,
        a.2 == b.2,
{
    assert(report(a).path == report(b).path);
    match (a.0, b.0) {
        (Some(p), Some(q)) => {
            let x = crate::grid::cells_of(p@);
            let y = crate::grid::cells_of(q@);
            assert(x == y);
            assert(p@.len() == x.len());
            assert(q@.len() == y.len());
            assert forall|i: int| 0 <= i < p@.len() implies p@[i] == q@[i] by {
                assert(x[i] == y[i]);
            }
            assert(p@ =~= q@);
        },
        _ => {},
    }
    assert(report(a).nodes_evaluated == report(b).nodes_evaluated);
    assert(report(a).heap_pushes == report(b).heap_pushes);
    assert(report(a).heap_pops == report(b).heap_pops);
    assert(report(a).neighbors_checked == report(b).neighbors_checked);
}

} // verus!
