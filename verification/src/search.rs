//! The executable search: A* over the four-connected grid, from the start
//! corner to the goal corner.

use crate::cell_map::CellMap;
use crate::config::GridConfig;
use crate::frontier::{lemma_least_unique, Entry, Frontier};
use crate::grid::{cell, cells_of, cut_off, heuristic, is_shortest_route, lemma_neighbor, neighbor, Grid};
use crate::laws::{theorem_counters, theorem_shortest_route};
use crate::model::{
    ancestor, enough_rounds, finished, init, least, lineage, outcome, relax, relax_upto, run, search, step, take,
    Outcome, SearchState,
};
use crate::obstacles::ObstacleStore;
use crate::soundness::{
    inv, lemma_ancestor, lemma_bounds, lemma_init, lemma_relax, lemma_relax_upto, lemma_stays_at_rest, lemma_take,
};
use crate::telemetry::SearchTelemetry;
use vstd::multiset::Multiset;
use vstd::prelude::*;

verus! {

/// A cost map of machine integers as a map to integers.
pub open spec fn costs_of(m: Map<(int, int), i32>) -> Map<(int, int), int> {
    Map::new(|c: (int, int)| m.contains_key(c), |c: (int, int)| m[c] as int)
}

/// A predecessor map of machine integers as a map to cells of the grid.
pub open spec fn parents_of(m: Map<(int, int), (i32, i32)>) -> Map<(int, int), (int, int)> {
    Map::new(|c: (int, int)| m.contains_key(c), |c: (int, int)| cell(m[c]))
}

/// The grid that a configuration and a store of blocked cells describe.
pub open spec fn grid_of(config: &GridConfig, obstacles: &ObstacleStore) -> Grid {
    Grid { size: config.size() as int, blocked: obstacles@ }
}

/// What a search handed back, as an outcome of the model.
pub open spec fn report(res: (Option<Vec<(i32, i32)>>, u64, SearchTelemetry)) -> Outcome {
    Outcome {
        path: match res.0 {
            Some(p) => Some(cells_of(p@)),
            None => None,
        },
        nodes_evaluated: res.2.nodes_evaluated as nat,
        heap_pushes: res.2.heap_pushes as nat,
        heap_pops: res.2.heap_pops as nat,
        neighbors_checked: res.2.neighbors_checked as nat,
    }
}

/// The executable state holds what the state of the model holds.
spec fn mirrors(
    st: SearchState,
    open: Multiset<(int, int, int)>,
    g: Map<(int, int), i32>,
    parent: Map<(int, int), (i32, i32)>,
    nodes_evaluated: u64,
    heap_pushes: u64,
    heap_pops: u64,
    neighbors_checked: u64,
) -> bool {
    &&& open == st.open
    &&& costs_of(g) == st.g
    &&& parents_of(parent) == st.parent
    &&& nodes_evaluated == st.nodes_evaluated
    &&& heap_pushes == st.heap_pushes
    &&& heap_pops == st.heap_pops
    &&& neighbors_checked == st.neighbors_checked
}

/// The step in direction `i`: right, left, up, down for 0, 1, 2, 3.
fn offset(i: u8) -> (d: (i32, i32))
    requires
        i < 4,
    ensures
        cell(d) == neighbor((0, 0), i as int),
{
    if i == 0 {
        (1, 0)
    } else if i == 1 {
        (-1, 0)
    } else if i == 2 {
        (0, 1)
    } else {
        (0, -1)
    }
}

/// Follows the recorded predecessors from `current` back to a cell that has
/// none, and returns the cells passed in reverse: from that cell to `current`.
pub fn reconstruct_path(came_from: &CellMap<(i32, i32)>, current: (i32, i32)) -> (path: Vec<(i32, i32)>)
    requires
        exists|d: nat|
            !parents_of(came_from@).contains_key(#[trigger] ancestor(parents_of(came_from@), cell(current), d)),
    ensures
        path@.len() >= 1,
        !parents_of(came_from@).contains_key(
            ancestor(parents_of(came_from@), cell(current), (path@.len() - 1) as nat),
        ),
        forall|j: nat|
            j < path@.len() - 1 ==> parents_of(came_from@).contains_key(
                #[trigger] ancestor(parents_of(came_from@), cell(current), j),
            ),
        cells_of(path@) == lineage(parents_of(came_from@), cell(current), path@.len() as nat),
{
    let ghost parents = parents_of(came_from@);
    let ghost origin = cell(current);
    let ghost depth = choose|d: nat| !parents.contains_key(#[trigger] ancestor(parents, origin, d));
    let mut total_path: Vec<(i32, i32)> = Vec::new();
    total_path.push(current);
    let mut cursor = current;
    let mut at_root = false;
    while !at_root
        invariant
            parents == parents_of(came_from@),
            origin == cell(current),
            !parents.contains_key(ancestor(parents, origin, depth)),
            total_path@.len() >= 1,
            total_path@.len() - 1 <= depth,
            cursor == total_path@[total_path@.len() - 1],
            forall|j: int|
                0 <= j < total_path@.len() ==> cell(#[trigger] total_path@[j]) == ancestor(
                    parents,
                    origin,
                    j as nat,
                ),
            forall|j: nat| j < total_path@.len() - 1 ==> parents.contains_key(#[trigger] ancestor(parents, origin, j)),
            at_root ==> !parents.contains_key(ancestor(parents, origin, (total_path@.len() - 1) as nat)),
        decreases
                depth - (total_path@.len() - 1) + (if at_root {
                    0int
                } else {
                    1int
                }),
    {
        let ghost here = (total_path@.len() - 1) as nat;
        assert(cell(cursor) == ancestor(parents, origin, here));
        match came_from.get(cursor.0, cursor.1) {
            Some(prev) => {
                assert(parents.contains_key(cell(cursor)));
                assert(parents[cell(cursor)] == cell(*prev));
                assert(ancestor(parents, origin, here + 1) == cell(*prev));
                cursor = *prev;
                total_path.push(cursor);
            },
            None => {
                at_root = true;
            },
        }
    }
    let mut path: Vec<(i32, i32)> = Vec::new();
    let mut k: usize = total_path.len();
    while k > 0
        invariant
            k <= total_path@.len(),
            path@.len() == total_path@.len() - k,
            forall|i: int| 0 <= i < path@.len() ==> path@[i] == total_path@[total_path@.len() - 1 - i],
        decreases k,
    {
        k = k - 1;
        path.push(total_path[k]);
    }
    proof {
        assert(cells_of(path@) =~= lineage(parents, origin, path@.len() as nat));
    }
    path
}

/// Searches a shortest route from the start corner to the goal corner.
///
/// Returns the route, or `None` where the grid has none, the number of nodes
/// evaluated, and the telemetry. The result is the one that the model
/// defines: equal inputs give equal routes and equal counters.
pub fn find_path_core(config: &GridConfig, obstacles: &ObstacleStore) -> (res: (
    Option<Vec<(i32, i32)>>,
    u64,
    SearchTelemetry,
))
    requires
        obstacles.size() == config.size(),
    ensures
        grid_of(config, obstacles).wf(),
        report(res) == search(grid_of(config, obstacles)),
        res.1 == res.2.nodes_evaluated,
        match res.0 {
            Some(p) => is_shortest_route(grid_of(config, obstacles), cells_of(p@)) && cells_of(p@).no_duplicates(),
            None => cut_off(grid_of(config, obstacles)),
        },
        res.2.heap_pops == res.2.nodes_evaluated,
        res.2.heap_pushes >= res.2.heap_pops,
        res.2.neighbors_checked <= 4 * res.2.nodes_evaluated,
{
    let n = obstacles.size();
    let start = config.start();
    let goal = config.goal();
    let ghost grid = grid_of(config, obstacles);
    assert(grid.wf());
    let mut open_set = Frontier::new();
    let mut came_from: CellMap<(i32, i32)> = CellMap::new();
    let mut g_score: CellMap<i32> = CellMap::new();
    let mut nodes_evaluated: u64 = 0;
    let mut heap_pushes: u64 = 0;
    let mut heap_pops: u64 = 0;
    let mut neighbors_checked: u64 = 0;

    open_set.push(Entry { f: 0, x: start.0, y: start.1 });
    heap_pushes += 1;
    g_score.insert(start.0, start.1, 0);

    let ghost mut st = init(grid);
    let ghost mut rounds: nat = 0;
    proof {
        lemma_init(grid);
        assert(costs_of(g_score@) =~= st.g);
        assert(parents_of(came_from@) =~= st.parent);
    }
    while !open_set.is_empty()
        invariant
            grid == grid_of(config, obstacles),
            grid.wf(),
            n == grid.size,
            10 <= n <= 5000,
            goal.0 == n - 1,
            goal.1 == n - 1,
            st == run(grid, rounds),
            rounds == st.heap_pops,
            !st.found,
            inv(grid, st, 4),
            open_set.wf(),
            mirrors(
                st,
                open_set@,
                g_score@,
                came_from@,
                nodes_evaluated,
                heap_pushes,
                heap_pops,
                neighbors_checked,
            ),
        decreases 4 * grid.size * grid.size + 2 - st.heap_pops,
    {
        let ghost t = take(grid, st);
        proof {
            lemma_take(grid, st);
            lemma_bounds(grid, st, 4);
            lemma_bounds(grid, t, 0);
            assert(4 * grid.size * grid.size <= 100_000_000) by (nonlinear_arith)
                requires
                    1 <= grid.size <= 5000,
            ;
        }
        let e = open_set.pop().unwrap();
        proof {
            lemma_least_unique(st.open, e.key(), least(st.open));
        }
        let current = (e.x, e.y);
        heap_pops += 1;
        nodes_evaluated += 1;
        assert(cell(current) == t.current);
        assert(mirrors(
            t,
            open_set@,
            g_score@,
            came_from@,
            nodes_evaluated,
            heap_pushes,
            heap_pops,
            neighbors_checked,
        ));

        if current.0 == goal.0 && current.1 == goal.1 {
            proof {
                assert(t.found);
                assert(step(grid, st) == t);
                assert(run(grid, rounds + 1) == t);
                assert(4 * grid.size * grid.size + 2 >= 0) by (nonlinear_arith)
                    requires
                        grid.size >= 1,
                ;
                lemma_stays_at_rest(grid, rounds + 1, enough_rounds(grid));
                assert(t.g.contains_key(grid.goal()));
                lemma_ancestor(grid, t, 0, grid.goal(), t.g[grid.goal()] as nat);
            }
            let path = reconstruct_path(&came_from, current);
            proof {
                let depth = t.g[grid.goal()] as nat;
                let len = (path@.len() - 1) as nat;
                if len < depth {
                    lemma_ancestor(grid, t, 0, grid.goal(), len + 1);
                }
                if depth < len {
                    assert(t.parent.contains_key(ancestor(t.parent, grid.goal(), depth)));
                }
                assert(len == depth);
            }
            let telemetry = SearchTelemetry { nodes_evaluated, heap_pushes, heap_pops, neighbors_checked };
            assert(report((Some(path), nodes_evaluated, telemetry)) == outcome(grid, t));
            proof {
                theorem_shortest_route(grid);
                theorem_counters(grid);
            }
            return (Some(path), nodes_evaluated, telemetry);
        }
        let current_g: i32 = match g_score.get(current.0, current.1) {
            Some(v) => *v,
            None => i32::MAX,
        };
        let ghost mut mid = t;
        let mut i: u8 = 0;
        while i < 4
            invariant
                grid == grid_of(config, obstacles),
                grid.wf(),
                n == grid.size,
                10 <= n <= 5000,
                goal.0 == n - 1,
                goal.1 == n - 1,
                0 <= i <= 4,
                inv(grid, t, 0),
                !t.found,
                mid == relax_upto(grid, t, i as int),
                !mid.found,
                inv(grid, mid, i as int),
                mid.current == cell(current),
                mid.g.contains_key(mid.current),
                current_g == mid.g[mid.current],
                open_set.wf(),
                mirrors(
                    mid,
                    open_set@,
                    g_score@,
                    came_from@,
                    nodes_evaluated,
                    heap_pushes,
                    heap_pops,
                    neighbors_checked,
                ),
            decreases 4 - i,
        {
            let ghost next = relax(grid, mid, i as int);
            proof {
                lemma_relax_upto(grid, t, i as int + 1);
                lemma_relax(grid, mid, i as int);
                lemma_bounds(grid, mid, i as int);
                lemma_bounds(grid, next, i as int + 1);
                lemma_neighbor(mid.current, i as int);
                assert(next == relax_upto(grid, t, i as int + 1));
                assert(grid.contains(mid.current));
                assert(4 * grid.size * grid.size <= 100_000_000) by (nonlinear_arith)
                    requires
                        1 <= grid.size <= 5000,
                ;
                assert(grid.size * grid.size <= 25_000_000) by (nonlinear_arith)
                    requires
                        1 <= grid.size <= 5000,
                ;
            }
            let d = offset(i);
            let nx: i32 = current.0 + d.0;
            let ny: i32 = current.1 + d.1;
            assert((nx as int, ny as int) == neighbor(mid.current, i as int));
            if !(nx < 0 || ny < 0 || nx >= n || ny >= n) {
                neighbors_checked += 1;
                if !obstacles.contains(nx, ny) {
                    let tentative_g: i32 = current_g + 1;
                    let known: i32 = match g_score.get(nx, ny) {
                        Some(v) => *v,
                        None => i32::MAX,
                    };
                    if tentative_g < known {
                        came_from.insert(nx, ny, current);
                        g_score.insert(nx, ny, tentative_g);
                        let f: i32 = tentative_g + heuristic((nx, ny), goal);
                        open_set.push(Entry { f, x: nx, y: ny });
                        heap_pushes += 1;
                        proof {
                            assert(costs_of(g_score@) =~= next.g);
                            assert(parents_of(came_from@) =~= next.parent);
                        }
                    }
                }
            }
            proof {
                mid = next;
            }
            i += 1;
        }
        proof {
            assert(step(grid, st) == mid);
            st = mid;
            rounds = rounds + 1;
        }
    }
    proof {
        assert(finished(st));
        lemma_bounds(grid, st, 4);
        lemma_stays_at_rest(grid, rounds, enough_rounds(grid));
        theorem_shortest_route(grid);
        theorem_counters(grid);
    }
    let telemetry = SearchTelemetry { nodes_evaluated, heap_pushes, heap_pops, neighbors_checked };
    assert(report((None, nodes_evaluated, telemetry)) == outcome(grid, st));
    (None, nodes_evaluated, telemetry)
}

} // verus!
