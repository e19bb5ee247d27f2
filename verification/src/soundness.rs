//! What holds of every state that the search passes through.

use crate::frontier::{is_least, key_le, lemma_least_exists};
use crate::grid::{
    adjacent, is_walk, lemma_manhattan_step, lemma_neighbor, lemma_reach_step, neighbor, opposite, reach, Grid,
};
use crate::model::{
    ancestor, enough_rounds, finished, h, init, least, lineage, relax, relax_upto, run, step, take, SearchState,
};
use vstd::arithmetic::div_mod::{
    lemma_div_pos_is_pos, lemma_fundamental_div_mod_converse, lemma_mod_bound, lemma_multiply_divide_lt,
};
use vstd::set_lib::{lemma_int_range, lemma_len_subset, lemma_map_size_bound, set_int_range};
use vstd::prelude::*;

verus! {

/// The estimate under which a known cell enters the frontier: its cost plus
/// the heuristic, but 0 for the start.
pub open spec fn estimate(grid: Grid, s: SearchState, c: (int, int)) -> int {
    if c == grid.start() {
        0
    } else {
        s.g[c] + h(grid, c)
    }
}

/// The frontier entry that carries the recorded cost of `c`.
pub open spec fn entry_for(grid: Grid, s: SearchState, c: (int, int)) -> (int, int, int) {
    (estimate(grid, s, c), c.0, c.1)
}

/// The cell of a frontier entry.
pub open spec fn cell_of(e: (int, int, int)) -> (int, int) {
    (e.1, e.2)
}

/// The start is known at cost 0 and has no predecessor.
pub open spec fn inv_start(grid: Grid, s: SearchState) -> bool {
    s.g.contains_key(grid.start()) && s.g[grid.start()] == 0 && !s.parent.contains_key(grid.start())
}

/// Every known cell is free, and its cost is the length of some walk to it
/// and at most the number of expanded cells.
pub open spec fn inv_known(grid: Grid, s: SearchState) -> bool {
    forall|c: (int, int)| #[trigger]
        s.g.contains_key(c) ==> grid.free(c) && 0 <= s.g[c] <= s.closed.len() && reach(
            grid,
            c,
            s.g[c] as nat,
        )
}

/// Every known cell but the start has an expanded, adjacent predecessor
/// whose cost is one less.
pub open spec fn inv_parent(grid: Grid, s: SearchState) -> bool {
    forall|c: (int, int)| #[trigger]
        s.g.contains_key(c) && c != grid.start() ==> {
            &&& s.parent.contains_key(c)
            &&& s.closed.contains(s.parent[c])
            &&& adjacent(s.parent[c], c)
            &&& s.g[c] == s.g[s.parent[c]] + 1
        }
}

/// Every expanded cell is known, and its estimate does not exceed that of
/// the entry removed last.
pub open spec fn inv_closed(grid: Grid, s: SearchState) -> bool {
    &&& s.closed.finite()
    &&& forall|c: (int, int)| #[trigger]
        s.closed.contains(c) ==> s.g.contains_key(c) && estimate(grid, s, c) <= s.floor && s.g[c]
            < s.closed.len()
}

/// The neighbor of `c` in direction `i`, if free, is known at a cost of at
/// most one more than that of `c`.
pub open spec fn settled(grid: Grid, s: SearchState, c: (int, int), i: int) -> bool {
    grid.free(neighbor(c, i)) ==> s.g.contains_key(neighbor(c, i)) && s.g[neighbor(c, i)] <= s.g[c]
        + 1
}

/// Every neighbor of every expanded cell is settled, but for the directions
/// from `done` on of a current cell that is expanded for the first time.
pub open spec fn inv_neighbors(grid: Grid, s: SearchState, done: int) -> bool {
    forall|c: (int, int), i: int|
        s.closed.contains(c) && 0 <= i < 4 ==> #[trigger] settled(grid, s, c, i) || (c == s.current
            && i >= done && s.fresh)
}

/// Every known cell that is not expanded has the entry that carries its
/// cost in the frontier.
pub open spec fn inv_frontier(grid: Grid, s: SearchState) -> bool {
    forall|c: (int, int)| #[trigger]
        s.g.contains_key(c) && !s.closed.contains(c) ==> s.open.count(entry_for(grid, s, c)) > 0
}

/// Every frontier entry is of a known cell, carries at least its estimate
/// and at least the estimate removed last, occurs once, and was never removed.
pub open spec fn inv_open(grid: Grid, s: SearchState) -> bool {
    forall|e: (int, int, int)|
        #![trigger s.open.count(e)]
        s.open.count(e) > 0 ==> {
            &&& s.g.contains_key(cell_of(e))
            &&& e.0 >= estimate(grid, s, cell_of(e))
            &&& e.0 >= s.floor
            &&& s.open.count(e) == 1
            &&& !s.popped.contains(e)
            &&& (cell_of(e) == grid.start() ==> e.0 == 0)
        }
}

/// The removed entries are as many as the removals, and each is of an
/// expanded cell and lies between its estimate and the estimate removed last.
pub open spec fn inv_popped(grid: Grid, s: SearchState) -> bool {
    &&& s.popped.finite()
    &&& s.popped.len() == s.heap_pops
    &&& forall|e: (int, int, int)| #[trigger]
        s.popped.contains(e) ==> {
            &&& s.closed.contains(cell_of(e))
            &&& estimate(grid, s, cell_of(e)) <= e.0 <= s.floor
            &&& (cell_of(e) == grid.start() ==> e.0 == 0)
        }
}

/// How the counters relate to each other and to the number of expanded cells.
pub open spec fn inv_counts(grid: Grid, s: SearchState, done: int) -> bool {
    &&& s.nodes_evaluated == s.heap_pops
    &&& s.heap_pushes == s.heap_pops + s.open.len()
    &&& s.neighbors_checked + 4 <= 4 * s.heap_pops + done
    &&& if s.fresh {
        s.heap_pushes + 4 <= 4 * s.closed.len() + 1 + done
    } else {
        s.heap_pushes <= 4 * s.closed.len() + 1
    }
}

/// The cost of an expanded cell is the least number of steps in which it can
/// be reached.
pub open spec fn inv_optimal(grid: Grid, s: SearchState) -> bool {
    forall|c: (int, int), k: nat| s.closed.contains(c) && #[trigger] reach(grid, c, k) ==> s.g[c] <= k
}

/// The invariant of the search, after `done` of the four relaxations of the
/// current cell.
#[verifier::opaque]
pub open spec fn inv(grid: Grid, s: SearchState, done: int) -> bool {
    &&& 0 <= done <= 4
    &&& inv_start(grid, s)
    &&& inv_known(grid, s)
    &&& inv_parent(grid, s)
    &&& inv_closed(grid, s)
    &&& inv_neighbors(grid, s, done)
    &&& inv_frontier(grid, s)
    &&& inv_open(grid, s)
    &&& inv_popped(grid, s)
    &&& inv_counts(grid, s, done)
    &&& inv_optimal(grid, s)
    &&& (s.found <==> s.closed.contains(grid.goal()))
    &&& (s.found ==> s.fresh && s.current == grid.goal())
    &&& (s.fresh ==> estimate(grid, s, s.current) == s.floor)
    &&& (done < 4 ==> s.closed.contains(s.current))
}

/// The invariant between rounds: all four relaxations are done, unless the
/// goal was just removed from the frontier.
pub open spec fn stable(grid: Grid, s: SearchState) -> bool {
    if s.found {
        inv(grid, s, 0)
    } else {
        inv(grid, s, 4)
    }
}

/// The invariant holds before the first round.
pub proof fn lemma_init(grid: Grid)
    requires
        grid.wf(),
    ensures
        inv(grid, init(grid), 4),
{
    reveal(inv);
    let s = init(grid);
    assert(s.closed.len() == 0);
    assert(s.popped.len() == 0);
    assert(s.open.len() == 1);
    assert(reach(grid, grid.start(), 0));
    assert(entry_for(grid, s, grid.start()) == (0int, 0int, 0int));
    assert(s.open.count((0int, 0int, 0int)) == 1);
    assert forall|e: (int, int, int)| s.open.count(e) > 0 implies e == (0int, 0int, 0int) by {
        if e != (0int, 0int, 0int) {
            assert(s.open.count(e) == 0);
        }
    }
}

/// Between rounds, every cell that can be reached in `k` steps and is not
/// yet expanded has an estimate of at least `m`, for any `m` that exceeds
/// neither the frontier entries nor what the expanded cells allow.
pub proof fn lemma_frontier_bound(grid: Grid, s: SearchState, m: int, w: (int, int), k: nat)
    requires
        grid.wf(),
        inv(grid, s, 4),
        forall|e: (int, int, int)| s.open.count(e) > 0 ==> m <= e.0,
        reach(grid, w, k),
        !s.closed.contains(w),
    ensures
        m <= k + h(grid, w),
    decreases k,
{
    reveal(inv);
    if k == 0 {
        assert(w == grid.start());
        assert(s.g.contains_key(w));
        assert(s.open.count(entry_for(grid, s, w)) > 0);
    } else {
        let j = (k - 1) as nat;
        let i = if reach(grid, neighbor(w, 0), j) {
            0int
        } else if reach(grid, neighbor(w, 1), j) {
            1int
        } else if reach(grid, neighbor(w, 2), j) {
            2int
        } else {
            3int
        };
        let p = neighbor(w, i);
        assert(reach(grid, p, j));
        lemma_neighbor(w, i);
        lemma_manhattan_step(w, p, grid.goal());
        if s.closed.contains(p) {
            assert(s.g[p] <= j);
            assert(settled(grid, s, p, opposite(i)));
            assert(s.g.contains_key(w));
            assert(s.open.count(entry_for(grid, s, w)) > 0);
        } else {
            lemma_frontier_bound(grid, s, m, p, j);
        }
    }
}

/// Removing the least entry keeps the invariant, with all four relaxations
/// of the new current cell still to be done.
pub proof fn lemma_take(grid: Grid, s: SearchState)
    requires
        grid.wf(),
        inv(grid, s, 4),
        !finished(s),
    ensures
        is_least(s.open, least(s.open)),
        inv(grid, take(grid, s), 0),
{
    reveal(inv);
    let witness = lemma_least_exists(s.open);
    let e = least(s.open);
    assert(is_least(s.open, e));
    let c = cell_of(e);
    let t = take(grid, s);
    assert(s.open.count(e) == 1);
    assert(s.g.contains_key(c));
    assert(t.open.len() == s.open.len() - 1);
    assert(t.popped.len() == s.popped.len() + 1);
    assert forall|x: (int, int)| estimate(grid, t, x) == estimate(grid, s, x) by {}
    if !s.closed.contains(c) {
        assert(s.open.count(entry_for(grid, s, c)) > 0);
        assert(key_le(e, entry_for(grid, s, c)));
        assert(e.0 == estimate(grid, s, c));
        assert(t.closed.len() == s.closed.len() + 1);
        assert forall|k: nat| reach(grid, c, k) implies s.g[c] <= k by {
            assert forall|x: (int, int, int)| s.open.count(x) > 0 implies e.0 <= x.0 by {
                assert(key_le(e, x));
            }
            lemma_frontier_bound(grid, s, e.0, c, k);
        }
    } else {
        assert(t.closed =~= s.closed);
    }
    assert(inv_known(grid, t));
    assert(inv_parent(grid, t));
    assert(inv_closed(grid, t)) by {
        assert forall|x: (int, int)| #[trigger] t.closed.contains(x) implies t.g.contains_key(x)
            && estimate(grid, t, x) <= t.floor && t.g[x] < t.closed.len() by {
            if x != c {
                assert(s.closed.contains(x));
            }
        }
    }
    assert(inv_neighbors(grid, t, 0)) by {
        assert forall|x: (int, int), i: int| t.closed.contains(x) && 0 <= i < 4 implies #[trigger] settled(
            grid,
            t,
            x,
            i,
        ) || (x == t.current && i >= 0 && t.fresh) by {
            if s.closed.contains(x) {
                assert(settled(grid, s, x, i));
            }
        }
    }
    assert(inv_frontier(grid, t)) by {
        assert forall|x: (int, int)| #[trigger] t.g.contains_key(x) && !t.closed.contains(x) implies t.open.count(
            entry_for(grid, t, x),
        ) > 0 by {
            assert(!s.closed.contains(x));
            assert(s.open.count(entry_for(grid, s, x)) > 0);
            assert(entry_for(grid, s, x) != e);
        }
    }
    assert(inv_open(grid, t)) by {
        assert forall|x: (int, int, int)| t.open.count(x) > 0 implies {
            &&& t.g.contains_key(cell_of(x))
            &&& x.0 >= estimate(grid, t, cell_of(x))
            &&& x.0 >= t.floor
            &&& #[trigger] t.open.count(x) == 1
            &&& !t.popped.contains(x)
            &&& (cell_of(x) == grid.start() ==> x.0 == 0)
        } by {
            assert(s.open.count(x) > 0);
            assert(key_le(e, x));
            assert(x != e);
        }
    }
    assert(inv_popped(grid, t)) by {
        assert forall|x: (int, int, int)| #[trigger] t.popped.contains(x) implies {
            &&& t.closed.contains(cell_of(x))
            &&& estimate(grid, t, cell_of(x)) <= x.0 <= t.floor
            &&& (cell_of(x) == grid.start() ==> x.0 == 0)
        } by {
            if x != e {
                assert(s.popped.contains(x));
            }
        }
    }
    assert(inv_counts(grid, t, 0));
    assert(inv_optimal(grid, t)) by {
        assert forall|x: (int, int), k: nat| t.closed.contains(x) && #[trigger] reach(grid, x, k) implies t.g[x]
            <= k by {
            if x != c {
                assert(s.closed.contains(x));
            }
        }
    }
}

/// Relaxing the neighbor in direction `i` keeps the invariant and completes
/// one more of the four relaxations.
pub proof fn lemma_relax(grid: Grid, s: SearchState, i: int)
    requires
        grid.wf(),
        inv(grid, s, i),
        0 <= i < 4,
    ensures
        inv(grid, relax(grid, s, i), i + 1),
{
    reveal(inv);
    let c = s.current;
    let n = neighbor(c, i);
    let r = relax(grid, s, i);
    let tentative = s.g[c] + 1;
    lemma_neighbor(c, i);
    assert(s.closed.contains(c));
    assert(s.g.contains_key(c));
    assert(reach(grid, c, s.g[c] as nat));
    assert(settled(grid, s, c, i) || s.fresh);
    if grid.free(n) && !(s.g.contains_key(n) && s.g[n] <= tentative) {
        lemma_reach_step(grid, c, s.g[c] as nat, i);
        assert(reach(grid, n, tentative as nat));
        assert(s.fresh);
        assert(!s.closed.contains(n));
        assert(n != grid.start());
        assert(n != c);
        lemma_manhattan_step(c, n, grid.goal());
        let ne = (tentative + h(grid, n), n.0, n.1);
        assert(r.g == s.g.insert(n, tentative));
        assert(r.open == s.open.insert(ne));
        assert forall|x: (int, int)| x != n implies estimate(grid, r, x) == estimate(grid, s, x) by {}
        assert(estimate(grid, r, n) == ne.0);
        assert(s.open.count(ne) == 0) by {
            if s.open.count(ne) > 0 {
                assert(s.g.contains_key(cell_of(ne)));
                assert(ne.0 >= estimate(grid, s, cell_of(ne)));
            }
        }
        assert(!s.popped.contains(ne)) by {
            if s.popped.contains(ne) {
                assert(s.closed.contains(cell_of(ne)));
            }
        }
        assert(inv_known(grid, r)) by {
            assert forall|x: (int, int)| #[trigger] r.g.contains_key(x) implies grid.free(x) && 0 <= r.g[x]
                <= r.closed.len() && reach(grid, x, r.g[x] as nat) by {
                if x != n {
                    assert(s.g.contains_key(x));
                }
            }
        }
        assert(inv_parent(grid, r)) by {
            assert forall|x: (int, int)| #[trigger] r.g.contains_key(x) && x != grid.start() implies {
                &&& r.parent.contains_key(x)
                &&& r.closed.contains(r.parent[x])
                &&& adjacent(r.parent[x], x)
                &&& r.g[x] == r.g[r.parent[x]] + 1
            } by {
                if x != n {
                    assert(s.g.contains_key(x));
                    assert(s.closed.contains(s.parent[x]));
                }
            }
        }
        assert(inv_closed(grid, r)) by {
            assert forall|x: (int, int)| #[trigger] r.closed.contains(x) implies r.g.contains_key(x)
                && estimate(grid, r, x) <= r.floor && r.g[x] < r.closed.len() by {
                assert(s.closed.contains(x));
            }
        }
        assert(inv_neighbors(grid, r, i + 1)) by {
            assert forall|x: (int, int), j: int| r.closed.contains(x) && 0 <= j < 4 implies #[trigger] settled(
                grid,
                r,
                x,
                j,
            ) || (x == r.current && j >= i + 1 && r.fresh) by {
                assert(settled(grid, s, x, j) || (x == s.current && j >= i && s.fresh));
                assert(x != n);
            }
        }
        assert(inv_frontier(grid, r)) by {
            assert forall|x: (int, int)| #[trigger] r.g.contains_key(x) && !r.closed.contains(x) implies r.open.count(
                entry_for(grid, r, x),
            ) > 0 by {
                if x != n {
                    assert(s.g.contains_key(x));
                    assert(s.open.count(entry_for(grid, s, x)) > 0);
                }
            }
        }
        assert(inv_open(grid, r)) by {
            assert forall|x: (int, int, int)| r.open.count(x) > 0 implies {
                &&& r.g.contains_key(cell_of(x))
                &&& x.0 >= estimate(grid, r, cell_of(x))
                &&& x.0 >= r.floor
                &&& #[trigger] r.open.count(x) == 1
                &&& !r.popped.contains(x)
                &&& (cell_of(x) == grid.start() ==> x.0 == 0)
            } by {
                if x != ne {
                    assert(s.open.count(x) > 0);
                }
            }
        }
        assert(inv_popped(grid, r)) by {
            assert forall|x: (int, int, int)| #[trigger] r.popped.contains(x) implies {
                &&& r.closed.contains(cell_of(x))
                &&& estimate(grid, r, cell_of(x)) <= x.0 <= r.floor
                &&& (cell_of(x) == grid.start() ==> x.0 == 0)
            } by {
                assert(s.popped.contains(x));
            }
        }
        assert(inv_counts(grid, r, i + 1));
        assert(inv_optimal(grid, r)) by {
            assert forall|x: (int, int), k: nat| r.closed.contains(x) && #[trigger] reach(grid, x, k) implies r.g[x]
                <= k by {
                assert(s.closed.contains(x));
            }
        }
    } else {
        assert(settled(grid, s, c, i));
        assert(r.g == s.g && r.parent == s.parent && r.open == s.open && r.closed == s.closed && r.popped
            == s.popped);
        assert forall|x: (int, int)| estimate(grid, r, x) == estimate(grid, s, x) by {}
        assert(inv_neighbors(grid, r, i + 1)) by {
            assert forall|x: (int, int), j: int| r.closed.contains(x) && 0 <= j < 4 implies #[trigger] settled(
                grid,
                r,
                x,
                j,
            ) || (x == r.current && j >= i + 1 && r.fresh) by {
                assert(settled(grid, s, x, j) || (x == s.current && j >= i && s.fresh));
            }
        }
        assert(inv_frontier(grid, r)) by {
            assert forall|x: (int, int)| #[trigger] r.g.contains_key(x) && !r.closed.contains(x) implies r.open.count(
                entry_for(grid, r, x),
            ) > 0 by {
                assert(s.open.count(entry_for(grid, s, x)) > 0);
            }
        }
        assert(inv_open(grid, r));
        assert(inv_popped(grid, r));
        assert(inv_counts(grid, r, i + 1));
    }
}

/// The first `i` relaxations keep the invariant and leave the removals, the
/// expanded cells and the verdict as they are.
pub proof fn lemma_relax_upto(grid: Grid, t: SearchState, i: int)
    requires
        grid.wf(),
        inv(grid, t, 0),
        0 <= i <= 4,
    ensures
        inv(grid, relax_upto(grid, t, i), i),
        relax_upto(grid, t, i).heap_pops == t.heap_pops,
        relax_upto(grid, t, i).found == t.found,
        relax_upto(grid, t, i).current == t.current,
        relax_upto(grid, t, i).g.contains_key(t.current),
        relax_upto(grid, t, i).g[t.current] == t.g[t.current],
    decreases i,
{
    reveal(inv);
    if i > 0 {
        lemma_relax_upto(grid, t, i - 1);
        let s = relax_upto(grid, t, i - 1);
        lemma_relax(grid, s, i - 1);
        lemma_neighbor(s.current, i - 1);
    }
}

/// A round keeps the invariant, and a round from a state not at rest makes
/// one removal.
pub proof fn lemma_step(grid: Grid, s: SearchState)
    requires
        grid.wf(),
        stable(grid, s),
    ensures
        stable(grid, step(grid, s)),
        finished(s) ==> step(grid, s) == s,
        !finished(s) ==> step(grid, s).heap_pops == s.heap_pops + 1,
{
    if !finished(s) {
        lemma_take(grid, s);
        let t = take(grid, s);
        if !t.found {
            lemma_relax_upto(grid, t, 4);
        }
    }
}

/// The invariant holds after any number of rounds.
pub proof fn lemma_run_stable(grid: Grid, k: nat)
    requires
        grid.wf(),
    ensures
        stable(grid, run(grid, k)),
    decreases k,
{
    if k == 0 {
        lemma_init(grid);
    } else {
        lemma_run_stable(grid, (k - 1) as nat);
        lemma_step(grid, run(grid, (k - 1) as nat));
    }
}

/// The cells of the grid.
pub open spec fn cells(grid: Grid) -> Set<(int, int)> {
    Set::new(|c: (int, int)| grid.contains(c))
}

/// A grid has at most `size * size` cells.
pub proof fn lemma_cells_finite(grid: Grid)
    requires
        grid.size >= 1,
    ensures
        cells(grid).finite(),
        cells(grid).len() <= grid.size * grid.size,
{
    let n = grid.size;
    let f = |i: int| (i / n, i % n);
    let x = set_int_range(0, n * n);
    assert(n * n >= 0) by (nonlinear_arith)
        requires
            n >= 1,
    ;
    lemma_int_range(0, n * n);
    assert forall|c: (int, int)| cells(grid).contains(c) implies x.map(f).contains(c) by {
        let i = c.0 * n + c.1;
        assert(0 <= i < n * n) by (nonlinear_arith)
            requires
                0 <= c.0 < n,
                0 <= c.1 < n,
                i == c.0 * n + c.1,
        ;
        lemma_fundamental_div_mod_converse(i, n, c.0, c.1);
        assert(f(i) == c);
        assert(x.contains(i));
    }
    assert forall|c: (int, int)| x.map(f).contains(c) implies cells(grid).contains(c) by {
        let i = choose|i: int| x.contains(i) && c == f(i);
        lemma_div_pos_is_pos(i, n);
        lemma_multiply_divide_lt(i, n, n);
        lemma_mod_bound(i, n);
    }
    assert(x.map(f) =~= cells(grid));
    lemma_map_size_bound(x, cells(grid), f);
}

/// The expanded cells and the counters are bounded by the size of the grid.
pub proof fn lemma_bounds(grid: Grid, s: SearchState, done: int)
    requires
        grid.wf(),
        inv(grid, s, done),
    ensures
        s.closed.len() <= grid.size * grid.size,
        s.heap_pops <= s.heap_pushes <= 4 * grid.size * grid.size + 1,
        s.nodes_evaluated == s.heap_pops,
        s.neighbors_checked <= 4 * s.heap_pops,
        s.neighbors_checked + 4 <= 4 * s.heap_pops + done,
        forall|c: (int, int)| s.g.contains_key(c) ==> 0 <= #[trigger] s.g[c] <= grid.size * grid.size,
        forall|c: (int, int)| #[trigger] s.g.contains_key(c) ==> grid.free(c),
        done < 4 ==> s.g.contains_key(s.current),
        s.found ==> s.g.contains_key(grid.goal()),
        s.found <==> s.closed.contains(grid.goal()),
{
    reveal(inv);
    lemma_cells_finite(grid);
    assert(s.closed.subset_of(cells(grid))) by {
        assert forall|c: (int, int)| s.closed.contains(c) implies cells(grid).contains(c) by {
            assert(s.g.contains_key(c));
        }
    }
    lemma_len_subset(s.closed, cells(grid));
    let n2 = grid.size * grid.size;
    assert(4 * grid.size * grid.size == 4 * n2) by (nonlinear_arith)
        requires
            n2 == grid.size * grid.size,
    ;
}

/// As long as the search is not at rest, it has made one removal per round.
pub proof fn lemma_rounds_counted(grid: Grid, k: nat)
    requires
        grid.wf(),
        !finished(run(grid, k)),
    ensures
        run(grid, k).heap_pops == k,
    decreases k,
{
    if k > 0 {
        let prev = run(grid, (k - 1) as nat);
        lemma_run_stable(grid, (k - 1) as nat);
        lemma_step(grid, prev);
        lemma_rounds_counted(grid, (k - 1) as nat);
    }
}

/// After `enough_rounds` rounds the search is at rest.
pub proof fn lemma_comes_to_rest(grid: Grid)
    requires
        grid.wf(),
    ensures
        finished(run(grid, enough_rounds(grid))),
{
    let k = enough_rounds(grid);
    let s = run(grid, k);
    lemma_run_stable(grid, k);
    if !finished(s) {
        lemma_rounds_counted(grid, k);
        lemma_bounds(grid, s, 4);
        assert(4 * grid.size * grid.size + 2 >= 0) by (nonlinear_arith)
            requires
                grid.size >= 1,
        ;
    }
}

/// Once at rest, the search stays in the same state.
pub proof fn lemma_stays_at_rest(grid: Grid, k: nat, j: nat)
    requires
        grid.wf(),
        finished(run(grid, k)),
        k <= j,
    ensures
        run(grid, j) == run(grid, k),
    decreases j,
{
    if j > k {
        lemma_stays_at_rest(grid, k, (j - 1) as nat);
    }
}

/// Following predecessors from a known cell lowers the cost by one per step.
pub proof fn lemma_ancestor(grid: Grid, s: SearchState, done: int, c: (int, int), j: nat)
    requires
        inv(grid, s, done),
        s.g.contains_key(c),
        j <= s.g[c],
    ensures
        s.g.contains_key(ancestor(s.parent, c, j)),
        s.g[ancestor(s.parent, c, j)] == s.g[c] - j,
        j > 0 ==> s.parent.contains_key(ancestor(s.parent, c, (j - 1) as nat)),
        j == s.g[c] ==> ancestor(s.parent, c, j) == grid.start(),
        j == s.g[c] ==> !s.parent.contains_key(ancestor(s.parent, c, j)),
    decreases j,
{
    reveal(inv);
    if j > 0 {
        lemma_ancestor(grid, s, done, c, (j - 1) as nat);
        let a = ancestor(s.parent, c, (j - 1) as nat);
        assert(s.g.contains_key(a));
        assert(a != grid.start());
        assert(s.closed.contains(s.parent[a]));
    }
    let b = ancestor(s.parent, c, j);
    if j == s.g[c] && b != grid.start() {
        assert(s.g.contains_key(b));
        assert(s.closed.contains(s.parent[b]));
        assert(s.g.contains_key(s.parent[b]));
    }
}

/// The predecessors of a known cell, from the start down to the cell, form a
/// walk along which the cost counts the steps.
pub proof fn lemma_lineage(grid: Grid, s: SearchState, done: int, c: (int, int))
    requires
        inv(grid, s, done),
        s.g.contains_key(c),
    ensures
        ({
            let p = lineage(s.parent, c, (s.g[c] + 1) as nat);
            &&& p.len() == s.g[c] + 1
            &&& is_walk(grid, p)
            &&& p[0] == grid.start()
            &&& p[p.len() - 1] == c
            &&& p.no_duplicates()
            &&& forall|i: int| 0 <= i < p.len() ==> s.g.contains_key(#[trigger] p[i]) && s.g[p[i]] == i
        }),
{
    reveal(inv);
    let len = (s.g[c] + 1) as nat;
    let p = lineage(s.parent, c, len);
    assert forall|i: int| 0 <= i < p.len() implies s.g.contains_key(#[trigger] p[i]) && s.g[p[i]] == i
        && grid.free(p[i]) by {
        lemma_ancestor(grid, s, done, c, (len - 1 - i) as nat);
    }
    assert forall|i: int| 0 <= i < p.len() - 1 implies adjacent(#[trigger] p[i], p[i + 1]) by {
        let j = (len - 1 - i) as nat;
        lemma_ancestor(grid, s, done, c, j);
        lemma_ancestor(grid, s, done, c, (j - 1) as nat);
        let a = ancestor(s.parent, c, (j - 1) as nat);
        assert(p[i + 1] == a);
        assert(p[i] == s.parent[a]);
        assert(s.g[a] >= 1);
        assert(a != grid.start());
    }
    lemma_ancestor(grid, s, done, c, (len - 1) as nat);
    assert(p[len - 1] == ancestor(s.parent, c, 0));
    assert forall|i: int, j: int| 0 <= i < p.len() && 0 <= j < p.len() && i != j implies p[i] != p[j] by {
        assert(s.g[p[i]] == i);
        assert(s.g[p[j]] == j);
    }
}

} // verus!
