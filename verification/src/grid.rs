//! Cells, walks and distances on a square grid with blocked cells.

use vstd::prelude::*;

verus! {

/// A square grid of `size` by `size` cells, some of them blocked.
pub struct Grid {
    pub size: int,
    pub blocked: Set<(int, int)>,
}

impl Grid {
    /// The cell lies inside the square.
    pub open spec fn contains(self, c: (int, int)) -> bool {
        0 <= c.0 < self.size && 0 <= c.1 < self.size
    }

    /// The cell lies inside the square and is not blocked.
    pub open spec fn free(self, c: (int, int)) -> bool {
        self.contains(c) && !self.blocked.contains(c)
    }

    pub open spec fn start(self) -> (int, int) {
        (0, 0)
    }

    pub open spec fn goal(self) -> (int, int) {
        (self.size - 1, self.size - 1)
    }

    /// The two corners exist and are free.
    pub open spec fn wf(self) -> bool {
        self.size >= 1 && self.free(self.start()) && self.free(self.goal())
    }
}

/// The cell reached from `c` by one step in direction `i`: right, left, up, down
/// for 0, 1, 2, 3.
pub open spec fn neighbor(c: (int, int), i: int) -> (int, int) {
    if i == 0 {
        (c.0 + 1, c.1)
    } else if i == 1 {
        (c.0 - 1, c.1)
    } else if i == 2 {
        (c.0, c.1 + 1)
    } else {
        (c.0, c.1 - 1)
    }
}

/// The direction that undoes direction `i`.
pub open spec fn opposite(i: int) -> int {
    if i == 0 {
        1
    } else if i == 1 {
        0
    } else if i == 2 {
        3
    } else {
        2
    }
}

/// The two cells differ by one unit along exactly one axis.
pub open spec fn adjacent(a: (int, int), b: (int, int)) -> bool {
    ||| a.1 == b.1 && (a.0 - b.0 == 1 || b.0 - a.0 == 1)
    ||| a.0 == b.0 && (a.1 - b.1 == 1 || b.1 - a.1 == 1)
}

pub open spec fn distance_1d(a: int, b: int) -> int {
    if a >= b {
        a - b
    } else {
        b - a
    }
}

/// Manhattan distance between two cells.
pub open spec fn manhattan(a: (int, int), b: (int, int)) -> int {
    distance_1d(a.0, b.0) + distance_1d(a.1, b.1)
}

/// A cell of machine integers as a cell of the grid.
pub open spec fn cell(c: (i32, i32)) -> (int, int) {
    (c.0 as int, c.1 as int)
}

/// A sequence of cells of machine integers as a sequence of cells of the grid.
pub open spec fn cells_of(s: Seq<(i32, i32)>) -> Seq<(int, int)> {
    Seq::new(s.len(), |i: int| cell(s[i]))
}

/// `c` is the end of some walk of exactly `k` steps from the start through
/// free cells.
pub open spec fn reach(grid: Grid, c: (int, int), k: nat) -> bool
    decreases k,
{
    grid.free(c) && if k == 0 {
        c == grid.start()
    } else {
        ||| reach(grid, neighbor(c, 0), (k - 1) as nat)
        ||| reach(grid, neighbor(c, 1), (k - 1) as nat)
        ||| reach(grid, neighbor(c, 2), (k - 1) as nat)
        ||| reach(grid, neighbor(c, 3), (k - 1) as nat)
    }
}

/// A non-empty sequence of free cells, each adjacent to the next.
pub open spec fn is_walk(grid: Grid, p: Seq<(int, int)>) -> bool {
    &&& p.len() > 0
    &&& forall|i: int| 0 <= i < p.len() ==> grid.free(#[trigger] p[i])
    &&& forall|i: int| 0 <= i < p.len() - 1 ==> adjacent(#[trigger] p[i], p[i + 1])
}

/// A walk from the start corner to the goal corner.
pub open spec fn is_route(grid: Grid, p: Seq<(int, int)>) -> bool {
    is_walk(grid, p) && p[0] == grid.start() && p[p.len() - 1] == grid.goal()
}

/// A route that no other route undercuts in length.
pub open spec fn is_shortest_route(grid: Grid, p: Seq<(int, int)>) -> bool {
    is_route(grid, p) && forall|q: Seq<(int, int)>| #[trigger] is_route(grid, q) ==> p.len() <= q.len()
}

/// No route exists.
pub open spec fn cut_off(grid: Grid) -> bool {
    forall|q: Seq<(int, int)>| !#[trigger] is_route(grid, q)
}

/// Every neighbor is adjacent, and stepping back returns to the cell.
pub proof fn lemma_neighbor(c: (int, int), i: int)
    requires
        0 <= i < 4,
    ensures
        adjacent(c, neighbor(c, i)),
        0 <= opposite(i) < 4,
        neighbor(neighbor(c, i), opposite(i)) == c,
{
}

/// Adjacent cells are neighbors of each other in some direction.
pub proof fn lemma_adjacent_is_neighbor(a: (int, int), b: (int, int)) -> (i: int)
    requires
        adjacent(a, b),
    ensures
        0 <= i < 4,
        neighbor(b, i) == a,
{
    if a.0 == b.0 + 1 {
        0
    } else if a.0 == b.0 - 1 {
        1
    } else if a.1 == b.1 + 1 {
        2
    } else {
        3
    }
}

/// One step changes the Manhattan distance to any cell by at most one.
pub proof fn lemma_manhattan_step(a: (int, int), b: (int, int), t: (int, int))
    requires
        adjacent(a, b),
    ensures
        manhattan(a, t) <= manhattan(b, t) + 1,
        manhattan(b, t) <= manhattan(a, t) + 1,
{
}

/// One more step from a reached cell reaches each free neighbor.
pub proof fn lemma_reach_step(grid: Grid, c: (int, int), k: nat, i: int)
    requires
        reach(grid, c, k),
        0 <= i < 4,
        grid.free(neighbor(c, i)),
    ensures
        reach(grid, neighbor(c, i), k + 1),
{
    lemma_neighbor(c, i);
    let n = neighbor(c, i);
    assert(neighbor(n, opposite(i)) == c);
    assert(((k + 1) - 1) as nat == k);
}

/// The last cell of a walk that begins at the start is reached in as many
/// steps as the walk has edges.
pub proof fn lemma_walk_reach(grid: Grid, p: Seq<(int, int)>)
    requires
        is_walk(grid, p),
        p[0] == grid.start(),
    ensures
        reach(grid, p[p.len() - 1], (p.len() - 1) as nat),
    decreases p.len(),
{
    if p.len() == 1 {
        assert(grid.free(p[0]));
    } else {
        let q = p.drop_last();
        assert(is_walk(grid, q)) by {
            assert forall|i: int| 0 <= i < q.len() implies grid.free(#[trigger] q[i]) by {
                assert(q[i] == p[i]);
            }
            assert forall|i: int| 0 <= i < q.len() - 1 implies adjacent(#[trigger] q[i], q[i + 1]) by {
                assert(q[i] == p[i]);
                assert(q[i + 1] == p[i + 1]);
            }
        }
        assert(q[0] == p[0]);
        lemma_walk_reach(grid, q);
        let a = p[p.len() - 2];
        let b = p[p.len() - 1];
        assert(q[q.len() - 1] == a);
        assert(adjacent(a, b));
        assert(grid.free(b));
        let i = lemma_adjacent_is_neighbor(b, a);
        lemma_reach_step(grid, a, (q.len() - 1) as nat, i);
    }
}

/// A cell cannot be reached in fewer steps than its Manhattan distance from
/// the start.
pub proof fn lemma_reach_lower_bound(grid: Grid, c: (int, int), k: nat)
    requires
        reach(grid, c, k),
    ensures
        c.0 + c.1 <= k,
        0 <= c.0,
        0 <= c.1,
    decreases k,
{
    if k > 0 {
        let j = (k - 1) as nat;
        if reach(grid, neighbor(c, 0), j) {
            lemma_reach_lower_bound(grid, neighbor(c, 0), j);
        } else if reach(grid, neighbor(c, 1), j) {
            lemma_reach_lower_bound(grid, neighbor(c, 1), j);
        } else if reach(grid, neighbor(c, 2), j) {
            lemma_reach_lower_bound(grid, neighbor(c, 2), j);
        } else {
            lemma_reach_lower_bound(grid, neighbor(c, 3), j);
        }
    }
}

/// With no cell blocked, every cell is reached in as many steps as its
/// Manhattan distance from the start.
pub proof fn lemma_open_grid_reach(grid: Grid, c: (int, int))
    requires
        grid.contains(c),
        forall|b: (int, int)| !grid.blocked.contains(b),
    ensures
        reach(grid, c, (c.0 + c.1) as nat),
    decreases c.0 + c.1,
{
    if c.0 > 0 {
        let p = (c.0 - 1, c.1);
        lemma_open_grid_reach(grid, p);
        lemma_reach_step(grid, p, (p.0 + p.1) as nat, 0);
        assert(neighbor(p, 0) == c);
    } else if c.1 > 0 {
        let p = (c.0, c.1 - 1);
        lemma_open_grid_reach(grid, p);
        lemma_reach_step(grid, p, (p.0 + p.1) as nat, 2);
        assert(neighbor(p, 2) == c);
    } else {
        assert(c == grid.start());
    }
}

/// A row blocked from side to side keeps every reached cell below it.
pub proof fn lemma_row_barrier(grid: Grid, row: int, c: (int, int), k: nat)
    requires
        grid.wf(),
        0 <= row < grid.size,
        forall|x: int| 0 <= x < grid.size ==> #[trigger] grid.blocked.contains((x, row)),
        reach(grid, c, k),
    ensures
        c.1 < row,
    decreases k,
{
    assert(grid.blocked.contains((0, row)));
    if k > 0 {
        let j = (k - 1) as nat;
        if reach(grid, neighbor(c, 0), j) {
            lemma_row_barrier(grid, row, neighbor(c, 0), j);
        } else if reach(grid, neighbor(c, 1), j) {
            lemma_row_barrier(grid, row, neighbor(c, 1), j);
        } else if reach(grid, neighbor(c, 2), j) {
            lemma_row_barrier(grid, row, neighbor(c, 2), j);
        } else {
            lemma_row_barrier(grid, row, neighbor(c, 3), j);
        }
        assert(c.1 <= row);
        if c.1 == row {
            assert(grid.blocked.contains((c.0, row)));
            assert(c == (c.0, row));
        }
    }
}

/// A column blocked from side to side keeps every reached cell left of it.
pub proof fn lemma_column_barrier(grid: Grid, column: int, c: (int, int), k: nat)
    requires
        grid.wf(),
        0 <= column < grid.size,
        forall|y: int| 0 <= y < grid.size ==> #[trigger] grid.blocked.contains((column, y)),
        reach(grid, c, k),
    ensures
        c.0 < column,
    decreases k,
{
    assert(grid.blocked.contains((column, 0)));
    if k > 0 {
        let j = (k - 1) as nat;
        if reach(grid, neighbor(c, 0), j) {
            lemma_column_barrier(grid, column, neighbor(c, 0), j);
        } else if reach(grid, neighbor(c, 1), j) {
            lemma_column_barrier(grid, column, neighbor(c, 1), j);
        } else if reach(grid, neighbor(c, 2), j) {
            lemma_column_barrier(grid, column, neighbor(c, 2), j);
        } else {
            lemma_column_barrier(grid, column, neighbor(c, 3), j);
        }
        assert(c.0 <= column);
        if c.0 == column {
            assert(grid.blocked.contains((column, c.1)));
            assert(c == (column, c.1));
        }
    }
}

/// The Manhattan distance between two cells.
pub fn heuristic(a: (i32, i32), b: (i32, i32)) -> (h: i32)
    requires
        manhattan(cell(a), cell(b)) <= i32::MAX,
    ensures
        h == manhattan(cell(a), cell(b)),
{
    let dx: i32 = if a.0 >= b.0 {
        a.0 - b.0
    } else {
        b.0 - a.0
    };
    let dy: i32 = if a.1 >= b.1 {
        a.1 - b.1
    } else {
        b.1 - a.1
    };
    dx + dy
}

} // verus!
