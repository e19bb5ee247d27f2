//! The validated set of blocked cells.

use crate::cell_map::{lemma_slot_injective, representable, slot, slot_of};
use crate::config::{GridConfig, MAX_SIZE, MIN_SIZE};
use crate::error::InvalidArgument;
use crate::grid::cell;
use std::collections::HashSet;
use vstd::prelude::*;

verus! {

broadcast use vstd::std_specs::hash::group_hash_axioms;

/// The blocked cells of a grid, validated against its configuration.
#[derive(Debug)]
pub struct ObstacleStore {
    size: i32,
    cells: HashSet<u64>,
}

/// The obstacle lies outside the grid of side `size`.
pub open spec fn out_of_bounds(size: int, c: (i32, i32)) -> bool {
    c.0 < 0 || c.0 >= size || c.1 < 0 || c.1 >= size
}

/// The obstacle lies on the start or on the goal of the grid of side `size`.
pub open spec fn on_endpoint(size: int, c: (i32, i32)) -> bool {
    (c.0 == 0 && c.1 == 0) || (c.0 == size - 1 && c.1 == size - 1)
}

/// The obstacle at `i` occurs earlier in the list.
pub open spec fn seen_before(obstacles: Seq<(i32, i32)>, i: int) -> bool {
    exists|j: int| 0 <= j < i && obstacles[j] == obstacles[i]
}

/// The rule that the obstacle at `i` breaks, if any: bounds come first, then
/// the corners, then repetition.
pub open spec fn violation_at(size: int, obstacles: Seq<(i32, i32)>, i: int) -> Option<InvalidArgument> {
    if out_of_bounds(size, obstacles[i]) {
        Some(InvalidArgument::ObstacleOutOfBounds)
    } else if on_endpoint(size, obstacles[i]) {
        Some(InvalidArgument::ObstacleOnEndpoint)
    } else if seen_before(obstacles, i) {
        Some(InvalidArgument::DuplicateObstacle)
    } else {
        None
    }
}

/// The rule broken by the first obstacle from `i` on that breaks one.
pub open spec fn violation_from(size: int, obstacles: Seq<(i32, i32)>, i: int) -> Option<InvalidArgument>
    decreases obstacles.len() - i,
{
    if i < 0 || i >= obstacles.len() {
        None
    } else if violation_at(size, obstacles, i) is Some {
        violation_at(size, obstacles, i)
    } else {
        violation_from(size, obstacles, i + 1)
    }
}

/// The rule that an obstacle list breaks, if any: a length other than
/// `expected`, or else the rule broken by the first obstacle that breaks one.
pub open spec fn first_violation(size: int, expected: usize, obstacles: Seq<(i32, i32)>) -> Option<
    InvalidArgument,
> {
    if obstacles.len() != expected {
        Some(InvalidArgument::ObstacleCountMismatch { len: obstacles.len() as usize, expected })
    } else {
        violation_from(size, obstacles, 0)
    }
}

/// The cells of an obstacle list.
pub open spec fn cell_set(obstacles: Seq<(i32, i32)>) -> Set<(int, int)> {
    Set::new(|c: (int, int)| exists|i: int| 0 <= i < obstacles.len() && cell(#[trigger] obstacles[i]) == c)
}

/// A list of another length than expected is rejected for its length.
pub proof fn theorem_wrong_length_rejected(size: int, expected: usize, obstacles: Seq<(i32, i32)>)
    requires
        obstacles.len() != expected,
    ensures
        first_violation(size, expected, obstacles) == Some(
            InvalidArgument::ObstacleCountMismatch { len: obstacles.len() as usize, expected },
        ),
{
}

/// From `from` on, the list is rejected if and only if some entry from
/// there on breaks a rule.
pub proof fn lemma_violation_from(size: int, obstacles: Seq<(i32, i32)>, from: int)
    requires
        0 <= from,
    ensures
        violation_from(size, obstacles, from) is Some <==> exists|i: int|
            from <= i < obstacles.len() && #[trigger] violation_at(size, obstacles, i) is Some,
    decreases obstacles.len() - from,
{
    if from < obstacles.len() {
        lemma_violation_from(size, obstacles, from + 1);
        if violation_at(size, obstacles, from) is None && violation_from(size, obstacles, from) is Some {
            let i = choose|i: int|
                from + 1 <= i < obstacles.len() && #[trigger] violation_at(size, obstacles, i) is Some;
            assert(from <= i < obstacles.len() && violation_at(size, obstacles, i) is Some);
        }
    }
}

/// A list with an entry that lies outside the grid, lies on the start or on
/// the goal, or repeats an earlier entry is rejected, whatever its length.
pub proof fn theorem_bad_entry_rejected(size: int, expected: usize, obstacles: Seq<(i32, i32)>, i: int)
    requires
        0 <= i < obstacles.len(),
        out_of_bounds(size, obstacles[i]) || on_endpoint(size, obstacles[i]) || seen_before(obstacles, i),
    ensures
        first_violation(size, expected, obstacles) is Some,
{
    assert(violation_at(size, obstacles, i) is Some);
    lemma_violation_from(size, obstacles, 0);
}

/// A list is accepted if and only if it has the expected length and every
/// entry lies inside the grid, on neither corner, and occurs once.
pub proof fn theorem_accepted_lists(size: int, expected: usize, obstacles: Seq<(i32, i32)>)
    ensures
        first_violation(size, expected, obstacles) is None <==> {
            &&& obstacles.len() == expected
            &&& forall|i: int|
                0 <= i < obstacles.len() ==> {
                    &&& !out_of_bounds(size, #[trigger] obstacles[i])
                    &&& !on_endpoint(size, obstacles[i])
                    &&& !seen_before(obstacles, i)
                }
        },
{
    lemma_violation_from(size, obstacles, 0);
    if obstacles.len() == expected {
        if first_violation(size, expected, obstacles) is None {
            assert forall|i: int| 0 <= i < obstacles.len() implies {
                &&& !out_of_bounds(size, #[trigger] obstacles[i])
                &&& !on_endpoint(size, obstacles[i])
                &&& !seen_before(obstacles, i)
            } by {
                assert(violation_at(size, obstacles, i) is None);
            }
        } else {
            let i = choose|i: int| 0 <= i < obstacles.len() && #[trigger] violation_at(size, obstacles, i) is Some;
            assert(out_of_bounds(size, obstacles[i]) || on_endpoint(size, obstacles[i]) || seen_before(
                obstacles,
                i,
            ));
        }
    }
}

/// The cells stored under the numbers of `slots`.
pub open spec fn cells_in(slots: Set<u64>) -> Set<(int, int)> {
    Set::new(|c: (int, int)| representable(c) && slots.contains(slot_of(c)))
}

impl ObstacleStore {
    #[verifier::type_invariant]
    spec fn valid(self) -> bool {
        &&& MIN_SIZE <= self.size <= MAX_SIZE
        &&& forall|c: (int, int)| #[trigger]
            cells_in(self.cells@).contains(c) ==> {
                &&& 0 <= c.0 < self.size
                &&& 0 <= c.1 < self.size
                &&& c != (0int, 0int)
                &&& c != (self.size - 1, self.size - 1)
            }
    }

    /// The blocked cells.
    pub closed spec fn view(&self) -> Set<(int, int)> {
        cells_in(self.cells@)
    }

    pub closed spec fn spec_size(&self) -> i32 {
        self.size
    }

    /// The side of the grid that the cells were validated against. Every
    /// blocked cell lies inside that grid and on neither corner.
    #[verifier::when_used_as_spec(spec_size)]
    pub fn size(&self) -> (n: i32)
        ensures
            n == self.size(),
            MIN_SIZE <= n <= MAX_SIZE,
            forall|c: (int, int)| #[trigger]
                self@.contains(c) ==> {
                    &&& 0 <= c.0 < n
                    &&& 0 <= c.1 < n
                    &&& c != (0int, 0int)
                    &&& c != (n - 1, n - 1)
                },
    {
        proof {
            use_type_invariant(self);
        }
        self.size
    }

    /// Validates an obstacle list against a configuration and stores its
    /// cells.
    ///
    /// The list must have as many entries as the configuration asks for, and
    /// each must lie inside the grid, on neither corner, and occur once. The
    /// error names the rule that the length or the first offending entry
    /// breaks.
    pub fn from_obstacles(config: &GridConfig, obstacles: Vec<(i32, i32)>) -> (r: Result<
        ObstacleStore,
        InvalidArgument,
    >)
        ensures
            match r {
                Ok(store) => {
                    &&& first_violation(config.size() as int, config.expected_obstacle_count(), obstacles@) is None
                    &&& store.size() == config.size()
                    &&& store@ == cell_set(obstacles@)
                    &&& store@.finite()
                    &&& store@.len() == config.expected_obstacle_count()
                },
                Err(e) => first_violation(config.size() as int, config.expected_obstacle_count(), obstacles@)
                    == Some(e),
            },
    {
        let expected = config.expected_obstacle_count();
        let size = config.size();
        if obstacles.len() != expected {
            return Err(InvalidArgument::ObstacleCountMismatch { len: obstacles.len(), expected });
        }
        let mut cells: HashSet<u64> = HashSet::with_capacity(obstacles.len());
        let mut i: usize = 0;
        assert(cells_in(cells@) =~= Set::<(int, int)>::empty());
        while i < obstacles.len()
            invariant
                i <= obstacles@.len(),
                MIN_SIZE <= size <= MAX_SIZE,
                size == config.size(),
                expected == config.expected_obstacle_count(),
                obstacles@.len() == expected,
                violation_from(size as int, obstacles@, 0) == violation_from(size as int, obstacles@, i as int),
                forall|k: u64|
                    cells@.contains(k) <==> exists|j: int| 0 <= j < i && slot_of(cell(#[trigger] obstacles@[j])) == k,
                forall|j: int|
                    0 <= j < i ==> !out_of_bounds(size as int, #[trigger] obstacles@[j]) && !on_endpoint(
                        size as int,
                        obstacles@[j],
                    ),
                cells_in(cells@).finite(),
                cells_in(cells@).len() == i,
            decreases obstacles@.len() - i,
        {
            let x: i32 = obstacles[i].0;
            let y: i32 = obstacles[i].1;
            if x < 0 || x >= size || y < 0 || y >= size {
                return Err(InvalidArgument::ObstacleOutOfBounds);
            }
            if (x == 0 && y == 0) || (x == size - 1 && y == size - 1) {
                return Err(InvalidArgument::ObstacleOnEndpoint);
            }
            let k = slot(x, y);
            let ghost before = cells@;
            let ghost c = cell(obstacles@[i as int]);
            let added = cells.insert(k);
            proof {
                if before.contains(k) {
                    let j = choose|j: int| 0 <= j < i && slot_of(cell(#[trigger] obstacles@[j])) == k;
                    lemma_slot_injective(cell(obstacles@[j]), c);
                    assert(obstacles@[j] == obstacles@[i as int]);
                    assert(seen_before(obstacles@, i as int));
                }
                if seen_before(obstacles@, i as int) {
                    let j = choose|j: int| 0 <= j < i && obstacles@[j] == obstacles@[i as int];
                    assert(slot_of(cell(obstacles@[j])) == k);
                    assert(before.contains(k));
                }
            }
            if !added {
                return Err(InvalidArgument::DuplicateObstacle);
            }
            proof {
                assert forall|d: (int, int)| representable(d) && d != c implies slot_of(d) != k by {
                    if slot_of(d) == k {
                        lemma_slot_injective(d, c);
                    }
                }
                assert(cells_in(cells@) =~= cells_in(before).insert(c));
                assert forall|s: u64| cells@.contains(s) <==> exists|j: int|
                    0 <= j < i + 1 && slot_of(cell(#[trigger] obstacles@[j])) == s by {
                    if cells@.contains(s) {
                        if s == k {
                            assert(slot_of(cell(obstacles@[i as int])) == s);
                        } else {
                            let j = choose|j: int| 0 <= j < i && slot_of(cell(#[trigger] obstacles@[j])) == s;
                            assert(0 <= j < i + 1 && slot_of(cell(obstacles@[j])) == s);
                        }
                    }
                    if exists|j: int| 0 <= j < i + 1 && slot_of(cell(#[trigger] obstacles@[j])) == s {
                        let j = choose|j: int| 0 <= j < i + 1 && slot_of(cell(#[trigger] obstacles@[j])) == s;
                        if j < i {
                            assert(before.contains(s));
                        }
                    }
                }
            }
            i = i + 1;
        }
        proof {
            assert forall|c: (int, int)| #[trigger] cells_in(cells@).contains(c) implies {
                &&& 0 <= c.0 < size
                &&& 0 <= c.1 < size
                &&& c != (0int, 0int)
                &&& c != (size - 1, size - 1)
            } by {
                let j = choose|j: int| 0 <= j < i && slot_of(cell(#[trigger] obstacles@[j])) == slot_of(c);
                lemma_slot_injective(cell(obstacles@[j]), c);
            }
            assert(cells_in(cells@) =~= cell_set(obstacles@)) by {
                assert forall|c: (int, int)| cells_in(cells@).contains(c) implies cell_set(obstacles@).contains(
                    c,
                ) by {
                    let j = choose|j: int| 0 <= j < i && slot_of(cell(#[trigger] obstacles@[j])) == slot_of(c);
                    lemma_slot_injective(cell(obstacles@[j]), c);
                }
                assert forall|c: (int, int)| cell_set(obstacles@).contains(c) implies cells_in(cells@).contains(
                    c,
                ) by {
                    let j = choose|j: int| 0 <= j < obstacles@.len() && cell(#[trigger] obstacles@[j]) == c;
                    assert(slot_of(cell(obstacles@[j])) == slot_of(c));
                }
            }
        }
        Ok(ObstacleStore { size, cells })
    }

    /// Whether the cell `(x, y)` is blocked.
    pub fn contains(&self, x: i32, y: i32) -> (r: bool)
        ensures
            r == self@.contains((x as int, y as int)),
    {
        let k = slot(x, y);
        self.cells.contains(&k)
    }
}

} // verus!
