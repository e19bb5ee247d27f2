//! The two entry points: a pathfinder that is validated once and searched
//! any number of times, and a single call that validates and searches.

use crate::config::{GridConfig, MAX_SIZE, MIN_SIZE};
use crate::error::InvalidArgument;
use crate::grid::{cells_of, cut_off, is_shortest_route, Grid};
use crate::model::search;
use crate::obstacles::{cell_set, first_violation, ObstacleStore};
use crate::ratio::{expected_count, ratio_in_range};
use crate::search::{find_path_core, grid_of, report};
use crate::telemetry::SearchTelemetry;
use vstd::prelude::*;

verus! {

/// The obstacle list that was handed in: the empty list where none was.
pub open spec fn listed(obstacles: Option<Vec<(i32, i32)>>) -> Seq<(i32, i32)> {
    match obstacles {
        Some(list) => list@,
        None => Seq::<(i32, i32)>::empty(),
    }
}

/// The rule that the arguments break, if any: the size comes first, then the
/// ratio, then the obstacle list.
pub open spec fn rejection(size: i32, obstacle_ratio_bits: u64, obstacles: Seq<(i32, i32)>) -> Option<
    InvalidArgument,
> {
    if !(MIN_SIZE <= size <= MAX_SIZE) {
        Some(InvalidArgument::SizeOutOfRange)
    } else if !ratio_in_range(obstacle_ratio_bits) {
        Some(InvalidArgument::RatioOutOfRange)
    } else {
        first_violation(size as int, expected_count(size as int, obstacle_ratio_bits) as usize, obstacles)
    }
}

/// The grid that a size and an obstacle list describe.
pub open spec fn described_grid(size: i32, obstacles: Seq<(i32, i32)>) -> Grid {
    Grid { size: size as int, blocked: cell_set(obstacles) }
}

/// A validated configuration with its validated obstacles, ready to be
/// searched any number of times.
#[derive(Debug)]
pub struct RustPathfinder {
    config: GridConfig,
    obstacles: ObstacleStore,
}

impl RustPathfinder {
    #[verifier::type_invariant]
    spec fn valid(self) -> bool {
        self.obstacles.size() == self.config.size()
    }

    /// The grid that is searched.
    pub closed spec fn grid(&self) -> Grid {
        grid_of(&self.config, &self.obstacles)
    }

    /// The size, the bit pattern of the obstacle ratio and the seed that the
    /// pathfinder was made with.
    pub closed spec fn settings(&self) -> (i32, u64, i64) {
        (self.config.size(), self.config.obstacle_ratio_bits(), self.config.seed())
    }

    /// Validates the configuration and the obstacle list; an absent list
    /// counts as the empty one. The error names the first rule broken.
    pub fn new(size: i32, obstacle_ratio_bits: u64, seed: i64, obstacles: Option<Vec<(i32, i32)>>) -> (r: Result<
        RustPathfinder,
        InvalidArgument,
    >)
        ensures
            match r {
                Ok(pathfinder) => {
                    &&& rejection(size, obstacle_ratio_bits, listed(obstacles)) is None
                    &&& pathfinder.grid() == described_grid(size, listed(obstacles))
                    &&& pathfinder.settings() == (size, obstacle_ratio_bits, seed)
                },
                Err(e) => rejection(size, obstacle_ratio_bits, listed(obstacles)) == Some(e),
            },
    {
        let config = match GridConfig::new(size, obstacle_ratio_bits, seed) {
            Ok(config) => config,
            Err(e) => {
                return Err(e);
            },
        };
        let list = match obstacles {
            Some(list) => list,
            None => Vec::new(),
        };
        let store = match ObstacleStore::from_obstacles(&config, list) {
            Ok(store) => store,
            Err(e) => {
                return Err(e);
            },
        };
        Ok(RustPathfinder { config, obstacles: store })
    }

    /// The validated configuration.
    pub fn config(&self) -> (config: &GridConfig)
        ensures
            (config.size(), config.obstacle_ratio_bits(), config.seed()) == self.settings(),
            config.size() == self.grid().size,
    {
        &self.config
    }

    /// The validated obstacles.
    pub fn obstacles(&self) -> (obstacles: &ObstacleStore)
        ensures
            obstacles@ == self.grid().blocked,
            obstacles.size() == self.grid().size,
    {
        proof {
            use_type_invariant(self);
        }
        &self.obstacles
    }

    /// Searches a shortest route from the start corner to the goal corner.
    ///
    /// Returns the route, or `None` where the grid has none, the number of
    /// nodes evaluated, and the telemetry. Every call on one pathfinder
    /// returns the same.
    pub fn find_path(&self) -> (res: (Option<Vec<(i32, i32)>>, u64, SearchTelemetry))
        ensures
            self.grid().wf(),
            report(res) == search(self.grid()),
            res.1 == res.2.nodes_evaluated,
            match res.0 {
                Some(p) => is_shortest_route(self.grid(), cells_of(p@)) && cells_of(p@).no_duplicates(),
                None => cut_off(self.grid()),
            },
            res.2.heap_pops == res.2.nodes_evaluated,
            res.2.heap_pushes >= res.2.heap_pops,
            res.2.neighbors_checked <= 4 * res.2.nodes_evaluated,
    {
        proof {
            use_type_invariant(self);
        }
        find_path_core(&self.config, &self.obstacles)
    }
}

/// Validates the arguments and searches once.
///
/// Returns what `RustPathfinder::new` followed by `find_path` returns.
pub fn native_find_path(size: i32, obstacle_ratio_bits: u64, seed: i64, obstacles: Option<Vec<(i32, i32)>>) -> (r:
    Result<(Option<Vec<(i32, i32)>>, u64, SearchTelemetry), InvalidArgument>)
    ensures
        match r {
            Ok(res) => {
                &&& rejection(size, obstacle_ratio_bits, listed(obstacles)) is None
                &&& described_grid(size, listed(obstacles)).wf()
                &&& report(res) == search(described_grid(size, listed(obstacles)))
                &&& res.1 == res.2.nodes_evaluated
                &&& match res.0 {
                    Some(p) => is_shortest_route(described_grid(size, listed(obstacles)), cells_of(p@)) && cells_of(
                        p@,
                    ).no_duplicates(),
                    None => cut_off(described_grid(size, listed(obstacles))),
                }
                &&& res.2.heap_pops == res.2.nodes_evaluated
                &&& res.2.heap_pushes >= res.2.heap_pops
                &&& res.2.neighbors_checked <= 4 * res.2.nodes_evaluated
            },
            Err(e) => rejection(size, obstacle_ratio_bits, listed(obstacles)) == Some(e),
        },
{
    let config = match GridConfig::new(size, obstacle_ratio_bits, seed) {
        Ok(config) => config,
        Err(e) => {
            return Err(e);
        },
    };
    let list = match obstacles {
        Some(list) => list,
        None => Vec::new(),
    };
    let store = match ObstacleStore::from_obstacles(&config, list) {
        Ok(store) => store,
        Err(e) => {
            return Err(e);
        },
    };
    Ok(find_path_core(&config, &store))
}

} // verus!
