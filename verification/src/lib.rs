//! Shortest routes between the two opposite corners of a square grid with
//! blocked cells, found by A* search over the four-connected, unit-cost grid.
//!
//! The crate is verified with Verus.
//!
//! - `config`, `ratio` and `obstacles` validate a grid size, an obstacle
//!   ratio and an obstacle list.
//! - `grid` holds the mathematical notions: cells, walks, routes.
//! - `model` defines the search as a state machine on mathematical values,
//!   `soundness` proves what holds of every state it passes through, and
//!   `laws` states what follows for the result of every search.
//! - `search` is the executable search, proved to compute exactly what the
//!   model defines, on top of `frontier` and `cell_map`.
//! - `pathfinder` holds the two entry points, `telemetry` the counters,
//!   `error` the error, and `names` the validation of names.

pub mod cell_map;
pub mod config;
pub mod error;
pub mod frontier;
pub mod grid;
pub mod laws;
pub mod model;
pub mod names;
pub mod obstacles;
pub mod pathfinder;
pub mod ratio;
pub mod search;
pub mod soundness;
pub mod telemetry;

pub use crate::config::GridConfig;
pub use crate::error::InvalidArgument;
pub use crate::grid::heuristic;
pub use crate::names::validate_name;
pub use crate::obstacles::ObstacleStore;
pub use crate::pathfinder::{native_find_path, RustPathfinder};
pub use crate::search::{find_path_core, reconstruct_path};
pub use crate::telemetry::SearchTelemetry;
