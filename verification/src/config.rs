//! The validated configuration of a grid.

use crate::error::InvalidArgument;
use crate::ratio::{check_ratio, expected_count, expected_obstacles, ratio_in_range};
use vstd::prelude::*;

verus! {

/// The least grid size accepted.
pub const MIN_SIZE: i32 = 10;

/// The greatest grid size accepted.
pub const MAX_SIZE: i32 = 5000;

/// A grid size, an obstacle ratio and a seed that passed validation, with
/// the two corners between which routes are sought.
///
/// The obstacle ratio is kept as the bit pattern of a binary64 number. The
/// seed is carried along and never read by the search.
#[derive(Clone, Copy, Debug)]
pub struct GridConfig {
    size: i32,
    obstacle_ratio_bits: u64,
    seed: i64,
    start: (i32, i32),
    goal: (i32, i32),
}

impl GridConfig {
    #[verifier::type_invariant]
    spec fn valid(self) -> bool {
        &&& MIN_SIZE <= self.size <= MAX_SIZE
        &&& ratio_in_range(self.obstacle_ratio_bits)
        &&& self.start == (0i32, 0i32)
        &&& self.goal == ((self.size - 1) as i32, (self.size - 1) as i32)
    }

    pub closed spec fn spec_size(&self) -> i32 {
        self.size
    }

    pub closed spec fn spec_obstacle_ratio_bits(&self) -> u64 {
        self.obstacle_ratio_bits
    }

    pub closed spec fn spec_seed(&self) -> i64 {
        self.seed
    }

    /// Validates the arguments and derives the two corners.
    ///
    /// `obstacle_ratio_bits` is the bit pattern of the obstacle ratio, a
    /// binary64 number.
    pub fn new(size: i32, obstacle_ratio_bits: u64, seed: i64) -> (r: Result<GridConfig, InvalidArgument>)
        ensures
            match r {
                Ok(config) => {
                    &&& MIN_SIZE <= size <= MAX_SIZE
                    &&& ratio_in_range(obstacle_ratio_bits)
                    &&& config.size() == size
                    &&& config.obstacle_ratio_bits() == obstacle_ratio_bits
                    &&& config.seed() == seed
                },
                Err(e) => if MIN_SIZE <= size <= MAX_SIZE {
                    e == InvalidArgument::RatioOutOfRange && !ratio_in_range(obstacle_ratio_bits)
                } else {
                    e == InvalidArgument::SizeOutOfRange
                },
            },
    {
        if size < MIN_SIZE || size > MAX_SIZE {
            return Err(InvalidArgument::SizeOutOfRange);
        }
        if !check_ratio(obstacle_ratio_bits) {
            return Err(InvalidArgument::RatioOutOfRange);
        }
        Ok(GridConfig { size, obstacle_ratio_bits, seed, start: (0, 0), goal: (size - 1, size - 1) })
    }

    /// The number of cells along each side.
    #[verifier::when_used_as_spec(spec_size)]
    pub fn size(&self) -> (n: i32)
        ensures
            n == self.size(),
            MIN_SIZE <= n <= MAX_SIZE,
    {
        proof {
            use_type_invariant(self);
        }
        self.size
    }

    /// The bit pattern of the obstacle ratio.
    #[verifier::when_used_as_spec(spec_obstacle_ratio_bits)]
    pub fn obstacle_ratio_bits(&self) -> (bits: u64)
        ensures
            bits == self.obstacle_ratio_bits(),
            ratio_in_range(bits),
    {
        proof {
            use_type_invariant(self);
        }
        self.obstacle_ratio_bits
    }

    /// The seed, which the search never reads.
    #[verifier::when_used_as_spec(spec_seed)]
    pub fn seed(&self) -> (seed: i64)
        ensures
            seed == self.seed(),
    {
        self.seed
    }

    pub open spec fn spec_expected_obstacle_count(&self) -> usize {
        expected_count(self.size() as int, self.obstacle_ratio_bits()) as usize
    }

    /// The number of obstacles that the configuration asks for: the floor
    /// of the area times the obstacle ratio.
    #[verifier::when_used_as_spec(spec_expected_obstacle_count)]
    pub fn expected_obstacle_count(&self) -> (count: usize)
        ensures
            count == self.expected_obstacle_count(),
            count == expected_count(self.size() as int, self.obstacle_ratio_bits()),
    {
        proof {
            use_type_invariant(self);
        }
        expected_obstacles(self.size, self.obstacle_ratio_bits)
    }

    /// The corner where routes begin: `(0, 0)`.
    pub fn start(&self) -> (c: (i32, i32))
        ensures
            c == (0i32, 0i32),
    {
        proof {
            use_type_invariant(self);
        }
        self.start
    }

    /// The corner where routes end: `(size - 1, size - 1)`.
    pub fn goal(&self) -> (c: (i32, i32))
        ensures
            c.0 == self.size() - 1,
            c.1 == self.size() - 1,
    {
        proof {
            use_type_invariant(self);
        }
        self.goal
    }
}

} // verus!
