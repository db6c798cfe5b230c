//! Verified fixed-point terrain synthesis and water-flow simulation.
//!
//! The crate holds two components. `heightmap` generates procedural
//! terrain by recursive midpoint displacement (diamond-square) over a
//! power-of-two-plus-one grid, followed by a neighbour-averaging
//! smoothing pass. `water` owns a grid of water depths over that terrain
//! and advances it one discrete step per tick, moving depth between
//! adjacent cells toward hydrostatic equilibrium and reporting every
//! cell whose depth or wet state changed.
//!
//! All quantities are fixed-point: one whole unit of elevation or depth
//! is `ONE` ticks of the underlying `i64` scale. The arithmetic is
//! therefore exact, every contract pins its result down, and mass
//! conservation of the flow step is provable to the last tick.

use vstd::prelude::*;

pub mod heightmap;
pub mod num;
pub mod rng;
pub mod water;

verus! {

/// Fixed-point scale: the representation of 1.0 units of height or depth.
pub const ONE: i64 = 1_000_000;

/// Largest magnitude of a terrain height the water simulator accepts.
pub const HEIGHT_BOUND: i64 = 35_184_372_088_832;

/// Depths are saturated at this cap when a step would push one past it.
pub const DEPTH_CAP: i64 = 35_184_372_088_832;

/// Largest inflow rate (depth ticks per second) the simulator accepts.
pub const INFLOW_BOUND: i64 = 1_099_511_627_776;

/// Largest elapsed time, in milliseconds, a single step may cover.
///
/// Under this bound a transfer never exceeds the level difference that
/// drives it, which keeps every intermediate value representable.
pub const STEP_MS_BOUND: u64 = 4000;

} // verus!
