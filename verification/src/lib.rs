//! A trace-to-layout engine for fork-join parallel computations.
//!
//! The input is a recorded run: one [`trace::TaskLog`] per executed task,
//! carrying timestamps, the executing thread, the spawned children and an
//! optional work account.  The engine rebuilds the fork-join structure of
//! the run as a tree of blocks, lays the tree out in a two-dimensional
//! coordinate space, and emits drawable rectangles and connector edges,
//! together with idle-time bars for every worker thread.
//!
//! All coordinates are fixed-point integers: one layout unit (the height of
//! a task row, or one trace time unit on the horizontal axis) is
//! [`geometry::UNIT`] = 100 coordinate steps, so a fifth of a unit — the
//! vertical gap between stacked blocks — and exact halving for centering are
//! both representable without rounding.

use vstd::prelude::*;

pub mod trace;
pub mod geometry;
pub mod fork_join_graph;
pub mod dimensions;
pub mod positions;
pub mod speeds;
pub mod render;
pub mod idle;
pub mod visualisation;

verus! {

} // verus!
