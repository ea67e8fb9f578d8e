//! Fixed-radius near-neighbour join over a three-dimensional point cloud:
//! given points that each carry an identity, find every pair of
//! identities whose points lie strictly closer than [`THRESHOLD`].
//!
//! Coordinates are fixed-point integers that count ticks, with
//! [`TICKS_PER_UNIT`] ticks to the unit of length, so that distances are
//! compared exactly. [`parse_input`] reads a cloud from decimal text.
//!
//! Three engines compute the same answer: [`solve_naive`] tests all pairs,
//! [`ScanSolver`] sweeps the cloud sorted by `x`, and [`SubscanSolver`]
//! keeps the points within reach along `x` ordered by `y` as well.
//! [`solve_threaded`] sorts the cloud, shares it out in chunks to workers
//! that run one of the sweep engines, and gathers what they find.
//! [`compute_closeness`] profiles the three axes.
//!
//! The module [`pairs`] says what the answer of a join is, and [`laws`]
//! what holds of it whichever engine computes it.

pub mod checks;
pub mod closeness;
pub mod columns;
pub mod laws;
pub mod naive;
pub mod number;
pub mod pairs;
mod parallel;
pub mod parse;
pub mod point;
pub mod scan;
pub mod solver;
pub mod subscan;
pub mod threaded;

pub use checks::{has_distinct_ids, is_sorted_by_x};
pub use closeness::{can_count_pairs, closeness_1d, compute_closeness};
pub use columns::rebuild_columns;
pub use naive::solve_naive;
pub use number::parse_number;
pub use parse::{parse_input, ParseError};
pub use point::{is_close, Pair, Point, MAX_POINTS, THRESHOLD, THRESHOLD2, TICKS_PER_UNIT};
pub use scan::{scan_batch, ScanSolver, LANES};
pub use solver::{window_start, IntervalSolver};
pub use subscan::SubscanSolver;
pub use threaded::{chunk_bounds, reduce_partials, solve_chunk, solve_threaded};
