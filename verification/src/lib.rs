//! Cheapest paths in a directed graph with non-negative edge weights whose
//! nodes lie on an integer grid, found by best-first search under the
//! Manhattan-distance estimate.
//!
//! The entry point is `algorithms::astar::astar`. What it returns is stated
//! over the state machine of `algorithms::search::Problem`, and proved right
//! in `algorithms::run`.

pub mod algorithms;
