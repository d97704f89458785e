//! The search, the models it is stated over, and the proofs behind it.
//!
//! - `astar`: the search itself.
//! - `frontier`: the priority queue it draws from.
//! - `heuristic`: the Manhattan-distance estimate.
//! - `graph`: edges, walks and their weight.
//! - `search`: the search as a state machine, step by step.
//! - `soundness`: the invariant of that machine, move by move.
//! - `run`: the invariant over a whole run, and what follows for the answer.
//! - `progress`: the measure by which the search comes to an end.
//! - `trail`: walks written with running totals.

pub mod astar;
pub mod frontier;
pub mod graph;
pub mod heuristic;
pub mod progress;
pub mod run;
pub mod search;
pub mod soundness;
pub mod trail;
