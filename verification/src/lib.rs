//! A best-first graph search library: a generic A* engine over a
//! caller-supplied search space, together with a knight's-move example
//! problem on an integer grid.

pub mod engine;
pub mod knight;
