//! Analyses of a circuit's subcircuits.

pub mod graph;
pub mod schedule;
pub mod priority;
pub mod results;
pub mod analyses;
pub mod laws;
