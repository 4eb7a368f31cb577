//! Call-blocking simulation of a circuit-switched network: capacity-aware
//! routing strategies, a per-link capacity ledger and a sliding window of
//! in-flight calls.

pub mod matrix;
pub mod topology;
pub mod paths;
pub mod widest;
pub mod tables;
pub mod ledger;
pub mod lifecycle;
pub mod simulation;
