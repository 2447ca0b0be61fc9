//! In-memory sparse-graph analytics: a weighted undirected graph store with
//! structural metrics, greedy modularity community detection, shortest paths,
//! and stochastic influence diffusion.
//!
//! All statistics are exact: fractional results are returned as
//! numerator/denominator pairs, and all iteration orders are deterministic
//! (ascending node id), so every query is reproducible.
#![verifier::loop_isolation(false)]

pub mod community;
pub mod graph;
pub mod influence;
pub mod metrics;
pub mod path;
pub mod ratio;
