//! Shortest paths on directed graphs with signed integer edge weights.
//!
//! The crate provides a deterministic graph store, a four-variant distance
//! lattice, single-source Bellman-Ford with negative-cycle detection,
//! single-source Dijkstra, and Johnson's all-pairs algorithm, which composes
//! the two through potential-based reweighting.

pub mod bellman;
pub mod dijkstra;
pub mod dirgraph;
pub mod disttable;
pub mod johnson;
pub mod minmax;
pub mod shortpathinfo;
