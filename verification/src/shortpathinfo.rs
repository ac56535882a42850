//! The result record handed to presentation layers: one source/dest pair,
//! its distance, and the reconstructed path.

use crate::minmax::MinMax;
use vstd::prelude::*;

verus! {

/// A shortest-path result: source, dest, distance, ordered path
/// (source to dest), path length, and the negative-cycle flag.
#[derive(Debug, Clone)]
pub struct ShortestPathInfo {
    pub source: usize,
    pub dest: usize,
    pub distance: MinMax<i64>,
    pub path: Vec<usize>,
    pub path_len: usize,
    pub has_negative_cycle: bool,
}

} // verus!
