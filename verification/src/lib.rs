//! Graph kernels of the GAP benchmark suite and the graph representations
//! they run on, with their behaviour stated and proved.

pub mod benchmark;
pub mod bfs;
pub mod bitvec;
pub mod builder;
pub mod cc;
pub mod edgefile;
pub mod gcbench;
pub mod generator;
pub mod graph;
pub mod graphmodels;
pub mod ops;
pub mod random;
pub mod slidingqueue;
pub mod sortedmap;
pub mod sssp;
pub mod sssp_parts;
pub mod tc;
pub mod timer;
pub mod treenodes;
pub mod types;

use vstd::prelude::*;

verus! {

/// Seed that the benchmark harness hands to its random number generators.
pub const K_RAND_SEED: usize = 52;

} // verus!
