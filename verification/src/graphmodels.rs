//! Graph representations: each keeps vertices and edges in its own way and
//! offers the `CSRGraph` interface.

pub mod arc;
pub mod arena;
pub mod epoch;
pub mod gc;
pub mod node;
pub mod reach;
pub mod rc;
