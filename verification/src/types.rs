//! Common types for vertices, edges and edge lists, and the suite's constants.

use vstd::prelude::*;

verus! {

/// Something that stands for a vertex of a graph.
pub trait AsNode {
    /// The vertex this value stands for.
    spec fn node_of(&self) -> NodeId;

    fn as_node(&self) -> (r: NodeId)
        ensures
            r == self.node_of(),
    ;
}

/// An edge that may carry a weight.
pub trait WeightedEdge {
    /// The weight this edge carries, if any.
    spec fn weight_of(&self) -> Option<Weight>;

    /// The weight of the edge; a weight must have been assigned.
    fn get_weight(&self) -> (w: usize)
        requires
            self.weight_of() is Some,
        ensures
            self.weight_of() == Some(w),
    ;

    fn set_weight(&mut self, weight: usize)
        ensures
            final(self).weight_of() == Some(weight),
    ;
}

pub type NodeId = usize;

pub type DestId = NodeId;

pub type Weight = NodeId;

/// An edge `(source, destination, weight)`.
pub type Edge = (NodeId, DestId, Option<Weight>);

pub type WEdge = (NodeId, DestId, Weight);

pub type EdgeList = Vec<Edge>;

pub type WEdgeList = Vec<WEdge>;

// GAP benchmark suite
pub const NUM_TRIALS: usize = 1;

/// `true` builds graphs with `build_directed`, `false` with `build_undirected`.
pub const SYMMETRIZE: bool = true;

pub const UNIFORM: bool = true;

pub const NEEDS_WEIGHTS: bool = true;

pub const INVERT: bool = false;

pub const SCALE: usize = 8;

pub const DEGREE: usize = 10;

// GC bench
pub const GRAPH_SIZE: i64 = 1 << 18;

#[allow(non_upper_case_globals)]
pub const kStretchTreeDepth: i32 = 16;

#[allow(non_upper_case_globals)]
pub const kLongLivedTreeDepth: i32 = 14;

#[allow(non_upper_case_globals)]
pub const kMaxTreeDepth: i32 = 14;

#[allow(non_upper_case_globals)]
pub const kArraySize: i32 = 500000;

#[allow(non_upper_case_globals)]
pub const kMinTreeDepth: i32 = 4;

} // verus!
