//! The lock-free transactional graph model: the vertex and edge values it
//! hands out, and the pure parts of its list algorithms (tag bits on
//! pointers, the coordinates of a key, and when a key counts as present).

pub mod adjlist;
pub mod lftt;
pub mod mdlist;

use crate::types::{AsNode, NodeId, Weight, WeightedEdge};
use vstd::prelude::*;

verus! {

/// A vertex handle that is just the vertex id.
#[derive(Clone, Copy)]
pub struct CustomNode(pub usize);

impl AsNode for CustomNode {
    open spec fn node_of(&self) -> NodeId {
        self.0
    }

    fn as_node(&self) -> (r: NodeId) {
        self.0
    }
}

/// Something stored in the list under a key.
pub trait Vertex {
    fn key(&self) -> usize;
}

/// What an edge of the model carries: the vertex it leads to, and maybe a
/// weight.
#[derive(Copy, Clone, Debug)]
pub struct EdgeInfo {
    pub node_id: NodeId,
    pub weight: Option<Weight>,
}

impl WeightedEdge for EdgeInfo {
    open spec fn weight_of(&self) -> Option<Weight> {
        self.weight
    }

    fn get_weight(&self) -> (w: usize) {
        self.weight.unwrap()
    }

    fn set_weight(&mut self, weight: usize) {
        self.weight = Some(weight);
    }
}

impl AsNode for EdgeInfo {
    open spec fn node_of(&self) -> NodeId {
        self.node_id
    }

    fn as_node(&self) -> (r: NodeId) {
        self.node_id
    }
}

} // verus!
