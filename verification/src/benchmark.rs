//! Picking the source vertices that the kernels start from.

use crate::graph::CSRGraph;
use crate::random::RecordedRng;
use crate::types::{AsNode, NodeId};
use std::marker::PhantomData;
use vstd::prelude::*;

verus! {

/// Hands out start vertices: a given one, or vertices drawn uniformly from
/// the graph that have at least one out-edge.
pub struct SourcePicker<'a, V, E, G> {
    given_source: Option<NodeId>,
    rng: RecordedRng,
    num_nodes: usize,
    graph: &'a G,
    _phantom: PhantomData<(V, E)>,
}

impl<'a, V: AsNode, E: AsNode, G: CSRGraph<V, E>> SourcePicker<'a, V, E, G> {
    pub closed spec fn spec_given_source(&self) -> Option<NodeId> {
        self.given_source
    }

    pub closed spec fn spec_graph(&self) -> &'a G {
        self.graph
    }

    /// The draws the picker has made: `(low, high, vertex)` for each.
    pub closed spec fn spec_draws(&self) -> Seq<(usize, usize, usize)> {
        self.rng.draws()
    }

    /// What the picker needs of its graph: vertices `0 .. n`, `n > 0`.
    pub closed spec fn wf(&self) -> bool {
        &&& self.graph.spec_wf()
        &&& self.num_nodes == self.graph.spec_num_nodes()
        &&& self.num_nodes > 0
        &&& forall|v: NodeId| v < self.num_nodes ==> #[trigger] self.graph.spec_has_vertex(v)
    }

    /// A picker that draws its vertices at random.
    pub fn new(graph: &'a G) -> (sp: Self)
        requires
            graph.spec_wf(),
            graph.spec_num_nodes() > 0,
            forall|v: NodeId| v < graph.spec_num_nodes() ==> #[trigger] graph.spec_has_vertex(v),
        ensures
            sp.wf(),
            sp.spec_given_source() is None,
            sp.spec_graph() == graph,
            sp.spec_draws() == Seq::<(usize, usize, usize)>::empty(),
    {
        Self { given_source: None, rng: RecordedRng::new(), num_nodes: graph.num_nodes(), graph, _phantom: PhantomData }
    }

    /// A picker that always hands out `given_source`.
    pub fn from_source(graph: &'a G, given_source: NodeId) -> (sp: Self)
        requires
            graph.spec_wf(),
            graph.spec_num_nodes() > 0,
            forall|v: NodeId| v < graph.spec_num_nodes() ==> #[trigger] graph.spec_has_vertex(v),
        ensures
            sp.wf(),
            sp.spec_given_source() == Some(given_source),
            sp.spec_graph() == graph,
            sp.spec_draws() == Seq::<(usize, usize, usize)>::empty(),
    {
        Self {
            given_source: Some(given_source),
            rng: RecordedRng::new(),
            num_nodes: graph.num_nodes(),
            graph,
            _phantom: PhantomData,
        }
    }

    /// The test a drawn vertex must pass: `source` is handed out if it has
    /// an out-edge.
    pub fn check_drawn(&self, source: NodeId) -> (r: Option<NodeId>)
        requires
            self.wf(),
            source < self.spec_graph().spec_num_nodes(),
        ensures
            r == if self.spec_graph().spec_out(source).len() != 0 {
                Some(source)
            } else {
                None::<NodeId>
            },
    {
        if self.graph.out_degree(source) != 0 {
            Some(source)
        } else {
            None
        }
    }

    /// One try at a start vertex: the given one if there is one; otherwise a
    /// vertex drawn uniformly from all of `0 .. n` (one draw, recorded),
    /// handed out exactly when it has an out-edge. Where
    /// every vertex has an out-edge a draw always succeeds; a draw fails only
    /// where some vertex has none.
    pub fn try_pick(&mut self) -> (r: Option<NodeId>)
        requires
            old(self).wf(),
        ensures
            final(self).wf(),
            final(self).spec_given_source() == old(self).spec_given_source(),
            final(self).spec_graph() == old(self).spec_graph(),
            old(self).spec_given_source() matches Some(s) ==> r == Some(s) && final(self).spec_draws() == old(
                self,
            ).spec_draws(),
            old(self).spec_given_source() is None ==> {
                let d = final(self).spec_draws();
                let c = d.last().2;
                &&& d.len() == old(self).spec_draws().len() + 1
                &&& d.drop_last() == old(self).spec_draws()
                &&& d.last().0 == 0
                &&& d.last().1 == old(self).spec_graph().spec_num_nodes()
                &&& r == if old(self).spec_graph().spec_out(c).len() != 0 {
                    Some(c)
                } else {
                    None::<NodeId>
                }
            },
            old(self).spec_given_source() is None ==> match r {
                Some(s) => s < old(self).spec_graph().spec_num_nodes() && old(
                    self,
                ).spec_graph().spec_out(s).len() != 0,
                None => exists|v: NodeId|
                    v < old(self).spec_graph().spec_num_nodes() && #[trigger] old(
                        self,
                    ).spec_graph().spec_out(v).len() == 0,
            },
            old(self).spec_given_source() is None && (forall|v: NodeId|
                v < old(self).spec_graph().spec_num_nodes() ==> #[trigger] old(
                    self,
                ).spec_graph().spec_out(v).len() != 0) ==> r is Some,
    {
        if let Some(gs) = self.given_source {
            return Some(gs);
        }
        let source = self.rng.draw(0, self.num_nodes);
        proof {
            assert(self.spec_draws().drop_last() =~= old(self).spec_draws());
        }
        self.check_drawn(source)
    }
}

} // verus!
