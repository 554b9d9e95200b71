//! The interface every graph representation offers to the kernels.

use crate::types::{AsNode, Edge, EdgeList, NodeId, Weight};
use vstd::prelude::*;

verus! {

/// The vertex ids that a sequence of vertex or edge handles stands for.
pub open spec fn ids<E: AsNode>(s: Seq<E>) -> Seq<NodeId> {
    s.map_values(|e: E| e.node_of())
}

/// Every edge of the list joins two of the first `num_nodes` vertices.
pub open spec fn edges_within(edge_list: Seq<Edge>, num_nodes: nat) -> bool {
    forall|i: int| 0 <= i < edge_list.len() ==> #[trigger] edge_list[i].0 < num_nodes
        && edge_list[i].1 < num_nodes
}

/// The edge `e` joins `v` to `w`: it runs from `v` to `w`, or, where the
/// graph is undirected, either way.
pub open spec fn edge_joins(e: Edge, v: NodeId, w: NodeId, directed: bool) -> bool {
    (e.0 == v && e.1 == w) || (!directed && e.0 == w && e.1 == v)
}

/// Some edge of the list joins `v` to `w`.
pub open spec fn has_edge(edge_list: Seq<Edge>, v: NodeId, w: NodeId, directed: bool) -> bool {
    exists|i: int| 0 <= i < edge_list.len() && #[trigger] edge_joins(edge_list[i], v, w, directed)
}

/// The weight of the last edge of the list that joins `v` to `w` (`None`
/// where none does).
pub open spec fn last_weight(edge_list: Seq<Edge>, v: NodeId, w: NodeId, directed: bool) -> Option<Weight>
    decreases edge_list.len(),
{
    if edge_list.len() == 0 {
        None
    } else if edge_joins(edge_list.last(), v, w, directed) {
        edge_list.last().2
    } else {
        last_weight(edge_list.drop_last(), v, w, directed)
    }
}

/// One more edge joins `v` to `w` where the edges before it did or the
/// new one does.
pub proof fn lemma_has_edge_push(edge_list: Seq<Edge>, i: int, v: NodeId, w: NodeId, directed: bool)
    requires
        0 <= i < edge_list.len(),
    ensures
        has_edge(edge_list.subrange(0, i + 1), v, w, directed) == (has_edge(
            edge_list.subrange(0, i),
            v,
            w,
            directed,
        ) || edge_joins(edge_list[i], v, w, directed)),
{
    let a = edge_list.subrange(0, i);
    let b = edge_list.subrange(0, i + 1);
    if has_edge(a, v, w, directed) {
        let k = choose|k: int| 0 <= k < a.len() && #[trigger] edge_joins(a[k], v, w, directed);
        assert(b[k] == a[k]);
        assert(edge_joins(b[k], v, w, directed));
    }
    if edge_joins(edge_list[i], v, w, directed) {
        assert(b[i] == edge_list[i]);
        assert(edge_joins(b[i], v, w, directed));
    }
    if has_edge(b, v, w, directed) {
        let k = choose|k: int| 0 <= k < b.len() && #[trigger] edge_joins(b[k], v, w, directed);
        if k < i {
            assert(a[k] == b[k]);
            assert(edge_joins(a[k], v, w, directed));
        } else {
            assert(b[k] == edge_list[i]);
        }
    }
}

/// Without direction, an edge joins its two ends either way round.
pub proof fn lemma_has_edge_sym(edge_list: Seq<Edge>, v: NodeId, w: NodeId)
    ensures
        has_edge(edge_list, v, w, false) == has_edge(edge_list, w, v, false),
{
    if has_edge(edge_list, v, w, false) {
        let k = choose|k: int| 0 <= k < edge_list.len() && #[trigger] edge_joins(edge_list[k], v, w, false);
        assert(edge_joins(edge_list[k], w, v, false));
    }
    if has_edge(edge_list, w, v, false) {
        let k = choose|k: int| 0 <= k < edge_list.len() && #[trigger] edge_joins(edge_list[k], w, v, false);
        assert(edge_joins(edge_list[k], v, w, false));
    }
}

/// A graph as the kernels read it.
pub trait CSRGraph<V: AsNode, E: AsNode>: Sized {
    /// The representation's own invariant.
    spec fn spec_wf(&self) -> bool;

    spec fn spec_directed(&self) -> bool;

    spec fn spec_num_nodes(&self) -> nat;

    spec fn spec_num_edges(&self) -> nat;

    spec fn spec_num_edges_directed(&self) -> nat;

    /// The vertices, in the order `vertices` hands them out.
    spec fn spec_vertices(&self) -> Seq<NodeId>;

    spec fn spec_has_vertex(&self, v: NodeId) -> bool;

    /// Out-neighbours of `v`, in the order `out_neigh` hands them out.
    spec fn spec_out(&self, v: NodeId) -> Seq<NodeId>;

    /// In-neighbours of `v`, in the order `in_neigh` hands them out.
    spec fn spec_in(&self, v: NodeId) -> Seq<NodeId>;

    /// The edge values `out_neigh` hands out for `v` (with any weight they carry).
    spec fn spec_out_edges(&self, v: NodeId) -> Seq<E>;

    fn build_directed(num_nodes: usize, edge_list: &EdgeList) -> (g: Self)
        requires
            edges_within(edge_list@, num_nodes as nat),
            edge_list@.len() < usize::MAX,
        ensures
            g.spec_wf(),
            g.spec_directed(),
            g.spec_num_nodes() == num_nodes,
            g.spec_num_edges_directed() <= edge_list@.len(),
            forall|v: NodeId, w: NodeId|
                v < num_nodes && w < num_nodes && v != w ==> (#[trigger] g.spec_out(v).contains(w)
                    <==> has_edge(edge_list@, v, w, true)),
            forall|v: NodeId, w: NodeId|
                v < num_nodes && w < num_nodes && v != w ==> (#[trigger] g.spec_in(w).contains(v)
                    <==> has_edge(edge_list@, v, w, true)),
            forall|v: NodeId, w: NodeId|
                #![trigger g.spec_out(v).contains(w)]
                #![trigger g.spec_in(w).contains(v)]
                v < num_nodes && w < num_nodes ==> (g.spec_out(v).contains(w) <==> g.spec_in(w).contains(v)),
            g.spec_vertices() == Seq::new(g.spec_num_nodes(), |i: int| i as NodeId),
            forall|v: NodeId| #[trigger] g.spec_has_vertex(v) <==> v < g.spec_num_nodes(),
            forall|v: NodeId, i: int|
                v < g.spec_num_nodes() && 0 <= i < g.spec_out(v).len() ==> #[trigger] g.spec_out(
                    v,
                )[i] < g.spec_num_nodes(),
            forall|v: NodeId, i: int|
                v < g.spec_num_nodes() && 0 <= i < g.spec_in(v).len() ==> #[trigger] g.spec_in(
                    v,
                )[i] < g.spec_num_nodes(),
            forall|v: NodeId| v < g.spec_num_nodes() ==> (#[trigger] g.spec_out(v)).len() <= usize::MAX,
    ;

    fn build_undirected(num_nodes: usize, edge_list: &EdgeList) -> (g: Self)
        requires
            edges_within(edge_list@, num_nodes as nat),
            edge_list@.len() < usize::MAX,
        ensures
            g.spec_wf(),
            !g.spec_directed(),
            g.spec_num_nodes() == num_nodes,
            g.spec_num_edges_directed() <= 2 * edge_list@.len(),
            forall|v: NodeId, w: NodeId|
                v < num_nodes && w < num_nodes && v != w ==> (#[trigger] g.spec_out(v).contains(w)
                    <==> has_edge(edge_list@, v, w, false)),
            forall|v: NodeId| v < num_nodes ==> (#[trigger] g.spec_in(v)).len() == 0,
            forall|v: NodeId, w: NodeId|
                #![trigger g.spec_out(v).contains(w), g.spec_out(w).contains(v)]
                v < num_nodes && w < num_nodes ==> (g.spec_out(v).contains(w) <==> g.spec_out(w).contains(v)),
            g.spec_vertices() == Seq::new(g.spec_num_nodes(), |i: int| i as NodeId),
            forall|v: NodeId| #[trigger] g.spec_has_vertex(v) <==> v < g.spec_num_nodes(),
            forall|v: NodeId, i: int|
                v < g.spec_num_nodes() && 0 <= i < g.spec_out(v).len() ==> #[trigger] g.spec_out(
                    v,
                )[i] < g.spec_num_nodes(),
            forall|v: NodeId, i: int|
                v < g.spec_num_nodes() && 0 <= i < g.spec_in(v).len() ==> #[trigger] g.spec_in(
                    v,
                )[i] < g.spec_num_nodes(),
            forall|v: NodeId| v < g.spec_num_nodes() ==> (#[trigger] g.spec_out(v)).len() <= usize::MAX,
    ;

    fn directed(&self) -> (b: bool)
        requires
            self.spec_wf(),
        ensures
            b == self.spec_directed(),
    ;

    fn num_nodes(&self) -> (n: usize)
        requires
            self.spec_wf(),
        ensures
            n == self.spec_num_nodes(),
    ;

    fn num_edges(&self) -> (n: usize)
        requires
            self.spec_wf(),
        ensures
            n == self.spec_num_edges(),
    ;

    fn num_edges_directed(&self) -> (n: usize)
        requires
            self.spec_wf(),
            self.spec_num_edges_directed() <= usize::MAX,
        ensures
            n == self.spec_num_edges_directed(),
    ;

    fn out_degree(&self, v: NodeId) -> (d: usize)
        requires
            self.spec_wf(),
            self.spec_has_vertex(v),
        ensures
            d == self.spec_out(v).len(),
    ;

    fn in_degree(&self, v: NodeId) -> (d: usize)
        requires
            self.spec_wf(),
            self.spec_has_vertex(v),
        ensures
            d == self.spec_in(v).len(),
    ;

    fn out_neigh(&self, v: NodeId) -> (r: Vec<E>)
        requires
            self.spec_wf(),
            self.spec_has_vertex(v),
        ensures
            ids(r@) == self.spec_out(v),
            r@ == self.spec_out_edges(v),
    ;

    fn in_neigh(&self, v: NodeId) -> (r: Vec<E>)
        requires
            self.spec_wf(),
            self.spec_has_vertex(v),
        ensures
            ids(r@) == self.spec_in(v),
    ;

    fn vertices(&self) -> (r: Vec<V>)
        requires
            self.spec_wf(),
        ensures
            ids(r@) == self.spec_vertices(),
    ;

    /// Sets the out-neighbours of `v` to the vertices of `edges`.
    fn replace_out_edges(&mut self, v: NodeId, edges: Vec<E>)
        requires
            old(self).spec_wf(),
            forall|i: int|
                0 <= i < edges@.len() ==> old(self).spec_has_vertex(#[trigger] edges@[i].node_of()),
        ensures
            final(self).spec_wf(),
            final(self).spec_num_nodes() == old(self).spec_num_nodes(),
            final(self).spec_directed() == old(self).spec_directed(),
            final(self).spec_vertices() == old(self).spec_vertices(),
            forall|x: NodeId| #[trigger]
                final(self).spec_has_vertex(x) == old(self).spec_has_vertex(x),
            forall|x: NodeId| #[trigger]
                final(self).spec_in(x) == old(self).spec_in(x),
            forall|x: NodeId| x != v ==> #[trigger]
                final(self).spec_out(x) == old(self).spec_out(x),
            old(self).spec_has_vertex(v) ==> final(self).spec_out(v).to_set() == ids(
                edges@,
            ).to_set(),
            !old(self).spec_has_vertex(v) ==> final(self).spec_out(v) == old(self).spec_out(v),
            old(self).spec_has_vertex(v) && ids(edges@).no_duplicates() ==> final(self).spec_out(
                v,
            ).no_duplicates(),
            old(self).spec_has_vertex(v) && crate::sortedmap::strictly_sorted(ids(edges@)) ==> crate::sortedmap::strictly_sorted(
                final(self).spec_out(v),
            ),
    ;

    /// Sets the in-neighbours of `v` to the vertices of `edges`.
    fn replace_in_edges(&mut self, v: NodeId, edges: Vec<E>)
        requires
            old(self).spec_wf(),
            forall|i: int|
                0 <= i < edges@.len() ==> old(self).spec_has_vertex(#[trigger] edges@[i].node_of()),
        ensures
            final(self).spec_wf(),
            final(self).spec_num_nodes() == old(self).spec_num_nodes(),
            final(self).spec_directed() == old(self).spec_directed(),
            final(self).spec_vertices() == old(self).spec_vertices(),
            forall|x: NodeId| #[trigger]
                final(self).spec_has_vertex(x) == old(self).spec_has_vertex(x),
            forall|x: NodeId| #[trigger]
                final(self).spec_out(x) == old(self).spec_out(x),
            forall|x: NodeId| x != v ==> #[trigger]
                final(self).spec_in(x) == old(self).spec_in(x),
            old(self).spec_has_vertex(v) ==> final(self).spec_in(v).to_set() == ids(
                edges@,
            ).to_set(),
            !old(self).spec_has_vertex(v) ==> final(self).spec_in(v) == old(self).spec_in(v),
            old(self).spec_has_vertex(v) && ids(edges@).no_duplicates() ==> final(self).spec_in(
                v,
            ).no_duplicates(),
            old(self).spec_has_vertex(v) && crate::sortedmap::strictly_sorted(ids(edges@)) ==> crate::sortedmap::strictly_sorted(
                final(self).spec_in(v),
            ),
    ;
}

/// The vertices are `0 .. num_nodes`, handed out in that order, and every
/// neighbour of a vertex is one of them.
pub open spec fn dense<V: AsNode, E: AsNode, G: CSRGraph<V, E>>(g: &G) -> bool {
    &&& g.spec_wf()
    &&& g.spec_vertices() == Seq::new(g.spec_num_nodes(), |i: int| i as NodeId)
    &&& forall|v: NodeId| #[trigger] g.spec_has_vertex(v) <==> v < g.spec_num_nodes()
    &&& forall|v: NodeId, i: int|
        v < g.spec_num_nodes() && 0 <= i < g.spec_out(v).len() ==> #[trigger] g.spec_out(v)[i]
            < g.spec_num_nodes()
    &&& forall|v: NodeId, i: int|
        v < g.spec_num_nodes() && 0 <= i < g.spec_in(v).len() ==> #[trigger] g.spec_in(v)[i]
            < g.spec_num_nodes()
}

/// A strictly increasing sequence of ids below `n` has at most `n` entries.
pub proof fn lemma_sorted_below_len(s: Seq<NodeId>, n: nat)
    requires
        crate::sortedmap::strictly_sorted(s),
        forall|i: int| 0 <= i < s.len() ==> #[trigger] s[i] < n,
    ensures
        s.len() <= n,
{
    assert forall|i: int| 0 <= i < s.len() implies #[trigger] s[i] >= i by {
        lemma_sorted_from(s, i);
    }
    if s.len() > 0 {
        assert(s[s.len() - 1] >= s.len() - 1);
    }
}

proof fn lemma_sorted_from(s: Seq<NodeId>, i: int)
    requires
        crate::sortedmap::strictly_sorted(s),
        0 <= i < s.len(),
    ensures
        s[i] >= i,
    decreases i,
{
    if i > 0 {
        lemma_sorted_from(s, i - 1);
        assert(s[i - 1] < s[i]);
    }
}

} // verus!
