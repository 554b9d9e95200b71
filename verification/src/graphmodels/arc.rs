//! The weighted graph model (the suite's `arc` model; here no shared
//! ownership: a table of vertices keyed by id, each holding its in- and
//! out-neighbours by id with the weight every edge was added with).
//! Self-edges are refused; an edge added again keeps the later
//! weight. The model counts every call that adds an edge, by direction.

use crate::graph::{ids, CSRGraph};
use crate::graphmodels::node::{lemma_table_matches_step, table_matches, NodeTable};
use crate::graphmodels::reach::{bfs_count, hit_from, reachable};
pub use crate::graphmodels::node::Node;
use crate::types::{AsNode, EdgeList, NodeId, Weight, WeightedEdge};
use vstd::prelude::*;

verus! {

/// A handle to a vertex, with the weight of the edge it was reached by.
#[derive(Clone, Copy)]
pub struct WrappedNode {
    pub node_id: NodeId,
    pub weight: Option<Weight>,
}

impl AsNode for WrappedNode {
    open spec fn node_of(&self) -> NodeId {
        self.node_id
    }

    fn as_node(&self) -> (r: NodeId) {
        self.node_id
    }
}

impl WeightedEdge for WrappedNode {
    open spec fn weight_of(&self) -> Option<Weight> {
        self.weight
    }

    fn get_weight(&self) -> (w: usize) {
        self.weight.unwrap()
    }

    fn set_weight(&mut self, weight: usize) {
        self.weight = Some(weight);
    }
}

impl WrappedNode {
    pub fn from_node<T>(node: &Node<T>, weight: &Option<Weight>) -> (w: WrappedNode)
        ensures
            w.node_id == node.id(),
            w.weight == *weight,
    {
        WrappedNode { node_id: node.get_id(), weight: *weight }
    }
}

/// Handles to the neighbours `keys`, each with the weight `weights` gives it.
pub open spec fn weighted_handles(keys: Seq<NodeId>, weights: Map<NodeId, Option<Weight>>) -> Seq<
    WrappedNode,
> {
    keys.map_values(|k: NodeId| WrappedNode { node_id: k, weight: weights[k] })
}

/// The out-edges of a vertex, in increasing order of neighbour.
pub fn out_handles<T>(node: &Node<T>) -> (r: Vec<WrappedNode>)
    requires
        node.wf(),
    ensures
        r@ == weighted_handles(node.out_keys(), node.out_map()),
{
    let mut r: Vec<WrappedNode> = Vec::new();
    let keys = node.out_key_list();
    let n = keys.len();
    let mut i: usize = 0;
    while i < n
        invariant
            node.wf(),
            keys@ == node.out_keys(),
            n == node.out_keys().len(),
            i <= n,
            r@ == weighted_handles(node.out_keys().subrange(0, i as int), node.out_map()),
        decreases n - i,
    {
        let k = keys[i];
        proof {
            node.lemma_keys();
            assert(node.out_keys().to_set().contains(k));
        }
        let w = node.out_weight_of(k);
        r.push(WrappedNode { node_id: k, weight: w });
        assert(r@ =~= weighted_handles(node.out_keys().subrange(0, i + 1), node.out_map()));
        i = i + 1;
    }
    assert(node.out_keys().subrange(0, n as int) =~= node.out_keys());
    r
}

/// The in-edges of a vertex, in increasing order of neighbour.
pub fn in_handles<T>(node: &Node<T>) -> (r: Vec<WrappedNode>)
    requires
        node.wf(),
    ensures
        r@ == weighted_handles(node.in_keys(), node.in_map()),
{
    let mut r: Vec<WrappedNode> = Vec::new();
    let keys = node.in_key_list();
    let n = keys.len();
    let mut i: usize = 0;
    while i < n
        invariant
            node.wf(),
            keys@ == node.in_keys(),
            n == node.in_keys().len(),
            i <= n,
            r@ == weighted_handles(node.in_keys().subrange(0, i as int), node.in_map()),
        decreases n - i,
    {
        let k = keys[i];
        proof {
            node.lemma_keys();
            assert(node.in_keys().to_set().contains(k));
        }
        let w = node.in_weight_of(k);
        r.push(WrappedNode { node_id: k, weight: w });
        assert(r@ =~= weighted_handles(node.in_keys().subrange(0, i + 1), node.in_map()));
        i = i + 1;
    }
    assert(node.in_keys().subrange(0, n as int) =~= node.in_keys());
    r
}

/// The ids and weights of `edges`, in the same order.
pub fn weighted_pairs(edges: &Vec<WrappedNode>) -> (r: Vec<(NodeId, Option<Weight>)>)
    ensures
        r@.map_values(|t: (NodeId, Option<Weight>)| t.0) == ids(edges@),
        r@.len() == edges@.len(),
        forall|k: int|
            0 <= k < r@.len() ==> #[trigger] r@[k] == (edges@[k].node_id, edges@[k].weight),
{
    let mut r: Vec<(NodeId, Option<Weight>)> = Vec::new();
    let mut i: usize = 0;
    while i < edges.len()
        invariant
            i <= edges@.len(),
            r@.len() == i,
            forall|k: int|
                0 <= k < i ==> #[trigger] r@[k] == (edges@[k].node_id, edges@[k].weight),
        decreases edges@.len() - i,
    {
        r.push((edges[i].node_id, edges[i].weight));
        i = i + 1;
    }
    assert(r@.map_values(|t: (NodeId, Option<Weight>)| t.0) =~= ids(edges@));
    r
}

pub struct Graph<T> {
    vertices: NodeTable<T>,
    num_edges_directed: usize,
    num_edges_undirected: usize,
    directed: bool,
}

impl<T> Graph<T> {
    pub closed spec fn table(&self) -> NodeTable<T> {
        self.vertices
    }

    /// What the graph interface reports, read off the vertex table: the
    /// invariant, the direction, the vertices and the neighbours.
    pub proof fn lemma_interface(&self)
        ensures
            self.spec_wf() == self.table().wf(),
            self.spec_directed() == self.spec_is_directed(),
            self.spec_num_nodes() == self.table().ids().len(),
            self.spec_vertices() == self.table().ids(),
            self.spec_num_edges() == self.spec_undirected_count(),
            self.spec_num_edges_directed() == self.spec_directed_count(),
            self.spec_directed_count() <= usize::MAX,
            forall|v: NodeId| #[trigger] self.spec_has_vertex(v) == self.table().has(v),
            forall|v: NodeId| #[trigger] self.spec_out(v) == self.table().out(v),
            forall|v: NodeId| #[trigger] self.spec_in(v) == self.table().inn(v),
            forall|v: NodeId| #[trigger] self.spec_out_edges(v) == weighted_handles(
                self.table().out(v),
                self.table().node(v).out_map(),
            ),
    {
    }

    /// Calls of `add_edge` that added a directed edge.
    pub closed spec fn spec_directed_count(&self) -> nat {
        self.num_edges_directed as nat
    }

    /// Calls of `add_edge` that added an undirected edge.
    pub closed spec fn spec_undirected_count(&self) -> nat {
        self.num_edges_undirected as nat
    }

    pub closed spec fn spec_is_directed(&self) -> bool {
        self.directed
    }

    pub fn new(directed: bool) -> (g: Self)
        ensures
            g.table().wf(),
            forall|v: NodeId| !g.table().has(v),
            g.table().ids() == Seq::<NodeId>::empty(),
            g.spec_directed_count() == 0,
            g.spec_undirected_count() == 0,
            g.spec_is_directed() == directed,
    {
        Graph { vertices: NodeTable::new(), num_edges_directed: 0, num_edges_undirected: 0, directed }
    }

    pub fn find_vertex(&self, vertex: NodeId) -> (r: Option<&Node<T>>)
        requires
            self.table().wf(),
        ensures
            match r {
                Some(n) => self.table().has(vertex) && *n == self.table().node(vertex),
                None => !self.table().has(vertex),
            },
    {
        self.vertices.get(vertex)
    }

    /// Adds vertex `node_id` unless the graph has one already; hands back a
    /// handle to the vertex.
    pub fn add_vertex(&mut self, node_id: NodeId, value: Option<T>) -> (w: WrappedNode)
        requires
            old(self).table().wf(),
        ensures
            w.node_of() == node_id,
            w.weight_of() == None::<Weight>,
            final(self).table().wf(),
            final(self).spec_directed_count() == old(self).spec_directed_count(),
            final(self).spec_undirected_count() == old(self).spec_undirected_count(),
            final(self).spec_is_directed() == old(self).spec_is_directed(),
            forall|v: NodeId| #[trigger]
                final(self).table().has(v) == (old(self).table().has(v) || v == node_id),
            forall|v: NodeId| #[trigger]
                old(self).table().has(v) ==> final(self).table().node(v) == old(self).table().node(
                    v,
                ),
            !old(self).table().has(node_id) ==> final(self).table().node(node_id).spec_value()
                == value && final(self).table().out(node_id) == Seq::<NodeId>::empty()
                && final(self).table().inn(node_id) == Seq::<NodeId>::empty(),
            final(self).table().ids().to_set() == old(self).table().ids().to_set().insert(node_id),
            (forall|j: int|
                0 <= j < old(self).table().ids().len() ==> old(self).table().ids()[j] < node_id)
                ==> final(self).table().ids() == old(self).table().ids().push(node_id),
    {
        self.vertices.add_vertex(node_id, value);
        WrappedNode { node_id, weight: None }
    }

    /// Adds the edge `vertex -> edge` with `weight` (mirrored as an
    /// out-edge of `edge` when `directed` is false, as an in-edge when it is
    /// true). Both vertices must exist. Every call counts, in the count of
    /// its direction.
    pub fn add_edge(&mut self, vertex: NodeId, edge: NodeId, weight: &Option<Weight>, directed: bool)
        requires
            old(self).table().wf(),
            old(self).table().has(vertex),
            old(self).table().has(edge),
            directed ==> old(self).spec_directed_count() < usize::MAX,
            !directed ==> old(self).spec_undirected_count() < usize::MAX,
        ensures
            final(self).table().wf(),
            final(self).spec_is_directed() == old(self).spec_is_directed(),
            final(self).table().ids() == old(self).table().ids(),
            forall|v: NodeId| #[trigger] final(self).table().has(v) == old(self).table().has(v),
            forall|v: NodeId|
                v != vertex && v != edge ==> #[trigger] final(self).table().node(v) == old(
                    self,
                ).table().node(v),
            directed ==> final(self).spec_directed_count() == old(self).spec_directed_count() + 1
                && final(self).spec_undirected_count() == old(self).spec_undirected_count(),
            !directed ==> final(self).spec_undirected_count() == old(self).spec_undirected_count()
                + 1 && final(self).spec_directed_count() == old(self).spec_directed_count(),
            vertex == edge ==> final(self).table() == old(self).table(),
            vertex != edge ==> {
                &&& final(self).table().node(vertex).out_map() == old(self).table().node(
                    vertex,
                ).out_map().insert(edge, *weight)
                &&& final(self).table().node(vertex).in_map() == old(self).table().node(
                    vertex,
                ).in_map()
                &&& !directed ==> final(self).table().node(edge).out_map() == old(
                    self,
                ).table().node(edge).out_map().insert(vertex, *weight)
                    && final(self).table().node(edge).in_map() == old(self).table().node(
                    edge,
                ).in_map()
                &&& directed ==> final(self).table().node(edge).in_map() == old(
                    self,
                ).table().node(edge).in_map().insert(vertex, *weight)
                    && final(self).table().node(edge).out_map() == old(self).table().node(
                    edge,
                ).out_map()
            },
    {
        if !directed {
            self.num_edges_undirected = self.num_edges_undirected + 1;
        } else {
            self.num_edges_directed = self.num_edges_directed + 1;
        }
        self.vertices.connect(vertex, edge, *weight, directed);
    }

    /// `add_edge` between two vertices given by their handles.
    pub fn connect(
        &mut self,
        vertex_node: &WrappedNode,
        edge_node: &WrappedNode,
        weight: &Option<Weight>,
        directed: bool,
    )
        requires
            old(self).table().wf(),
            old(self).table().has(vertex_node.node_of()),
            old(self).table().has(edge_node.node_of()),
            directed ==> old(self).spec_directed_count() < usize::MAX,
            !directed ==> old(self).spec_undirected_count() < usize::MAX,
        ensures
            final(self).table().wf(),
            final(self).table().ids() == old(self).table().ids(),
            forall|v: NodeId| #[trigger] final(self).table().has(v) == old(self).table().has(v),
            vertex_node.node_of() == edge_node.node_of() ==> final(self).table() == old(
                self,
            ).table(),
            vertex_node.node_of() != edge_node.node_of() ==> final(self).table().node(
                vertex_node.node_of(),
            ).out_map() == old(self).table().node(vertex_node.node_of()).out_map().insert(
                edge_node.node_of(),
                *weight,
            ),
    {
        self.add_edge(vertex_node.node_id, edge_node.node_id, weight, directed);
    }
}

impl<T> Graph<T> {
    /// Breadth-first search from vertex `start`: how many vertices it
    /// discovers; with a `goal`, how many it had discovered when it first
    /// met an edge to the goal.
    pub fn bfs(&self, start: NodeId, goal: Option<NodeId>) -> (r: usize)
        requires
            self.table().wf(),
            self.table().has(start),
        ensures
            1 <= r <= reachable(self.table(), start).len(),
            (goal is None || !hit_from(self.table(), start, goal.unwrap())) ==> r == reachable(
                self.table(),
                start,
            ).len(),
    {
        bfs_count(&self.vertices, start, goal)
    }
}

impl<T> CSRGraph<WrappedNode, WrappedNode> for Graph<T> {
    closed spec fn spec_wf(&self) -> bool {
        self.vertices.wf()
    }

    closed spec fn spec_directed(&self) -> bool {
        self.directed
    }

    closed spec fn spec_num_nodes(&self) -> nat {
        self.vertices.ids().len()
    }

    closed spec fn spec_num_edges(&self) -> nat {
        self.num_edges_undirected as nat
    }

    closed spec fn spec_num_edges_directed(&self) -> nat {
        self.num_edges_directed as nat
    }

    closed spec fn spec_vertices(&self) -> Seq<NodeId> {
        self.vertices.ids()
    }

    closed spec fn spec_has_vertex(&self, v: NodeId) -> bool {
        self.vertices.has(v)
    }

    closed spec fn spec_out(&self, v: NodeId) -> Seq<NodeId> {
        self.vertices.out(v)
    }

    closed spec fn spec_in(&self, v: NodeId) -> Seq<NodeId> {
        self.vertices.inn(v)
    }

    closed spec fn spec_out_edges(&self, v: NodeId) -> Seq<WrappedNode> {
        weighted_handles(self.vertices.out(v), self.vertices.node(v).out_map())
    }

    fn build_directed(num_nodes: usize, edge_list: &EdgeList) -> (g: Self)
        ensures
            g.spec_num_edges_directed() <= edge_list@.len(),
            forall|v: NodeId| v < num_nodes ==> crate::sortedmap::strictly_sorted(#[trigger] g.spec_out(v))
                && !g.spec_out(v).contains(v),
            forall|v: NodeId, j: int|
                v < num_nodes && 0 <= j < g.spec_out_edges(v).len() ==> (#[trigger] g.spec_out_edges(v)[j]).weight_of()
                    == crate::graph::last_weight(edge_list@, v, g.spec_out_edges(v)[j].node_of(), true),
    {
        let g = build(num_nodes, edge_list, true);
        proof {
            assert forall|v: NodeId| v < num_nodes implies (#[trigger] g.vertices.out(v)).len() <= usize::MAX by {
                crate::graph::lemma_sorted_below_len(g.vertices.out(v), num_nodes as nat);
            }
            g.vertices.lemma_wf();
            assert forall|v: NodeId, j: int|
                v < num_nodes && 0 <= j < g.spec_out_edges(v).len() implies (#[trigger] g.spec_out_edges(v)[j]).weight_of()
                    == crate::graph::last_weight(edge_list@, v, g.spec_out_edges(v)[j].node_of(), true) by {
                let k = g.vertices.out(v)[j];
                assert(g.vertices.has(v));
                g.vertices.node(v).lemma_keys();
                assert(g.vertices.out(v).to_set().contains(k));
                assert(k < num_nodes);
            }
            assert forall|v: NodeId, w: NodeId| v < num_nodes && w < num_nodes implies (g.spec_out(v).contains(w)
                <==> g.spec_in(w).contains(v)) by {
                if v != w {
                    assert(g.vertices.out(v).contains(w) <==> crate::graph::has_edge(edge_list@, v, w, true));
                    assert(g.vertices.inn(w).contains(v) <==> crate::graph::has_edge(edge_list@, v, w, true));
                } else {
                    assert(!g.vertices.out(v).contains(v) && !g.vertices.inn(v).contains(v));
                }
            }
        }
        g
    }

    fn build_undirected(num_nodes: usize, edge_list: &EdgeList) -> (g: Self)
        ensures
            g.spec_num_edges_directed() == 0,
            forall|v: NodeId| v < num_nodes ==> crate::sortedmap::strictly_sorted(#[trigger] g.spec_out(v))
                && !g.spec_out(v).contains(v),
            forall|v: NodeId, j: int|
                v < num_nodes && 0 <= j < g.spec_out_edges(v).len() ==> (#[trigger] g.spec_out_edges(v)[j]).weight_of()
                    == crate::graph::last_weight(edge_list@, v, g.spec_out_edges(v)[j].node_of(), false),
    {
        let g = build(num_nodes, edge_list, false);
        proof {
            assert forall|v: NodeId| v < num_nodes implies (#[trigger] g.vertices.out(v)).len() <= usize::MAX by {
                crate::graph::lemma_sorted_below_len(g.vertices.out(v), num_nodes as nat);
            }
            g.vertices.lemma_wf();
            assert forall|v: NodeId, j: int|
                v < num_nodes && 0 <= j < g.spec_out_edges(v).len() implies (#[trigger] g.spec_out_edges(v)[j]).weight_of()
                    == crate::graph::last_weight(edge_list@, v, g.spec_out_edges(v)[j].node_of(), false) by {
                let k = g.vertices.out(v)[j];
                assert(g.vertices.has(v));
                g.vertices.node(v).lemma_keys();
                assert(g.vertices.out(v).to_set().contains(k));
                assert(k < num_nodes);
            }
            assert forall|v: NodeId, w: NodeId| v < num_nodes && w < num_nodes implies (g.spec_out(v).contains(w)
                <==> g.spec_out(w).contains(v)) by {
                if v != w {
                    crate::graph::lemma_has_edge_sym(edge_list@, v, w);
                    assert(g.vertices.out(v).contains(w) <==> crate::graph::has_edge(edge_list@, v, w, false));
                    assert(g.vertices.out(w).contains(v) <==> crate::graph::has_edge(edge_list@, w, v, false));
                }
            }
            assert forall|v: NodeId| v < num_nodes implies (#[trigger] g.spec_in(v)).len() == 0 by {
                assert(g.vertices.inn(v).len() == 0);
            }
        }
        g
    }

    fn directed(&self) -> (b: bool) {
        self.directed
    }

    fn num_nodes(&self) -> (n: usize) {
        self.vertices.len()
    }

    fn num_edges(&self) -> (n: usize) {
        self.num_edges_undirected
    }

    fn num_edges_directed(&self) -> (n: usize) {
        self.num_edges_directed
    }

    fn out_degree(&self, v: NodeId) -> (d: usize) {
        match self.vertices.get(v) {
            Some(node) => node.out_degree(),
            None => 0,
        }
    }

    fn in_degree(&self, v: NodeId) -> (d: usize) {
        match self.vertices.get(v) {
            Some(node) => node.in_degree(),
            None => 0,
        }
    }

    fn out_neigh(&self, v: NodeId) -> (r: Vec<WrappedNode>) {
        proof {
            self.vertices.lemma_wf();
        }
        match self.vertices.get(v) {
            Some(node) => {
                let r = out_handles(node);
                assert(ids(r@) =~= self.vertices.out(v));
                r
            },
            None => Vec::new(),
        }
    }

    fn in_neigh(&self, v: NodeId) -> (r: Vec<WrappedNode>) {
        proof {
            self.vertices.lemma_wf();
        }
        match self.vertices.get(v) {
            Some(node) => {
                let r = in_handles(node);
                assert(ids(r@) =~= self.vertices.inn(v));
                r
            },
            None => Vec::new(),
        }
    }

    fn vertices(&self) -> (r: Vec<WrappedNode>) {
        let keys = self.vertices.ids_vec();
        let mut r: Vec<WrappedNode> = Vec::new();
        let mut i: usize = 0;
        while i < keys.len()
            invariant
                i <= keys@.len(),
                r@.len() == i,
                forall|k: int| 0 <= k < i ==> #[trigger] r@[k].node_id == keys@[k],
            decreases keys@.len() - i,
        {
            r.push(WrappedNode { node_id: keys[i], weight: None });
            i = i + 1;
        }
        assert(ids(r@) =~= keys@);
        r
    }

    fn replace_out_edges(&mut self, v: NodeId, edges: Vec<WrappedNode>) {
        let pairs = weighted_pairs(&edges);
        proof {
            assert forall|i: int| 0 <= i < pairs@.len() implies #[trigger] self.vertices.has(
                pairs@[i].0,
            ) by {
                assert(self.spec_has_vertex(edges@[i].node_of()));
            }
        }
        self.vertices.replace_edges(v, &pairs, true);
        proof {
            if self.vertices.has(v) {
                self.vertices.lemma_no_dup(v);
            }
        }
    }

    fn replace_in_edges(&mut self, v: NodeId, edges: Vec<WrappedNode>) {
        let pairs = weighted_pairs(&edges);
        proof {
            assert forall|i: int| 0 <= i < pairs@.len() implies #[trigger] self.vertices.has(
                pairs@[i].0,
            ) by {
                assert(self.spec_has_vertex(edges@[i].node_of()));
            }
        }
        self.vertices.replace_edges(v, &pairs, false);
        proof {
            if self.vertices.has(v) {
                self.vertices.lemma_no_dup(v);
            }
        }
    }
}

/// A graph with vertices `0 .. num_nodes` and the edges of `edge_list`,
/// each with its weight.
fn build<T>(num_nodes: usize, edge_list: &EdgeList, directed: bool) -> (g: Graph<T>)
    requires
        crate::graph::edges_within(edge_list@, num_nodes as nat),
        edge_list@.len() < usize::MAX,
    ensures
        g.vertices.wf(),
        g.directed == directed,
        g.vertices.ids() == Seq::new(num_nodes as nat, |i: int| i as NodeId),
        forall|v: NodeId| #[trigger] g.vertices.has(v) <==> v < num_nodes,
        forall|v: NodeId, i: int|
            v < num_nodes && 0 <= i < g.vertices.out(v).len() ==> #[trigger] g.vertices.out(v)[i]
                < num_nodes,
        forall|v: NodeId, i: int|
            v < num_nodes && 0 <= i < g.vertices.inn(v).len() ==> #[trigger] g.vertices.inn(v)[i]
                < num_nodes,
        forall|v: NodeId, w: NodeId|
            v < num_nodes && w < num_nodes && v != w ==> (#[trigger] g.vertices.out(v).contains(w)
                <==> crate::graph::has_edge(edge_list@, v, w, directed)),
        directed ==> forall|v: NodeId, w: NodeId|
            v < num_nodes && w < num_nodes && v != w ==> (#[trigger] g.vertices.inn(w).contains(v)
                <==> crate::graph::has_edge(edge_list@, v, w, true)),
        forall|v: NodeId| v < num_nodes ==> crate::sortedmap::strictly_sorted(#[trigger] g.vertices.out(v)),
        forall|v: NodeId| v < num_nodes ==> !(#[trigger] g.vertices.out(v)).contains(v) && !g.vertices.inn(v).contains(v),
        !directed ==> forall|v: NodeId| v < num_nodes ==> (#[trigger] g.vertices.inn(v)).len() == 0,
        forall|v: NodeId, w: NodeId|
            v < num_nodes && w < num_nodes && #[trigger] g.vertices.node(v).out_map().contains_key(w)
                ==> g.vertices.node(v).out_map()[w] == crate::graph::last_weight(edge_list@, v, w, directed),
        g.num_edges_directed <= edge_list@.len(),
        !directed ==> g.num_edges_directed == 0,
{
    let mut graph: Graph<T> = Graph::new(directed);
    let mut v: usize = 0;
    while v < num_nodes
        invariant
            v <= num_nodes,
            graph.vertices.wf(),
            graph.directed == directed,
            graph.num_edges_directed == 0,
            graph.num_edges_undirected == 0,
            graph.vertices.ids() == Seq::new(v as nat, |i: int| i as NodeId),
            forall|x: NodeId| #[trigger] graph.vertices.has(x) <==> x < v,
            forall|x: NodeId| x < v ==> #[trigger] graph.vertices.out(x) == Seq::<NodeId>::empty()
                && graph.vertices.inn(x) == Seq::<NodeId>::empty(),
        decreases num_nodes - v,
    {
        let ghost t0 = graph.vertices;
        graph.add_vertex(v, None);
        proof {
            assert(!t0.has(v));
            assert(graph.vertices.out(v) == Seq::<NodeId>::empty());
            assert(graph.vertices.inn(v) == Seq::<NodeId>::empty());
            assert forall|x: NodeId| x < v + 1 implies #[trigger] graph.vertices.out(x) == Seq::<NodeId>::empty()
                && graph.vertices.inn(x) == Seq::<NodeId>::empty() by {
                assert(!t0.has(v));
                if x < v {
                    assert(t0.has(x));
                    assert(t0.out(x) == Seq::<NodeId>::empty());
                    assert(t0.inn(x) == Seq::<NodeId>::empty());
                    assert(graph.vertices.node(x) == t0.node(x));
                }
            }
        }
        assert(graph.vertices.ids() =~= Seq::new((v + 1) as nat, |i: int| i as NodeId));
        v = v + 1;
    }
    proof {
        graph.vertices.lemma_wf();
        assert forall|x: NodeId| x < num_nodes implies (#[trigger] graph.vertices.node(x)).out_map().dom()
            == Set::<NodeId>::empty() && graph.vertices.node(x).in_map().dom() == Set::<NodeId>::empty() by {
            assert(graph.vertices.has(x));
            graph.vertices.node(x).lemma_keys();
            assert(graph.vertices.out(x).to_set() =~= Set::<NodeId>::empty());
            assert(graph.vertices.inn(x).to_set() =~= Set::<NodeId>::empty());
        }
        let e0 = edge_list@.subrange(0, 0);
        assert(e0.len() == 0);
        assert forall|x: NodeId, y: NodeId| x < num_nodes && y < num_nodes && x != y implies !(
            #[trigger] graph.vertices.node(x).out_map().dom().contains(y)) && !crate::graph::has_edge(e0, x, y, directed) by {}
        assert forall|x: NodeId, y: NodeId| x < num_nodes && y < num_nodes && x != y implies !(
            #[trigger] graph.vertices.node(y).in_map().dom().contains(x)) && !crate::graph::has_edge(e0, x, y, true) by {}
        assert(table_matches(graph.vertices, e0, num_nodes as nat, directed));
    }
    let mut i: usize = 0;
    while i < edge_list.len()
        invariant
            i <= edge_list@.len() < usize::MAX,
            crate::graph::edges_within(edge_list@, num_nodes as nat),
            graph.vertices.wf(),
            graph.directed == directed,
            graph.num_edges_directed <= i,
            graph.num_edges_undirected <= i,
            !directed ==> graph.num_edges_directed == 0,
            graph.vertices.ids() == Seq::new(num_nodes as nat, |i: int| i as NodeId),
            forall|x: NodeId| #[trigger] graph.vertices.has(x) <==> x < num_nodes,
            table_matches(graph.vertices, edge_list@.subrange(0, i as int), num_nodes as nat, directed),
            forall|v: NodeId, w: NodeId|
                v < num_nodes && w < num_nodes && #[trigger] graph.vertices.node(v).out_map().contains_key(w)
                    ==> graph.vertices.node(v).out_map()[w] == crate::graph::last_weight(
                    edge_list@.subrange(0, i as int),
                    v,
                    w,
                    directed,
                ),
        decreases edge_list@.len() - i,
    {
        let (a, b, w) = edge_list[i];
        proof {
            assert(edge_list@[i as int].0 < num_nodes && edge_list@[i as int].1 < num_nodes);
        }
        let ghost t0 = graph.vertices;
        graph.add_edge(a, b, &w, directed);
        proof {
            lemma_table_matches_step(t0, graph.vertices, edge_list@, i as int, num_nodes as nat, directed);
            let e1 = edge_list@.subrange(0, i + 1);
            assert(e1.drop_last() =~= edge_list@.subrange(0, i as int));
            assert(e1.last() == edge_list@[i as int]);
            assert forall|v: NodeId, x: NodeId|
                v < num_nodes && x < num_nodes && #[trigger] graph.vertices.node(v).out_map().contains_key(x)
                    implies graph.vertices.node(v).out_map()[x] == crate::graph::last_weight(e1, v, x, directed) by {
                if crate::graph::edge_joins(edge_list@[i as int], v, x, directed) {
                    assert(v != x || a == b);
                    if a != b {
                        assert(graph.vertices.node(v).out_map()[x] == w);
                    } else {
                        assert(v == a && x == a);
                        assert(t0.node(a).out_map().contains_key(a));
                        assert(!t0.node(a).out_map().dom().contains(a));
                    }
                } else {
                    assert(t0.node(v).out_map().contains_key(x));
                    assert(graph.vertices.node(v).out_map()[x] == t0.node(v).out_map()[x]);
                }
            }
        }
        i = i + 1;
    }
    proof {
        graph.vertices.lemma_wf();
        assert forall|v: NodeId, i: int|
            v < num_nodes && 0 <= i < graph.vertices.out(v).len() implies #[trigger] graph.vertices.out(
            v,
        )[i] < num_nodes by {
            assert(graph.vertices.has(v));
            assert(graph.vertices.has(graph.vertices.out(v)[i]));
        }
        assert forall|v: NodeId, i: int|
            v < num_nodes && 0 <= i < graph.vertices.inn(v).len() implies #[trigger] graph.vertices.inn(
            v,
        )[i] < num_nodes by {
            assert(graph.vertices.has(v));
            assert(graph.vertices.has(graph.vertices.inn(v)[i]));
        }
        assert(edge_list@.subrange(0, edge_list@.len() as int) =~= edge_list@);
        assert forall|v: NodeId, w: NodeId|
            v < num_nodes && w < num_nodes && v != w implies (#[trigger] graph.vertices.out(v).contains(w)
                <==> crate::graph::has_edge(edge_list@, v, w, directed)) by {
            assert(graph.vertices.has(v));
            graph.vertices.node(v).lemma_keys();
            assert(graph.vertices.out(v).to_set().contains(w) == graph.vertices.out(v).contains(w));
        }
        assert forall|v: NodeId| v < num_nodes implies crate::sortedmap::strictly_sorted(#[trigger] graph.vertices.out(v))
            && !graph.vertices.out(v).contains(v) && !graph.vertices.inn(v).contains(v)
            && (!directed ==> graph.vertices.inn(v).len() == 0) by {
            assert(graph.vertices.has(v));
            graph.vertices.node(v).lemma_keys();
            assert(graph.vertices.out(v).to_set().contains(v) == graph.vertices.out(v).contains(v));
            assert(graph.vertices.inn(v).to_set().contains(v) == graph.vertices.inn(v).contains(v));
            if !directed && graph.vertices.inn(v).len() > 0 {
                assert(graph.vertices.inn(v).to_set().contains(graph.vertices.inn(v)[0]));
            }
        }
        assert forall|v: NodeId| v < num_nodes implies !(#[trigger] graph.vertices.out(v)).contains(v)
            && !graph.vertices.inn(v).contains(v) by {
            assert(crate::sortedmap::strictly_sorted(graph.vertices.out(v)));
        }
        assert forall|v: NodeId| !directed && v < num_nodes implies (#[trigger] graph.vertices.inn(v)).len() == 0 by {
            assert(crate::sortedmap::strictly_sorted(graph.vertices.out(v)));
        }
        assert forall|v: NodeId, w: NodeId|
            directed && v < num_nodes && w < num_nodes && v != w implies (#[trigger] graph.vertices.inn(w).contains(v)
                <==> crate::graph::has_edge(edge_list@, v, w, true)) by {
            assert(graph.vertices.has(w));
            graph.vertices.node(w).lemma_keys();
            assert(graph.vertices.inn(w).to_set().contains(v) == graph.vertices.inn(w).contains(v));
        }
    }
    graph
}

} // verus!
