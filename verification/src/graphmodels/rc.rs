//! The unweighted graph model (the suite's `rc` model; here no reference
//! counting: a table of vertices keyed by id, each holding its in- and
//! out-neighbours by id). Self-edges are refused
//! and an edge is stored once, however often it is added.

use crate::graph::{ids, CSRGraph};
use crate::graphmodels::node::{lemma_table_matches_step, table_matches, NodeTable};
use crate::graphmodels::reach::{bfs_count, hit_from, reachable};
pub use crate::graphmodels::node::Node;
use crate::types::{AsNode, EdgeList, NodeId, Weight};
use vstd::prelude::*;

verus! {

/// A handle to a vertex of the graph.
#[derive(Clone, Copy)]
pub struct WrappedNode {
    pub node_id: NodeId,
}

impl AsNode for WrappedNode {
    open spec fn node_of(&self) -> NodeId {
        self.node_id
    }

    fn as_node(&self) -> (r: NodeId) {
        self.node_id
    }
}

impl WrappedNode {
    pub fn from_node<T>(node: &Node<T>) -> (w: WrappedNode)
        ensures
            w.node_of() == node.id(),
    {
        WrappedNode { node_id: node.get_id() }
    }
}

/// Handles to the vertices `keys`, in the same order.
pub fn handles(keys: &Vec<NodeId>) -> (r: Vec<WrappedNode>)
    ensures
        ids(r@) == keys@,
        r@ == handle_seq(keys@),
{
    let mut r: Vec<WrappedNode> = Vec::new();
    let mut i: usize = 0;
    while i < keys.len()
        invariant
            i <= keys@.len(),
            r@.len() == i,
            forall|k: int| 0 <= k < i ==> #[trigger] r@[k].node_id == keys@[k],
        decreases keys@.len() - i,
    {
        r.push(WrappedNode { node_id: keys[i] });
        i = i + 1;
    }
    assert(ids(r@) =~= keys@);
    assert(r@ =~= handle_seq(keys@));
    r
}

/// Handles to the vertices of `keys`, in the same order.
pub open spec fn handle_seq(keys: Seq<NodeId>) -> Seq<WrappedNode> {
    keys.map_values(|k: NodeId| WrappedNode { node_id: k })
}

/// The ids of `edges` paired with no weight.
pub fn unweighted_pairs<E: AsNode>(edges: &Vec<E>) -> (r: Vec<(NodeId, Option<Weight>)>)
    ensures
        r@.map_values(|t: (NodeId, Option<Weight>)| t.0) == ids(edges@),
        r@.len() == edges@.len(),
        forall|k: int| 0 <= k < r@.len() ==> #[trigger] r@[k].0 == edges@[k].node_of(),
{
    let mut r: Vec<(NodeId, Option<Weight>)> = Vec::new();
    let mut i: usize = 0;
    while i < edges.len()
        invariant
            i <= edges@.len(),
            r@.len() == i,
            forall|k: int| 0 <= k < i ==> #[trigger] r@[k].0 == edges@[k].node_of(),
        decreases edges@.len() - i,
    {
        let id = edges[i].as_node();
        r.push((id, None));
        i = i + 1;
    }
    assert(r@.map_values(|t: (NodeId, Option<Weight>)| t.0) =~= ids(edges@));
    r
}

/// Sum of the out-degrees of the vertices `vs`.
pub open spec fn out_degree_sum<T>(t: NodeTable<T>, vs: Seq<NodeId>) -> nat
    decreases vs.len(),
{
    if vs.len() == 0 {
        0
    } else {
        out_degree_sum(t, vs.drop_last()) + t.out(vs.last()).len()
    }
}

/// With every out-list empty, the out-degrees add up to nothing.
pub proof fn lemma_out_degree_sum_zero<T>(t: NodeTable<T>, vs: Seq<NodeId>)
    requires
        forall|i: int| 0 <= i < vs.len() ==> (#[trigger] t.out(vs[i])).len() == 0,
    ensures
        out_degree_sum(t, vs) == 0,
    decreases vs.len(),
{
    if vs.len() > 0 {
        lemma_out_degree_sum_zero(t, vs.drop_last());
        assert(t.out(vs[vs.len() - 1]).len() == 0);
    }
}

/// Where each out-list grows by at most one at `a`, and at `b` where
/// undirected, the sum over distinct vertices grows by at most as much.
pub proof fn lemma_out_degree_sum_step<T>(
    t0: NodeTable<T>,
    t1: NodeTable<T>,
    vs: Seq<NodeId>,
    a: NodeId,
    b: NodeId,
    directed: bool,
)
    requires
        vs.no_duplicates(),
        forall|i: int| 0 <= i < vs.len() ==> #[trigger] t0.has(vs[i]),
        forall|v: NodeId| #[trigger] t0.has(v) ==> t1.out(v).len() <= t0.out(v).len() + (if v == a { 1int } else { 0int }) + (
            if !directed && v == b { 1int } else { 0int }),
    ensures
        out_degree_sum(t1, vs) <= out_degree_sum(t0, vs) + (if vs.contains(a) { 1int } else { 0int }) + (if !directed
            && vs.contains(b) { 1int } else { 0int }),
    decreases vs.len(),
{
    if vs.len() > 0 {
        let rest = vs.drop_last();
        let x = vs.last();
        assert(rest.no_duplicates());
        lemma_out_degree_sum_step(t0, t1, rest, a, b, directed);
        assert(t0.has(vs[vs.len() - 1]));
        assert(!rest.contains(x)) by {
            if rest.contains(x) {
                let k = choose|k: int| 0 <= k < rest.len() && rest[k] == x;
                assert(vs[k] == vs[vs.len() - 1]);
            }
        }
        assert(vs.contains(a) <==> (rest.contains(a) || x == a)) by {
            if vs.contains(a) && x != a {
                let k = choose|k: int| 0 <= k < vs.len() && vs[k] == a;
                assert(rest[k] == a);
            }
            if rest.contains(a) {
                let k = choose|k: int| 0 <= k < rest.len() && rest[k] == a;
                assert(vs[k] == a);
            }
        }
        assert(vs.contains(b) <==> (rest.contains(b) || x == b)) by {
            if vs.contains(b) && x != b {
                let k = choose|k: int| 0 <= k < vs.len() && vs[k] == b;
                assert(rest[k] == b);
            }
            if rest.contains(b) {
                let k = choose|k: int| 0 <= k < rest.len() && rest[k] == b;
                assert(vs[k] == b);
            }
        }
    }
}

pub proof fn lemma_out_degree_sum_prefix<T>(t: NodeTable<T>, vs: Seq<NodeId>, i: int)
    requires
        0 <= i <= vs.len(),
    ensures
        out_degree_sum(t, vs.subrange(0, i)) <= out_degree_sum(t, vs),
    decreases vs.len() - i,
{
    if i < vs.len() {
        lemma_out_degree_sum_prefix(t, vs, i + 1);
        assert(vs.subrange(0, i + 1).drop_last() =~= vs.subrange(0, i));
    } else {
        assert(vs.subrange(0, i) =~= vs);
    }
}

/// Sum of the out-degrees of all vertices of a table.
pub fn table_out_degree_sum<T>(t: &NodeTable<T>) -> (n: usize)
    requires
        t.wf(),
        out_degree_sum(*t, t.ids()) <= usize::MAX,
    ensures
        n == out_degree_sum(*t, t.ids()),
{
    let vs = t.ids_vec();
    let mut sum: usize = 0;
    let mut i: usize = 0;
    proof {
        t.lemma_wf();
        assert forall|j: int| 0 <= j < vs@.len() implies #[trigger] t.has(vs@[j]) by {
            assert(t.ids().to_set().contains(vs@[j]));
        }
    }
    while i < vs.len()
        invariant
            t.wf(),
            vs@ == t.ids(),
            i <= vs@.len(),
            sum == out_degree_sum(*t, vs@.subrange(0, i as int)),
            out_degree_sum(*t, t.ids()) <= usize::MAX,
            forall|j: int| 0 <= j < vs@.len() ==> #[trigger] t.has(vs@[j]),
        decreases vs@.len() - i,
    {
        proof {
            assert(vs@.subrange(0, i + 1).drop_last() =~= vs@.subrange(0, i as int));
            lemma_out_degree_sum_prefix(*t, vs@, i + 1);
            assert(t.ids().to_set().contains(vs@[i as int]));
        }
        let n = match t.get(vs[i]) {
            Some(node) => node.out_degree(),
            None => 0,
        };
        sum = sum + n;
        i = i + 1;
    }
    assert(vs@.subrange(0, i as int) =~= vs@);
    sum
}

pub struct Graph<T> {
    vertices: NodeTable<T>,
    n_edges: usize,
    directed: bool,
}

impl<T> Graph<T> {
    pub closed spec fn table(&self) -> NodeTable<T> {
        self.vertices
    }

    /// What the graph interface reports, read off the vertex table: the
    /// invariant, the direction, the vertices and the neighbours.
    pub proof fn lemma_interface(&self)
        ensures
            self.spec_wf() == self.table().wf(),
            self.spec_directed() == self.spec_is_directed(),
            self.spec_num_nodes() == self.table().ids().len(),
            self.spec_vertices() == self.table().ids(),
            self.spec_num_edges() == self.spec_n_edges(),
            forall|v: NodeId| #[trigger] self.spec_has_vertex(v) == self.table().has(v),
            forall|v: NodeId| #[trigger] self.spec_out(v) == self.table().out(v),
            forall|v: NodeId| #[trigger] self.spec_in(v) == self.table().inn(v),
            forall|v: NodeId| #[trigger] self.spec_out_edges(v) == handle_seq(self.table().out(v)),
    {
    }

    pub closed spec fn spec_n_edges(&self) -> nat {
        self.n_edges as nat
    }

    pub closed spec fn spec_is_directed(&self) -> bool {
        self.directed
    }

    pub fn new(directed: bool) -> (g: Self)
        ensures
            g.table().wf(),
            forall|v: NodeId| !g.table().has(v),
            g.table().ids() == Seq::<NodeId>::empty(),
            g.spec_n_edges() == 0,
            g.spec_is_directed() == directed,
    {
        Graph { vertices: NodeTable::new(), n_edges: 0, directed }
    }

    pub fn find_vertex(&self, vertex: NodeId) -> (r: Option<&Node<T>>)
        requires
            self.table().wf(),
        ensures
            match r {
                Some(n) => self.table().has(vertex) && *n == self.table().node(vertex),
                None => !self.table().has(vertex),
            },
    {
        self.vertices.get(vertex)
    }

    /// Adds vertex `node_id` unless the graph has one already; hands back a
    /// handle to the vertex.
    pub fn add_vertex(&mut self, node_id: NodeId, value: Option<T>) -> (w: WrappedNode)
        requires
            old(self).table().wf(),
        ensures
            w.node_of() == node_id,
            final(self).table().wf(),
            final(self).spec_n_edges() == old(self).spec_n_edges(),
            final(self).spec_is_directed() == old(self).spec_is_directed(),
            forall|v: NodeId| #[trigger]
                final(self).table().has(v) == (old(self).table().has(v) || v == node_id),
            forall|v: NodeId| #[trigger]
                old(self).table().has(v) ==> final(self).table().node(v) == old(self).table().node(
                    v,
                ),
            !old(self).table().has(node_id) ==> final(self).table().node(node_id).spec_value()
                == value && final(self).table().out(node_id) == Seq::<NodeId>::empty()
                && final(self).table().inn(node_id) == Seq::<NodeId>::empty(),
            final(self).table().ids().to_set() == old(self).table().ids().to_set().insert(node_id),
            (forall|j: int|
                0 <= j < old(self).table().ids().len() ==> old(self).table().ids()[j] < node_id)
                ==> final(self).table().ids() == old(self).table().ids().push(node_id),
    {
        self.vertices.add_vertex(node_id, value);
        WrappedNode { node_id }
    }

    /// Adds the edge `vertex -> edge` (mirrored as an out-edge of `edge`
    /// when `directed` is false, as an in-edge when it is true). Both
    /// vertices must exist. The edge count grows when the out-edge is new.
    pub fn add_edge(&mut self, vertex: NodeId, edge: NodeId, directed: bool)
        requires
            old(self).table().wf(),
            old(self).table().has(vertex),
            old(self).table().has(edge),
            old(self).spec_n_edges() < usize::MAX,
        ensures
            final(self).table().wf(),
            final(self).spec_is_directed() == old(self).spec_is_directed(),
            final(self).table().ids() == old(self).table().ids(),
            forall|v: NodeId| #[trigger] final(self).table().has(v) == old(self).table().has(v),
            forall|v: NodeId|
                v != vertex && v != edge ==> #[trigger] final(self).table().node(v) == old(
                    self,
                ).table().node(v),
            vertex == edge ==> *final(self) == *old(self),
            vertex != edge ==> {
                &&& final(self).table().node(vertex).out_map() == old(self).table().node(
                    vertex,
                ).out_map().insert(edge, None)
                &&& final(self).table().node(vertex).in_map() == old(self).table().node(
                    vertex,
                ).in_map()
                &&& !directed ==> final(self).table().node(edge).out_map() == old(
                    self,
                ).table().node(edge).out_map().insert(vertex, None)
                    && final(self).table().node(edge).in_map() == old(self).table().node(
                    edge,
                ).in_map()
                &&& directed ==> final(self).table().node(edge).in_map() == old(
                    self,
                ).table().node(edge).in_map().insert(vertex, None)
                    && final(self).table().node(edge).out_map() == old(self).table().node(
                    edge,
                ).out_map()
                &&& final(self).spec_n_edges() == old(self).spec_n_edges() + if old(
                    self,
                ).table().node(vertex).out_map().contains_key(edge) {
                    0int
                } else {
                    1int
                }
            },
    {
        if self.vertices.connect(vertex, edge, None, directed) {
            self.n_edges = self.n_edges + 1;
        }
    }

    /// `add_edge` between two vertices given by their handles.
    pub fn connect(&mut self, vertex_node: &WrappedNode, edge_node: &WrappedNode, directed: bool)
        requires
            old(self).table().wf(),
            old(self).table().has(vertex_node.node_of()),
            old(self).table().has(edge_node.node_of()),
            old(self).spec_n_edges() < usize::MAX,
        ensures
            final(self).table().wf(),
            final(self).table().ids() == old(self).table().ids(),
            forall|v: NodeId| #[trigger] final(self).table().has(v) == old(self).table().has(v),
            vertex_node.node_of() == edge_node.node_of() ==> *final(self) == *old(self),
            vertex_node.node_of() != edge_node.node_of() ==> final(self).table().node(
                vertex_node.node_of(),
            ).out_map() == old(self).table().node(vertex_node.node_of()).out_map().insert(
                edge_node.node_of(),
                None,
            ),
    {
        self.add_edge(vertex_node.node_id, edge_node.node_id, directed);
    }
}

impl<T> Graph<T> {
    /// Breadth-first search from vertex `start`: how many vertices it
    /// discovers; with a `goal`, how many it had discovered when it first
    /// met an edge to the goal.
    pub fn bfs(&self, start: NodeId, goal: Option<NodeId>) -> (r: usize)
        requires
            self.table().wf(),
            self.table().has(start),
        ensures
            1 <= r <= reachable(self.table(), start).len(),
            (goal is None || !hit_from(self.table(), start, goal.unwrap())) ==> r == reachable(
                self.table(),
                start,
            ).len(),
    {
        bfs_count(&self.vertices, start, goal)
    }
}

impl<T> CSRGraph<WrappedNode, WrappedNode> for Graph<T> {
    closed spec fn spec_wf(&self) -> bool {
        self.vertices.wf()
    }

    closed spec fn spec_directed(&self) -> bool {
        self.directed
    }

    closed spec fn spec_num_nodes(&self) -> nat {
        self.vertices.ids().len()
    }

    closed spec fn spec_num_edges(&self) -> nat {
        self.n_edges as nat
    }

    closed spec fn spec_num_edges_directed(&self) -> nat {
        out_degree_sum(self.vertices, self.vertices.ids())
    }

    closed spec fn spec_vertices(&self) -> Seq<NodeId> {
        self.vertices.ids()
    }

    closed spec fn spec_has_vertex(&self, v: NodeId) -> bool {
        self.vertices.has(v)
    }

    closed spec fn spec_out(&self, v: NodeId) -> Seq<NodeId> {
        self.vertices.out(v)
    }

    closed spec fn spec_in(&self, v: NodeId) -> Seq<NodeId> {
        self.vertices.inn(v)
    }

    closed spec fn spec_out_edges(&self, v: NodeId) -> Seq<WrappedNode> {
        handle_seq(self.vertices.out(v))
    }

    fn build_directed(num_nodes: usize, edge_list: &EdgeList) -> (g: Self)
        ensures
            g.spec_num_edges_directed() <= edge_list@.len(),
            forall|v: NodeId| v < num_nodes ==> crate::sortedmap::strictly_sorted(#[trigger] g.spec_out(v))
                && !g.spec_out(v).contains(v),
    {
        let g = build(num_nodes, edge_list, true);
        proof {
            assert forall|v: NodeId| v < num_nodes implies (#[trigger] g.vertices.out(v)).len() <= usize::MAX by {
                crate::graph::lemma_sorted_below_len(g.vertices.out(v), num_nodes as nat);
            }
            assert forall|v: NodeId, w: NodeId| v < num_nodes && w < num_nodes implies (g.spec_out(v).contains(w)
                <==> g.spec_in(w).contains(v)) by {
                if v != w {
                    assert(g.vertices.out(v).contains(w) <==> crate::graph::has_edge(edge_list@, v, w, true));
                    assert(g.vertices.inn(w).contains(v) <==> crate::graph::has_edge(edge_list@, v, w, true));
                } else {
                    assert(!g.vertices.out(v).contains(v) && !g.vertices.inn(v).contains(v));
                }
            }
        }
        g
    }

    fn build_undirected(num_nodes: usize, edge_list: &EdgeList) -> (g: Self)
        ensures
            g.spec_num_edges_directed() <= 2 * edge_list@.len(),
            forall|v: NodeId| v < num_nodes ==> crate::sortedmap::strictly_sorted(#[trigger] g.spec_out(v))
                && !g.spec_out(v).contains(v),
    {
        let g = build(num_nodes, edge_list, false);
        proof {
            assert forall|v: NodeId| v < num_nodes implies (#[trigger] g.vertices.out(v)).len() <= usize::MAX by {
                crate::graph::lemma_sorted_below_len(g.vertices.out(v), num_nodes as nat);
            }
            assert forall|v: NodeId, w: NodeId| v < num_nodes && w < num_nodes implies (g.spec_out(v).contains(w)
                <==> g.spec_out(w).contains(v)) by {
                if v != w {
                    crate::graph::lemma_has_edge_sym(edge_list@, v, w);
                    assert(g.vertices.out(v).contains(w) <==> crate::graph::has_edge(edge_list@, v, w, false));
                    assert(g.vertices.out(w).contains(v) <==> crate::graph::has_edge(edge_list@, w, v, false));
                }
            }
            assert forall|v: NodeId| v < num_nodes implies (#[trigger] g.spec_in(v)).len() == 0 by {
                assert(g.vertices.inn(v).len() == 0);
            }
        }
        g
    }

    fn directed(&self) -> (b: bool) {
        self.directed
    }

    fn num_nodes(&self) -> (n: usize) {
        self.vertices.len()
    }

    fn num_edges(&self) -> (n: usize) {
        self.n_edges
    }

    fn num_edges_directed(&self) -> (n: usize) {
        table_out_degree_sum(&self.vertices)
    }

    fn out_degree(&self, v: NodeId) -> (d: usize) {
        match self.vertices.get(v) {
            Some(node) => node.out_degree(),
            None => 0,
        }
    }

    fn in_degree(&self, v: NodeId) -> (d: usize) {
        match self.vertices.get(v) {
            Some(node) => node.in_degree(),
            None => 0,
        }
    }

    fn out_neigh(&self, v: NodeId) -> (r: Vec<WrappedNode>) {
        match self.vertices.get(v) {
            Some(node) => handles(&out_keys_vec(node)),
            None => Vec::new(),
        }
    }

    fn in_neigh(&self, v: NodeId) -> (r: Vec<WrappedNode>) {
        match self.vertices.get(v) {
            Some(node) => handles(&in_keys_vec(node)),
            None => Vec::new(),
        }
    }

    fn vertices(&self) -> (r: Vec<WrappedNode>) {
        handles(&self.vertices.ids_vec())
    }

    fn replace_out_edges(&mut self, v: NodeId, edges: Vec<WrappedNode>) {
        let pairs = unweighted_pairs(&edges);
        proof {
            let f = |t: (NodeId, Option<Weight>)| t.0;
            assert forall|i: int| 0 <= i < pairs@.len() implies #[trigger] self.vertices.has(
                pairs@[i].0,
            ) by {
                assert(pairs@[i].0 == edges@[i].node_of());
                assert(self.spec_has_vertex(edges@[i].node_of()));
            }
        }
        self.vertices.replace_edges(v, &pairs, true);
        proof {
            if self.vertices.has(v) {
                self.vertices.lemma_no_dup(v);
            }
        }
    }

    fn replace_in_edges(&mut self, v: NodeId, edges: Vec<WrappedNode>) {
        let pairs = unweighted_pairs(&edges);
        proof {
            let f = |t: (NodeId, Option<Weight>)| t.0;
            assert forall|i: int| 0 <= i < pairs@.len() implies #[trigger] self.vertices.has(
                pairs@[i].0,
            ) by {
                assert(pairs@[i].0 == edges@[i].node_of());
                assert(self.spec_has_vertex(edges@[i].node_of()));
            }
        }
        self.vertices.replace_edges(v, &pairs, false);
        proof {
            if self.vertices.has(v) {
                self.vertices.lemma_no_dup(v);
            }
        }
    }
}

/// Out-neighbours of a vertex, in increasing order.
pub fn out_keys_vec<T>(node: &Node<T>) -> (r: Vec<NodeId>)
    ensures
        r@ == node.out_keys(),
{
    node.out_key_list()
}

/// In-neighbours of a vertex, in increasing order.
pub fn in_keys_vec<T>(node: &Node<T>) -> (r: Vec<NodeId>)
    ensures
        r@ == node.in_keys(),
{
    node.in_key_list()
}

/// A graph with vertices `0 .. num_nodes` and the edges of `edge_list`.
fn build<T>(num_nodes: usize, edge_list: &EdgeList, directed: bool) -> (g: Graph<T>)
    requires
        crate::graph::edges_within(edge_list@, num_nodes as nat),
        edge_list@.len() < usize::MAX,
    ensures
        g.vertices.wf(),
        g.directed == directed,
        g.vertices.ids() == Seq::new(num_nodes as nat, |i: int| i as NodeId),
        forall|v: NodeId| #[trigger] g.vertices.has(v) <==> v < num_nodes,
        forall|v: NodeId, i: int|
            v < num_nodes && 0 <= i < g.vertices.out(v).len() ==> #[trigger] g.vertices.out(v)[i]
                < num_nodes,
        forall|v: NodeId, i: int|
            v < num_nodes && 0 <= i < g.vertices.inn(v).len() ==> #[trigger] g.vertices.inn(v)[i]
                < num_nodes,
        forall|v: NodeId, w: NodeId|
            v < num_nodes && w < num_nodes && v != w ==> (#[trigger] g.vertices.out(v).contains(w)
                <==> crate::graph::has_edge(edge_list@, v, w, directed)),
        directed ==> forall|v: NodeId, w: NodeId|
            v < num_nodes && w < num_nodes && v != w ==> (#[trigger] g.vertices.inn(w).contains(v)
                <==> crate::graph::has_edge(edge_list@, v, w, true)),
        forall|v: NodeId| v < num_nodes ==> crate::sortedmap::strictly_sorted(#[trigger] g.vertices.out(v)),
        forall|v: NodeId| v < num_nodes ==> !(#[trigger] g.vertices.out(v)).contains(v) && !g.vertices.inn(v).contains(v),
        out_degree_sum(g.vertices, g.vertices.ids()) <= if directed { edge_list@.len() as int } else { 2 * edge_list@.len() as int },
        !directed ==> forall|v: NodeId| v < num_nodes ==> (#[trigger] g.vertices.inn(v)).len() == 0,
{
    let mut graph: Graph<T> = Graph::new(directed);
    let mut v: usize = 0;
    while v < num_nodes
        invariant
            v <= num_nodes,
            graph.vertices.wf(),
            graph.directed == directed,
            graph.n_edges == 0,
            graph.vertices.ids() == Seq::new(v as nat, |i: int| i as NodeId),
            forall|x: NodeId| #[trigger] graph.vertices.has(x) <==> x < v,
            forall|x: NodeId| x < v ==> #[trigger] graph.vertices.out(x) == Seq::<NodeId>::empty()
                && graph.vertices.inn(x) == Seq::<NodeId>::empty(),
        decreases num_nodes - v,
    {
        let ghost t0 = graph.vertices;
        graph.add_vertex(v, None);
        proof {
            assert(!t0.has(v));
            assert(graph.vertices.out(v) == Seq::<NodeId>::empty());
            assert(graph.vertices.inn(v) == Seq::<NodeId>::empty());
            assert forall|x: NodeId| x < v + 1 implies #[trigger] graph.vertices.out(x) == Seq::<NodeId>::empty()
                && graph.vertices.inn(x) == Seq::<NodeId>::empty() by {
                assert(!t0.has(v));
                if x < v {
                    assert(t0.has(x));
                    assert(t0.out(x) == Seq::<NodeId>::empty());
                    assert(t0.inn(x) == Seq::<NodeId>::empty());
                    assert(graph.vertices.node(x) == t0.node(x));
                }
            }
        }
        assert(graph.vertices.ids() =~= Seq::new((v + 1) as nat, |i: int| i as NodeId));
        v = v + 1;
    }
    proof {
        graph.vertices.lemma_wf();
        assert forall|x: NodeId| x < num_nodes implies (#[trigger] graph.vertices.node(x)).out_map().dom()
            == Set::<NodeId>::empty() && graph.vertices.node(x).in_map().dom() == Set::<NodeId>::empty() by {
            assert(graph.vertices.has(x));
            graph.vertices.node(x).lemma_keys();
            assert(graph.vertices.out(x).to_set() =~= Set::<NodeId>::empty());
            assert(graph.vertices.inn(x).to_set() =~= Set::<NodeId>::empty());
        }
        let e0 = edge_list@.subrange(0, 0);
        assert(e0.len() == 0);
        assert forall|x: NodeId, y: NodeId| x < num_nodes && y < num_nodes && x != y implies !(
            #[trigger] graph.vertices.node(x).out_map().dom().contains(y)) && !crate::graph::has_edge(e0, x, y, directed) by {}
        assert forall|x: NodeId, y: NodeId| x < num_nodes && y < num_nodes && x != y implies !(
            #[trigger] graph.vertices.node(y).in_map().dom().contains(x)) && !crate::graph::has_edge(e0, x, y, true) by {}
        assert(table_matches(graph.vertices, e0, num_nodes as nat, directed));
        assert forall|k: int| 0 <= k < graph.vertices.ids().len() implies (#[trigger] graph.vertices.out(
            graph.vertices.ids()[k],
        )).len() == 0 by {
            assert(graph.vertices.ids()[k] < num_nodes);
        }
        lemma_out_degree_sum_zero(graph.vertices, graph.vertices.ids());
    }
    let mut i: usize = 0;
    while i < edge_list.len()
        invariant
            i <= edge_list@.len() < usize::MAX,
            crate::graph::edges_within(edge_list@, num_nodes as nat),
            graph.vertices.wf(),
            graph.directed == directed,
            graph.n_edges <= i,
            graph.vertices.ids() == Seq::new(num_nodes as nat, |i: int| i as NodeId),
            out_degree_sum(graph.vertices, graph.vertices.ids()) <= if directed { i as int } else { 2 * i as int },
            forall|x: NodeId| #[trigger] graph.vertices.has(x) <==> x < num_nodes,
            table_matches(graph.vertices, edge_list@.subrange(0, i as int), num_nodes as nat, directed),
        decreases edge_list@.len() - i,
    {
        let (a, b, _) = edge_list[i];
        proof {
            assert(edge_list@[i as int].0 < num_nodes && edge_list@[i as int].1 < num_nodes);
        }
        let ghost t0 = graph.vertices;
        graph.add_edge(a, b, directed);
        proof {
            lemma_table_matches_step(t0, graph.vertices, edge_list@, i as int, num_nodes as nat, directed);
            let t1 = graph.vertices;
            if a != b {
                assert(t1.node(a).out_map().dom() =~= t0.node(a).out_map().dom().insert(b));
                if !directed {
                    assert(t1.node(b).out_map().dom() =~= t0.node(b).out_map().dom().insert(a));
                }
            }
            crate::graphmodels::node::lemma_out_len_step(t0, t1, a, b, directed);
            let ids = t0.ids();
            assert(ids.no_duplicates());
            assert forall|k: int| 0 <= k < ids.len() implies #[trigger] t0.has(ids[k]) by {}
            lemma_out_degree_sum_step(t0, t1, ids, a, b, directed);
        }
        i = i + 1;
    }
    proof {
        graph.vertices.lemma_wf();
        assert forall|v: NodeId, i: int|
            v < num_nodes && 0 <= i < graph.vertices.out(v).len() implies #[trigger] graph.vertices.out(
            v,
        )[i] < num_nodes by {
            assert(graph.vertices.has(v));
            assert(graph.vertices.has(graph.vertices.out(v)[i]));
        }
        assert forall|v: NodeId, i: int|
            v < num_nodes && 0 <= i < graph.vertices.inn(v).len() implies #[trigger] graph.vertices.inn(
            v,
        )[i] < num_nodes by {
            assert(graph.vertices.has(v));
            assert(graph.vertices.has(graph.vertices.inn(v)[i]));
        }
        assert(edge_list@.subrange(0, edge_list@.len() as int) =~= edge_list@);
        assert forall|v: NodeId, w: NodeId|
            v < num_nodes && w < num_nodes && v != w implies (#[trigger] graph.vertices.out(v).contains(w)
                <==> crate::graph::has_edge(edge_list@, v, w, directed)) by {
            assert(graph.vertices.has(v));
            graph.vertices.node(v).lemma_keys();
            assert(graph.vertices.out(v).to_set().contains(w) == graph.vertices.out(v).contains(w));
        }
        assert forall|v: NodeId| v < num_nodes implies crate::sortedmap::strictly_sorted(#[trigger] graph.vertices.out(v))
            && !graph.vertices.out(v).contains(v) && !graph.vertices.inn(v).contains(v)
            && (!directed ==> graph.vertices.inn(v).len() == 0) by {
            assert(graph.vertices.has(v));
            graph.vertices.node(v).lemma_keys();
            assert(graph.vertices.out(v).to_set().contains(v) == graph.vertices.out(v).contains(v));
            assert(graph.vertices.inn(v).to_set().contains(v) == graph.vertices.inn(v).contains(v));
            if !directed && graph.vertices.inn(v).len() > 0 {
                assert(graph.vertices.inn(v).to_set().contains(graph.vertices.inn(v)[0]));
            }
        }
        assert forall|v: NodeId| v < num_nodes implies !(#[trigger] graph.vertices.out(v)).contains(v)
            && !graph.vertices.inn(v).contains(v) by {
            assert(crate::sortedmap::strictly_sorted(graph.vertices.out(v)));
        }
        assert forall|v: NodeId| !directed && v < num_nodes implies (#[trigger] graph.vertices.inn(v)).len() == 0 by {
            assert(crate::sortedmap::strictly_sorted(graph.vertices.out(v)));
        }
        assert forall|v: NodeId, w: NodeId|
            directed && v < num_nodes && w < num_nodes && v != w implies (#[trigger] graph.vertices.inn(w).contains(v)
                <==> crate::graph::has_edge(edge_list@, v, w, true)) by {
            assert(graph.vertices.has(w));
            graph.vertices.node(w).lemma_keys();
            assert(graph.vertices.inn(w).to_set().contains(v) == graph.vertices.inn(w).contains(v));
        }
    }
    graph
}

} // verus!
