//! Builds a graph from an edge list and squishes it: removes self-edges
//! and parallel edges and sorts every neighbourhood.

use crate::generator::{endpoints_below, Generator};
use crate::graph::{dense, edge_joins, edges_within, has_edge, ids, CSRGraph};
use crate::slidingqueue::{lemma_wrapped_step, wrapped};
use crate::sortedmap::strictly_sorted;
use crate::types::{
    AsNode, DestId, Edge, EdgeList, NodeId, DEGREE, INVERT, NEEDS_WEIGHTS, SCALE, SYMMETRIZE,
    UNIFORM,
};
use vstd::prelude::*;

verus! {

pub struct BuilderBase {
    symmetrize: bool,
    needs_weights: bool,
    num_nodes: Option<usize>,
}

/// The largest endpoint of the edges (0 for no edges).
pub open spec fn max_node_id(el: Seq<Edge>) -> nat
    decreases el.len(),
{
    if el.len() == 0 {
        0
    } else {
        let m = max_node_id(el.drop_last());
        let e = el.last();
        let a = if e.0 > e.1 { e.0 } else { e.1 };
        if m > a { m } else { a as nat }
    }
}

proof fn lemma_max_node_id(el: Seq<Edge>)
    ensures
        forall|i: int| 0 <= i < el.len() ==> #[trigger] el[i].0 <= max_node_id(el) && el[i].1
            <= max_node_id(el),
    decreases el.len(),
{
    if el.len() > 0 {
        lemma_max_node_id(el.drop_last());
        assert forall|i: int| 0 <= i < el.len() implies #[trigger] el[i].0 <= max_node_id(el)
            && el[i].1 <= max_node_id(el) by {
            if i < el.len() - 1 {
                assert(el[i] == el.drop_last()[i]);
            }
        }
    }
}

/// How many times `v` is counted: as a source when `count_src`, as a
/// destination when `count_dst`.
pub open spec fn degree_count(el: Seq<Edge>, v: NodeId, count_src: bool, count_dst: bool) -> nat
    decreases el.len(),
{
    if el.len() == 0 {
        0
    } else {
        let e = el.last();
        degree_count(el.drop_last(), v, count_src, count_dst) + (if count_src && e.0 == v {
            1nat
        } else {
            0nat
        }) + (if count_dst && e.1 == v {
            1nat
        } else {
            0nat
        })
    }
}

impl BuilderBase {
    pub closed spec fn spec_symmetrize(&self) -> bool {
        self.symmetrize
    }

    pub closed spec fn spec_needs_weights(&self) -> bool {
        self.needs_weights
    }

    pub closed spec fn spec_num_nodes(&self) -> Option<usize> {
        self.num_nodes
    }

    pub fn new() -> (b: Self)
        ensures
            b.spec_symmetrize() == SYMMETRIZE,
            b.spec_needs_weights() == NEEDS_WEIGHTS,
            b.spec_num_nodes() is None,
    {
        BuilderBase { symmetrize: SYMMETRIZE, num_nodes: None, needs_weights: NEEDS_WEIGHTS }
    }

    /// The source of an edge.
    pub fn get_source(e: Edge) -> (s: DestId)
        ensures
            s == e.0,
    {
        e.0
    }

    pub fn find_max_node_id(edge_list: &EdgeList) -> (m: usize)
        ensures
            m == max_node_id(edge_list@),
    {
        let mut max_seen: usize = 0;
        let mut i: usize = 0;
        while i < edge_list.len()
            invariant
                i <= edge_list@.len(),
                max_seen == max_node_id(edge_list@.subrange(0, i as int)),
            decreases edge_list@.len() - i,
        {
            let e = edge_list[i];
            proof {
                assert(edge_list@.subrange(0, i + 1).drop_last() =~= edge_list@.subrange(0, i as int));
            }
            if e.0 > max_seen {
                max_seen = e.0;
            }
            if e.1 > max_seen {
                max_seen = e.1;
            }
            i = i + 1;
        }
        assert(edge_list@.subrange(0, i as int) =~= edge_list@);
        max_seen
    }

    /// The degree of every vertex: edges count for their source unless
    /// `transpose`, for their destination if `transpose`, and for both
    /// when symmetrizing. The counters wrap around past `usize::MAX`.
    pub fn count_degrees(&self, edge_list: &EdgeList, transpose: bool) -> (degrees: Vec<usize>)
        requires
            self.spec_num_nodes() is Some,
            endpoints_below(edge_list@, self.spec_num_nodes()->0 as nat),
        ensures
            degrees@.len() == self.spec_num_nodes()->0,
            forall|v: int|
                0 <= v < degrees@.len() ==> #[trigger] degrees@[v] == wrapped(
                    degree_count(
                        edge_list@,
                        v as NodeId,
                        self.spec_symmetrize() || !transpose,
                        self.spec_symmetrize() || transpose,
                    ),
                ),
    {
        let n = match self.num_nodes {
            Some(n) => n,
            None => 0,
        };
        let src = self.symmetrize || (!self.symmetrize && !transpose);
        let dst = self.symmetrize || (!self.symmetrize && transpose);
        let mut degrees: Vec<usize> = Vec::new();
        let mut i: usize = 0;
        while i < n
            invariant
                i <= n,
                degrees@ == Seq::new(i as nat, |k: int| 0usize),
            decreases n - i,
        {
            degrees.push(0);
            assert(degrees@ =~= Seq::new((i + 1) as nat, |k: int| 0usize));
            i = i + 1;
        }
        proof {
            vstd::arithmetic::div_mod::lemma_small_mod(0, usize::MAX as nat + 1);
        }
        let mut j: usize = 0;
        while j < edge_list.len()
            invariant
                endpoints_below(edge_list@, n as nat),
                degrees@.len() == n,
                j <= edge_list@.len(),
                forall|v: int|
                    0 <= v < n ==> #[trigger] degrees@[v] == wrapped(
                        degree_count(edge_list@.subrange(0, j as int), v as NodeId, src, dst),
                    ),
            decreases edge_list@.len() - j,
        {
            let e = edge_list[j];
            let ghost pre = edge_list@.subrange(0, j as int);
            proof {
                assert(edge_list@.subrange(0, j + 1).drop_last() =~= pre);
                assert(edge_list@.subrange(0, j + 1).last() == e);
            }
            if src {
                let d = degrees[e.0];
                degrees.set(e.0, if d == usize::MAX { 0 } else { d + 1 });
                proof {
                    lemma_wrapped_step(degree_count(pre, e.0, src, dst));
                    vstd::arithmetic::div_mod::lemma_small_mod(0, usize::MAX as nat + 1);
                    let m = usize::MAX as nat + 1;
                    if d == usize::MAX {
                        vstd::arithmetic::div_mod::lemma_mod_self_0(m as int);
                    } else {
                        vstd::arithmetic::div_mod::lemma_small_mod((d + 1) as nat, m);
                    }
                    lemma_wrapped_step(d as nat);
                }
            }
            let ghost mid = degrees@;
            if dst {
                let d = degrees[e.1];
                degrees.set(e.1, if d == usize::MAX { 0 } else { d + 1 });
                proof {
                    let m = usize::MAX as nat + 1;
                    if d == usize::MAX {
                        vstd::arithmetic::div_mod::lemma_mod_self_0(m as int);
                    } else {
                        vstd::arithmetic::div_mod::lemma_small_mod((d + 1) as nat, m);
                    }
                }
            }
            proof {
                assert forall|v: int| 0 <= v < n implies #[trigger] degrees@[v] == wrapped(
                    degree_count(edge_list@.subrange(0, j + 1), v as NodeId, src, dst),
                ) by {
                    let c = degree_count(pre, v as NodeId, src, dst);
                    lemma_wrapped_step(c);
                    lemma_wrapped_step(c + 1);
                    if src && e.0 == v {
                        assert(mid[v] == wrapped(c + 1));
                    } else {
                        assert(mid[v] == wrapped(c));
                    }
                }
            }
            j = j + 1;
        }
        assert(edge_list@.subrange(0, j as int) =~= edge_list@);
        degrees
    }

    /// Builds the graph of `edge_list`: the vertex count is the one set on
    /// the builder or else one more than the largest endpoint; weights are
    /// drawn for every edge when the builder needs weights; the graph is
    /// built directed when symmetrizing, undirected otherwise.
    pub fn make_graph_from_edge_list<V: AsNode, E: AsNode, G: CSRGraph<V, E>>(
        &mut self,
        edge_list: &mut EdgeList,
    ) -> (g: G)
        requires
            old(edge_list)@.len() < usize::MAX,
            old(self).spec_num_nodes() is None ==> max_node_id(old(edge_list)@) < usize::MAX,
            old(self).spec_num_nodes() matches Some(n) ==> endpoints_below(
                old(edge_list)@,
                n as nat,
            ),
        ensures
            final(self).spec_symmetrize() == old(self).spec_symmetrize(),
            final(self).spec_needs_weights() == old(self).spec_needs_weights(),
            final(self).spec_num_nodes() == Some(
                match old(self).spec_num_nodes() {
                    Some(n) => n,
                    None => (max_node_id(old(edge_list)@) + 1) as usize,
                },
            ),
            g.spec_num_nodes() == final(self).spec_num_nodes()->0,
            g.spec_directed() == old(self).spec_symmetrize(),
            dense(&g),
            final(edge_list)@.len() == old(edge_list)@.len(),
            forall|i: int|
                0 <= i < final(edge_list)@.len() ==> (#[trigger] final(edge_list)@[i]).0 == old(
                    edge_list,
                )@[i].0 && final(edge_list)@[i].1 == old(edge_list)@[i].1,
            !old(self).spec_needs_weights() ==> final(edge_list)@ == old(edge_list)@,
            old(self).spec_needs_weights() ==> forall|i: int|
                0 <= i < final(edge_list)@.len() ==> crate::generator::has_small_weight(
                    #[trigger] final(edge_list)@[i],
                ),
            forall|v: NodeId, w: NodeId|
                v < g.spec_num_nodes() && w < g.spec_num_nodes() && v != w ==> (#[trigger] g.spec_out(v).contains(w)
                    <==> has_edge(old(edge_list)@, v, w, old(self).spec_symmetrize())),
            old(self).spec_symmetrize() ==> forall|v: NodeId, w: NodeId|
                v < g.spec_num_nodes() && w < g.spec_num_nodes() && v != w ==> (#[trigger] g.spec_in(w).contains(v)
                    <==> has_edge(old(edge_list)@, v, w, true)),
            old(self).spec_symmetrize() ==> forall|v: NodeId, w: NodeId|
                #![trigger g.spec_out(v).contains(w)]
                #![trigger g.spec_in(w).contains(v)]
                v < g.spec_num_nodes() && w < g.spec_num_nodes() ==> (g.spec_out(v).contains(w) <==> g.spec_in(w).contains(v)),
            !old(self).spec_symmetrize() ==> forall|v: NodeId| v < g.spec_num_nodes() ==> (#[trigger] g.spec_in(v)).len() == 0,
            !old(self).spec_symmetrize() ==> forall|v: NodeId, w: NodeId|
                #![trigger g.spec_out(v).contains(w), g.spec_out(w).contains(v)]
                v < g.spec_num_nodes() && w < g.spec_num_nodes() ==> (g.spec_out(v).contains(w) <==> g.spec_out(w).contains(v)),
    {
        if self.num_nodes.is_none() {
            let m = Self::find_max_node_id(edge_list);
            self.num_nodes = Some(m + 1);
            proof {
                lemma_max_node_id(edge_list@);
            }
        }
        if self.needs_weights {
            Generator::insert_weights(edge_list);
        }
        let n = match self.num_nodes {
            Some(n) => n,
            None => 0,
        };
        proof {
            assert forall|i: int| 0 <= i < edge_list@.len() implies #[trigger] edge_list@[i].0 < n
                && edge_list@[i].1 < n by {
                if old(self).spec_num_nodes() is None {
                    lemma_max_node_id(old(edge_list)@);
                    assert(old(edge_list)@[i].0 <= max_node_id(old(edge_list)@));
                } else {
                    assert(endpoints_below(old(edge_list)@, n as nat));
                    assert(old(edge_list)@[i].0 < n);
                }
                assert(old(edge_list)@[i].0 < n && old(edge_list)@[i].1 < n);
            }
        }
        proof {
            lemma_same_endpoints_same_edges(old(edge_list)@, edge_list@);
        }
        if self.symmetrize {
            G::build_directed(n, edge_list)
        } else {
            G::build_undirected(n, edge_list)
        }
    }

    /// Removes self-edges and repeated edges from every neighbourhood (the
    /// in-neighbourhoods when `transpose`) and sorts it.
    #[verifier::spinoff_prover]
    #[verifier::rlimit(60)]
    pub fn squish_csr<V: AsNode, E: AsNode, G: CSRGraph<V, E>>(graph: &mut G, transpose: bool)
        requires
            dense(&*old(graph)),
        ensures
            dense(&*final(graph)),
            final(graph).spec_num_nodes() == old(graph).spec_num_nodes(),
            final(graph).spec_directed() == old(graph).spec_directed(),
            transpose ==> forall|v: NodeId|
                v < old(graph).spec_num_nodes() ==> #[trigger] final(graph).spec_in(v).to_set()
                    == old(graph).spec_in(v).to_set().remove(v) && final(graph).spec_out(v) == old(
                    graph,
                ).spec_out(v),
            !transpose ==> forall|v: NodeId|
                v < old(graph).spec_num_nodes() ==> #[trigger] final(graph).spec_out(v).to_set()
                    == old(graph).spec_out(v).to_set().remove(v) && final(graph).spec_in(v) == old(
                    graph,
                ).spec_in(v),
            transpose ==> forall|v: NodeId|
                v < old(graph).spec_num_nodes() ==> (#[trigger] final(graph).spec_in(v)).no_duplicates()
                    && !final(graph).spec_in(v).contains(v) && strictly_sorted(final(graph).spec_in(v)),
            !transpose ==> forall|v: NodeId|
                v < old(graph).spec_num_nodes() ==> (#[trigger] final(graph).spec_out(v)).no_duplicates()
                    && !final(graph).spec_out(v).contains(v) && strictly_sorted(final(graph).spec_out(v)),
    {
        let vs = graph.vertices();
        let ghost g0 = *graph;
        let ghost n = g0.spec_num_nodes();
        proof {
            assert(ids(vs@).len() == vs@.len());
        }
        let mut i: usize = 0;
        while i < vs.len()
            invariant
                dense(&*graph),
                ids(vs@) == g0.spec_vertices(),
                g0.spec_vertices() == Seq::new(n, |k: int| k as NodeId),
                graph.spec_num_nodes() == n,
                graph.spec_directed() == g0.spec_directed(),
                graph.spec_vertices() == g0.spec_vertices(),
                i <= vs@.len(),
                vs@.len() == n,
                forall|v: NodeId|
                    i <= v < n ==> #[trigger] graph.spec_out(v) == g0.spec_out(v) && graph.spec_in(v)
                        == g0.spec_in(v),
                transpose ==> forall|v: NodeId|
                    v < i ==> #[trigger] graph.spec_in(v).to_set() == g0.spec_in(v).to_set().remove(v)
                        && graph.spec_out(v) == g0.spec_out(v),
                !transpose ==> forall|v: NodeId|
                    v < i ==> #[trigger] graph.spec_out(v).to_set() == g0.spec_out(v).to_set().remove(v)
                        && graph.spec_in(v) == g0.spec_in(v),
                transpose ==> forall|v: NodeId|
                    v < i ==> (#[trigger] graph.spec_in(v)).no_duplicates() && !graph.spec_in(v).contains(v)
                        && strictly_sorted(graph.spec_in(v)),
                !transpose ==> forall|v: NodeId|
                    v < i ==> (#[trigger] graph.spec_out(v)).no_duplicates() && !graph.spec_out(v).contains(v)
                        && strictly_sorted(graph.spec_out(v)),
            decreases vs@.len() - i,
        {
            let v = vs[i].as_node();
            proof {
                assert(ids(vs@)[i as int] == v);
                assert(g0.spec_vertices()[i as int] == i);
                assert(v == i);
                assert(graph.spec_has_vertex(v));
            }
            let ghost g1 = *graph;
            Self::squish_vertex(graph, v, transpose);
            proof {
                assert forall|x: NodeId| i + 1 <= x < n implies #[trigger] graph.spec_out(x)
                    == g0.spec_out(x) && graph.spec_in(x) == g0.spec_in(x) by {
                    assert(g1.spec_out(x) == g0.spec_out(x));
                    assert(g1.spec_in(x) == g0.spec_in(x));
                    assert(graph.spec_out(x) == g1.spec_out(x));
                    assert(graph.spec_in(x) == g1.spec_in(x));
                }
                if transpose {
                    assert forall|x: NodeId| x < i + 1 implies (#[trigger] graph.spec_in(x)).no_duplicates()
                        && !graph.spec_in(x).contains(x) && strictly_sorted(graph.spec_in(x)) by {
                        if x < i {
                            assert(graph.spec_in(x) == g1.spec_in(x));
                        }
                    }
                    assert forall|x: NodeId| x < i + 1 implies #[trigger] graph.spec_in(x).to_set()
                        == g0.spec_in(x).to_set().remove(x) && graph.spec_out(x) == g0.spec_out(x) by {
                        assert(graph.spec_out(x) == g1.spec_out(x));
                        if x < i {
                            assert(graph.spec_in(x) == g1.spec_in(x));
                            assert(g1.spec_in(x).to_set() == g0.spec_in(x).to_set().remove(x));
                        }
                    }
                } else {
                    assert forall|x: NodeId| x < i + 1 implies (#[trigger] graph.spec_out(x)).no_duplicates()
                        && !graph.spec_out(x).contains(x) && strictly_sorted(graph.spec_out(x)) by {
                        if x < i {
                            assert(graph.spec_out(x) == g1.spec_out(x));
                        }
                    }
                    assert forall|x: NodeId| x < i + 1 implies #[trigger] graph.spec_out(x).to_set()
                        == g0.spec_out(x).to_set().remove(x) && graph.spec_in(x) == g0.spec_in(x) by {
                        assert(graph.spec_in(x) == g1.spec_in(x));
                        if x < i {
                            assert(graph.spec_out(x) == g1.spec_out(x));
                            assert(g1.spec_out(x).to_set() == g0.spec_out(x).to_set().remove(x));
                        }
                    }
                }
            }
            i = i + 1;
        }
    }

    /// Squishes the out-neighbours (the in-neighbours when `transpose`) of
    /// the one vertex `v`.
    fn squish_vertex<V: AsNode, E: AsNode, G: CSRGraph<V, E>>(graph: &mut G, v: NodeId, transpose: bool)
        requires
            dense(&*old(graph)),
            v < old(graph).spec_num_nodes(),
        ensures
            dense(&*final(graph)),
            final(graph).spec_num_nodes() == old(graph).spec_num_nodes(),
            final(graph).spec_directed() == old(graph).spec_directed(),
            final(graph).spec_vertices() == old(graph).spec_vertices(),
            forall|x: NodeId| x != v ==> #[trigger] final(graph).spec_out(x) == old(graph).spec_out(x),
            forall|x: NodeId| x != v ==> #[trigger] final(graph).spec_in(x) == old(graph).spec_in(x),
            transpose ==> final(graph).spec_out(v) == old(graph).spec_out(v) && final(graph).spec_in(v).to_set()
                == old(graph).spec_in(v).to_set().remove(v) && final(graph).spec_in(v).no_duplicates()
                && !final(graph).spec_in(v).contains(v) && strictly_sorted(final(graph).spec_in(v)),
            !transpose ==> final(graph).spec_in(v) == old(graph).spec_in(v) && final(graph).spec_out(v).to_set()
                == old(graph).spec_out(v).to_set().remove(v) && final(graph).spec_out(v).no_duplicates()
                && !final(graph).spec_out(v).contains(v) && strictly_sorted(final(graph).spec_out(v)),
    {
        proof {
            assert(graph.spec_has_vertex(v));
        }
        let ghost g1 = *graph;
        if transpose {
            let neighs = graph.in_neigh(v);
            let squished = squish_neighbours(neighs, v);
            proof {
                lemma_ids_members(graph, squished@, neighs@, v, false);
                lemma_sorted_no_dup(ids(squished@));
            }
            let ghost sq = ids(squished@);
            graph.replace_in_edges(v, squished);
            proof {
                assert(!sq.to_set().contains(v));
                if graph.spec_in(v).contains(v) {
                    assert(graph.spec_in(v).to_set().contains(v));
                }
            }
        } else {
            let neighs = graph.out_neigh(v);
            let squished = squish_neighbours(neighs, v);
            proof {
                lemma_ids_members(graph, squished@, neighs@, v, true);
                lemma_sorted_no_dup(ids(squished@));
            }
            let ghost sq = ids(squished@);
            graph.replace_out_edges(v, squished);
            proof {
                assert(!sq.to_set().contains(v));
                if graph.spec_out(v).contains(v) {
                    assert(graph.spec_out(v).to_set().contains(v));
                }
            }
        }
        proof {
            lemma_dense_kept(&g1, graph, v, transpose);
        }
    }

    /// Squishes the out-neighbourhoods, and the in-neighbourhoods of a
    /// directed graph when inversion is on.
    pub fn squish_graph<V: AsNode, E: AsNode, G: CSRGraph<V, E>>(&self, graph: &mut G)
        requires
            dense(&*old(graph)),
        ensures
            dense(&*final(graph)),
            final(graph).spec_num_nodes() == old(graph).spec_num_nodes(),
            final(graph).spec_directed() == old(graph).spec_directed(),
            forall|v: NodeId|
                v < old(graph).spec_num_nodes() ==> #[trigger] final(graph).spec_out(v).to_set()
                    == old(graph).spec_out(v).to_set().remove(v),
            forall|v: NodeId|
                v < old(graph).spec_num_nodes() ==> (#[trigger] final(graph).spec_out(v)).no_duplicates()
                    && !final(graph).spec_out(v).contains(v) && strictly_sorted(final(graph).spec_out(v)),
    {
        Self::squish_csr(graph, false);
        if graph.directed() {
            if INVERT {
                Self::squish_csr(graph, true);
            }
        }
    }

    /// Generates a uniform random graph of `2^SCALE` vertices, builds it
    /// from its edge list and squishes it.
    pub fn make_graph<V: AsNode, E: AsNode, G: CSRGraph<V, E>>(&mut self) -> (g: G)
        requires
            old(self).spec_num_nodes() matches Some(n) ==> n >= vstd::arithmetic::power2::pow2(
                SCALE as nat,
            ),
        ensures
            dense(&g),
            g.spec_directed() == old(self).spec_symmetrize(),
            forall|v: NodeId|
                v < g.spec_num_nodes() ==> (#[trigger] g.spec_out(v)).no_duplicates() && !g.spec_out(v).contains(v)
                    && strictly_sorted(g.spec_out(v)),
    {
        proof {
            vstd::arithmetic::power2::lemma2_to64();
        }
        let generator = Generator::new(SCALE, DEGREE);
        let mut edge_list = generator.generate_edge_list(UNIFORM);
        proof {
            assert forall|i: int| 0 <= i < edge_list@.len() implies #[trigger] edge_list@[i].0
                <= usize::MAX - 1 by {}
            lemma_max_node_id_below(edge_list@, 256);
        }
        let mut graph: G = self.make_graph_from_edge_list(&mut edge_list);
        self.squish_graph(&mut graph);
        graph
    }
}

/// Two edge lists with the same endpoints, edge by edge, join the same
/// vertices.
proof fn lemma_same_endpoints_same_edges(a: Seq<Edge>, b: Seq<Edge>)
    requires
        a.len() == b.len(),
        forall|i: int| 0 <= i < b.len() ==> (#[trigger] b[i]).0 == a[i].0 && b[i].1 == a[i].1,
    ensures
        forall|v: NodeId, w: NodeId, d: bool| #[trigger] has_edge(b, v, w, d) == has_edge(a, v, w, d),
{
    assert forall|v: NodeId, w: NodeId, d: bool| #[trigger] has_edge(b, v, w, d) == has_edge(a, v, w, d) by {
        if has_edge(b, v, w, d) {
            let k = choose|k: int| 0 <= k < b.len() && #[trigger] edge_joins(b[k], v, w, d);
            assert(b[k].0 == a[k].0 && b[k].1 == a[k].1);
            assert(edge_joins(a[k], v, w, d));
        }
        if has_edge(a, v, w, d) {
            let k = choose|k: int| 0 <= k < a.len() && #[trigger] edge_joins(a[k], v, w, d);
            assert(b[k].0 == a[k].0 && b[k].1 == a[k].1);
            assert(edge_joins(b[k], v, w, d));
        }
    }
}

proof fn lemma_sorted_no_dup(s: Seq<NodeId>)
    requires
        strictly_sorted(s),
    ensures
        s.no_duplicates(),
{
    assert forall|a: int, b: int| 0 <= a < b < s.len() implies s[a] != s[b] by {
        assert(s[a] < s[b]);
    }
}

proof fn lemma_max_node_id_below(el: Seq<Edge>, n: nat)
    requires
        endpoints_below(el, n),
        n > 0,
    ensures
        max_node_id(el) < n,
    decreases el.len(),
{
    if el.len() > 0 {
        lemma_max_node_id_below(el.drop_last(), n);
        assert(el[el.len() - 1].0 < n);
    }
}

/// The vertices of a squished neighbourhood are vertices of the graph.
proof fn lemma_ids_members<V: AsNode, E: AsNode, G: CSRGraph<V, E>>(
    g: &G,
    squished: Seq<E>,
    neighs: Seq<E>,
    v: NodeId,
    out: bool,
)
    requires
        dense(g),
        v < g.spec_num_nodes(),
        ids(neighs) == if out { g.spec_out(v) } else { g.spec_in(v) },
        ids(squished).to_set() == ids(neighs).to_set().remove(v),
    ensures
        forall|i: int| 0 <= i < squished.len() ==> g.spec_has_vertex(#[trigger] squished[i].node_of()),
{
    assert forall|i: int| 0 <= i < squished.len() implies g.spec_has_vertex(
        #[trigger] squished[i].node_of(),
    ) by {
        assert(ids(squished)[i] == squished[i].node_of());
        assert(ids(squished).to_set().contains(squished[i].node_of()));
        let k = choose|k: int| 0 <= k < ids(neighs).len() && ids(neighs)[k] == squished[i].node_of();
        if out {
            assert(g.spec_out(v)[k] < g.spec_num_nodes());
        } else {
            assert(g.spec_in(v)[k] < g.spec_num_nodes());
        }
    }
}

/// Replacing the neighbourhood of `v` by a subset of it keeps the graph
/// dense.
proof fn lemma_dense_kept<V: AsNode, E: AsNode, G: CSRGraph<V, E>>(g0: &G, g1: &G, v: NodeId, transpose: bool)
    requires
        dense(g0),
        v < g0.spec_num_nodes(),
        g1.spec_wf(),
        g1.spec_num_nodes() == g0.spec_num_nodes(),
        g1.spec_vertices() == g0.spec_vertices(),
        forall|x: NodeId| #[trigger] g1.spec_has_vertex(x) == g0.spec_has_vertex(x),
        transpose ==> forall|x: NodeId| #[trigger] g1.spec_out(x) == g0.spec_out(x),
        !transpose ==> forall|x: NodeId| #[trigger] g1.spec_in(x) == g0.spec_in(x),
        transpose ==> forall|x: NodeId| x != v ==> #[trigger] g1.spec_in(x) == g0.spec_in(x),
        !transpose ==> forall|x: NodeId| x != v ==> #[trigger] g1.spec_out(x) == g0.spec_out(x),
        transpose ==> g1.spec_in(v).to_set().subset_of(g0.spec_in(v).to_set()),
        !transpose ==> g1.spec_out(v).to_set().subset_of(g0.spec_out(v).to_set()),
    ensures
        dense(g1),
{
    assert forall|x: NodeId, i: int|
        x < g1.spec_num_nodes() && 0 <= i < g1.spec_out(x).len() implies #[trigger] g1.spec_out(
        x,
    )[i] < g1.spec_num_nodes() by {
        if !transpose && x == v {
            assert(g1.spec_out(v).to_set().contains(g1.spec_out(v)[i]));
            let k = choose|k: int|
                0 <= k < g0.spec_out(v).len() && g0.spec_out(v)[k] == g1.spec_out(v)[i];
            assert(g0.spec_out(v)[k] < g0.spec_num_nodes());
        } else {
            assert(g1.spec_out(x) == g0.spec_out(x));
        }
    }
    assert forall|x: NodeId, i: int|
        x < g1.spec_num_nodes() && 0 <= i < g1.spec_in(x).len() implies #[trigger] g1.spec_in(
        x,
    )[i] < g1.spec_num_nodes() by {
        if transpose && x == v {
            assert(g1.spec_in(v).to_set().contains(g1.spec_in(v)[i]));
            let k = choose|k: int|
                0 <= k < g0.spec_in(v).len() && g0.spec_in(v)[k] == g1.spec_in(v)[i];
            assert(g0.spec_in(v)[k] < g0.spec_num_nodes());
        } else {
            assert(g1.spec_in(x) == g0.spec_in(x));
        }
    }
}

/// The neighbours other than `v`, each vertex once (its first
/// occurrence), sorted by id.
pub fn squish_neighbours<E: AsNode>(neighs: Vec<E>, v: NodeId) -> (r: Vec<E>)
    ensures
        ids(r@).to_set() == ids(neighs@).to_set().remove(v),
        strictly_sorted(ids(r@)),
{
    let ghost n0 = neighs@;
    let total = neighs.len();
    assert(n0.len() == total);
    let mut input = neighs;
    let mut out: Vec<E> = Vec::new();
    let mut taken: usize = 0;
    proof {
        assert(ids(out@).to_set() =~= ids(n0.subrange(0, 0)).to_set().remove(v));
    }
    while input.len() > 0
        invariant
            input@ == n0.subrange(taken as int, n0.len() as int),
            taken <= n0.len(),
            n0.len() <= usize::MAX,
            strictly_sorted(ids(out@)),
            ids(out@).to_set() == ids(n0.subrange(0, taken as int)).to_set().remove(v),
        decreases input@.len(),
    {
        let e = input.remove(0);
        let id = e.as_node();
        proof {
            assert(e == n0[taken as int]);
            assert(ids(n0.subrange(0, taken + 1)) =~= ids(n0.subrange(0, taken as int)).push(id));
            ids(n0.subrange(0, taken as int)).lemma_push_to_set_commute(id);
        }
        let ghost before = out@;
        // position of the first neighbour with a larger id
        let mut p: usize = 0;
        let mut present = false;
        while p < out.len()
            invariant_except_break
                !present,
            invariant
                out@ == before,
                strictly_sorted(ids(out@)),
                p <= out@.len(),
                forall|k: int| 0 <= k < p ==> #[trigger] ids(out@)[k] < id,
            ensures
                present ==> p < out@.len() && ids(out@)[p as int] == id,
                !present ==> p == out@.len() || ids(out@)[p as int] > id,
            decreases out@.len() - p,
        {
            let q = out[p].as_node();
            assert(ids(out@)[p as int] == q);
            if q == id {
                present = true;
                break;
            }
            if q > id {
                break;
            }
            p = p + 1;
        }
        if id != v && !present {
            out.insert(p, e);
            proof {
                assert(ids(out@) =~= ids(before).insert(p as int, id));
                assert forall|a: int, b: int| 0 <= a < b < ids(out@).len() implies ids(out@)[a]
                    < ids(out@)[b] by {
                    if p < before.len() {
                        assert(ids(before)[p as int] > id);
                    }
                }
                assert forall|x: NodeId| ids(out@).to_set().contains(x) == ids(before).to_set().insert(
                    id,
                ).contains(x) by {
                    if ids(out@).to_set().contains(x) {
                        let k = choose|k: int| 0 <= k < ids(out@).len() && ids(out@)[k] == x;
                        if k < p {
                            assert(ids(before)[k] == x);
                        } else if k > p {
                            assert(ids(before)[k - 1] == x);
                        }
                    }
                    if ids(before).to_set().contains(x) {
                        let k = choose|k: int| 0 <= k < ids(before).len() && ids(before)[k] == x;
                        if k < p {
                            assert(ids(out@)[k] == x);
                        } else {
                            assert(ids(out@)[k + 1] == x);
                        }
                    }
                    if x == id {
                        assert(ids(out@)[p as int] == x);
                    }
                }
                assert(ids(out@).to_set() =~= ids(before).to_set().insert(id));
            }
        } else {
            proof {
                if present {
                    assert(ids(before).to_set().contains(id));
                }
                assert(ids(before).to_set() =~= ids(n0.subrange(0, taken + 1)).to_set().remove(v));
            }
        }
        taken = taken + 1;
        proof {
            assert(input@ =~= n0.subrange(taken as int, n0.len() as int));
        }
    }
    assert(n0.subrange(0, taken as int) =~= n0);
    out
}

} // verus!
