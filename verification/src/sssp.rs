//! Single-source shortest paths by delta-stepping (Meyer and Sanders).
//!
//! Vertices whose distance improves are put in the bin of width `delta`
//! that their new distance falls in. Rounds take the lowest non-empty bin
//! (at or above the current one) as the frontier and relax the out-edges of
//! each frontier vertex whose distance has not dropped below the bin since.
//! A vertex stays in older bins when its distance improves again; such
//! stale entries are skipped.

use crate::graph::CSRGraph;
use crate::types::{AsNode, NodeId, Weight, WeightedEdge};
use vstd::prelude::*;

verus! {

/// Distance of a vertex that no walk from the source has reached.
pub const K_DIST_INF: Weight = usize::MAX / 2;

/// Bin index that stands for "no bin".
pub const K_MAX_BIN: usize = usize::MAX / 2;

/// The weight an edge carries.
pub open spec fn edge_weight<E: WeightedEdge>(e: E) -> int {
    e.weight_of().unwrap() as int
}

/// Some walk from `source` to `v` of at most `k` edges weighs at most `d`.
pub open spec fn walk_within<V: AsNode, E: AsNode + WeightedEdge, G: CSRGraph<V, E>>(
    g: &G,
    source: NodeId,
    v: NodeId,
    d: int,
    k: nat,
) -> bool
    decreases k,
{
    if k == 0 {
        v == source && 0 <= d
    } else {
        ||| walk_within(g, source, v, d, (k - 1) as nat)
        ||| exists|u: NodeId, j: int|
            #![trigger g.spec_out_edges(u)[j]]
            0 <= j < g.spec_out_edges(u).len() && g.spec_out_edges(u)[j].node_of() == v
                && walk_within(g, source, u, d - edge_weight(g.spec_out_edges(u)[j]), (k - 1) as nat)
    }
}

/// What `delta_step` asks of the graph: vertices `0 .. n`, every edge
/// leads to one of them and carries a weight of at most `K_DIST_INF`.
pub open spec fn weighted_dense<V: AsNode, E: AsNode + WeightedEdge, G: CSRGraph<V, E>>(
    g: &G,
) -> bool {
    &&& g.spec_wf()
    &&& forall|v: NodeId| v < g.spec_num_nodes() ==> #[trigger] g.spec_has_vertex(v)
    &&& forall|u: NodeId, j: int|
        u < g.spec_num_nodes() && 0 <= j < g.spec_out_edges(u).len() ==> {
            let e = #[trigger] g.spec_out_edges(u)[j];
            &&& e.node_of() < g.spec_num_nodes()
            &&& e.weight_of() is Some
            &&& e.weight_of().unwrap() <= K_DIST_INF
        }
}

/// No out-edge of `u` leads to a vertex that a walk through `u` would bring closer.
pub open spec fn relaxed<V: AsNode, E: AsNode + WeightedEdge, G: CSRGraph<V, E>>(
    g: &G,
    dist: Seq<usize>,
    u: NodeId,
) -> bool {
    forall|j: int|
        0 <= j < g.spec_out_edges(u).len() ==> dist[#[trigger] g.spec_out_edges(u)[j].node_of() as int]
            <= dist[u as int] + edge_weight(g.spec_out_edges(u)[j])
}

/// `u` sits in the bin its present distance falls in.
pub open spec fn in_own_bin(dist: Seq<usize>, bins: Seq<Vec<NodeId>>, delta: usize, u: NodeId) -> bool {
    let b = dist[u as int] as int / delta as int;
    b < bins.len() && bins[b]@.contains(u)
}

/// `u` is still to be taken from the frontier, from position `i` on, in the
/// round of bin `c`.
pub open spec fn in_frontier(
    dist: Seq<usize>,
    front: Seq<NodeId>,
    i: int,
    delta: usize,
    c: usize,
    u: NodeId,
) -> bool {
    dist[u as int] >= delta * c && front.subrange(i, front.len() as int).contains(u)
}

/// Every reached vertex that is not waiting in a bin or in the frontier
/// has its out-edges relaxed.
pub open spec fn settled_unless_pending<V: AsNode, E: AsNode + WeightedEdge, G: CSRGraph<V, E>>(
    g: &G,
    dist: Seq<usize>,
    bins: Seq<Vec<NodeId>>,
    front: Seq<NodeId>,
    i: int,
    delta: usize,
    c: usize,
) -> bool {
    forall|u: NodeId|
        #![trigger relaxed(g, dist, u)]
        u < g.spec_num_nodes() && dist[u as int] < K_DIST_INF && !in_own_bin(dist, bins, delta, u)
            && !in_frontier(dist, front, i, delta, c, u) ==> relaxed(g, dist, u)
}

pub open spec fn sum_of(s: Seq<int>) -> int
    decreases s.len(),
{
    if s.len() == 0 {
        0
    } else {
        sum_of(s.drop_last()) + s.last()
    }
}

pub open spec fn dist_total(dist: Seq<usize>) -> int {
    sum_of(dist.map_values(|x: usize| x as int))
}

pub open spec fn bins_total(bins: Seq<Vec<NodeId>>) -> int {
    sum_of(bins.map_values(|b: Vec<NodeId>| b@.len() as int))
}

pub proof fn lemma_sum_update(s: Seq<int>, i: int, x: int)
    requires
        0 <= i < s.len(),
    ensures
        sum_of(s.update(i, x)) == sum_of(s) - s[i] + x,
    decreases s.len(),
{
    if i == s.len() - 1 {
        assert(s.update(i, x).drop_last() =~= s.drop_last());
    } else {
        lemma_sum_update(s.drop_last(), i, x);
        assert(s.update(i, x).drop_last() =~= s.drop_last().update(i, x));
    }
}

pub proof fn lemma_sum_nonneg(s: Seq<int>)
    requires
        forall|i: int| 0 <= i < s.len() ==> s[i] >= 0,
    ensures
        sum_of(s) >= 0,
    decreases s.len(),
{
    if s.len() > 0 {
        lemma_sum_nonneg(s.drop_last());
    }
}

pub(crate) proof fn lemma_dist_update(dist: Seq<usize>, w: int, x: usize)
    requires
        0 <= w < dist.len(),
    ensures
        dist_total(dist.update(w, x)) == dist_total(dist) - dist[w] + x,
{
    let f = |y: usize| y as int;
    lemma_sum_update(dist.map_values(f), w, x as int);
    assert(dist.update(w, x).map_values(f) =~= dist.map_values(f).update(w, x as int));
}

proof fn lemma_bins_update(bins: Seq<Vec<NodeId>>, b: int, v: Vec<NodeId>)
    requires
        0 <= b < bins.len(),
    ensures
        bins_total(bins.update(b, v)) == bins_total(bins) - bins[b]@.len() + v@.len(),
{
    let f = |x: Vec<NodeId>| x@.len() as int;
    lemma_sum_update(bins.map_values(f), b, v@.len() as int);
    assert(bins.update(b, v).map_values(f) =~= bins.map_values(f).update(b, v@.len() as int));
}

proof fn lemma_bins_push_empty(bins: Seq<Vec<NodeId>>, v: Vec<NodeId>)
    requires
        v@.len() == 0,
    ensures
        bins_total(bins.push(v)) == bins_total(bins),
{
    let f = |x: Vec<NodeId>| x@.len() as int;
    assert(bins.push(v).map_values(f).drop_last() =~= bins.map_values(f));
}

proof fn lemma_totals_nonneg(dist: Seq<usize>, bins: Seq<Vec<NodeId>>)
    ensures
        dist_total(dist) >= 0,
        bins_total(bins) >= 0,
{
    lemma_sum_nonneg(dist.map_values(|y: usize| y as int));
    lemma_sum_nonneg(bins.map_values(|x: Vec<NodeId>| x@.len() as int));
}

proof fn lemma_div_at_least(x: int, d: int, c: int)
    requires
        d > 0,
        c >= 0,
        x >= d * c,
    ensures
        x / d >= c,
{
    assert(x / d >= c) by (nonlinear_arith)
        requires
            d > 0,
            c >= 0,
            x >= d * c,
    ;
}

proof fn lemma_div_bounds(x: int, d: int)
    requires
        d > 0,
        x >= 0,
    ensures
        x >= d * (x / d),
        x / d <= x,
{
    assert(x >= d * (x / d) && x / d <= x) by (nonlinear_arith)
        requires
            d > 0,
            x >= 0,
    ;
}

proof fn lemma_mul_mono(d: int, a: int, b: int)
    requires
        d > 0,
        0 <= a <= b,
    ensures
        d * a <= d * b,
{
    assert(d * a <= d * b) by (nonlinear_arith)
        requires
            d > 0,
            0 <= a <= b,
    ;
}

/// A walk to `u` extended by the `j`-th out-edge of `u`.
pub(crate) proof fn lemma_walk_step<V: AsNode, E: AsNode + WeightedEdge, G: CSRGraph<V, E>>(
    g: &G,
    source: NodeId,
    u: NodeId,
    j: int,
    d: int,
    k: nat,
)
    requires
        0 <= j < g.spec_out_edges(u).len(),
        walk_within(g, source, u, d, k),
    ensures
        walk_within(
            g,
            source,
            g.spec_out_edges(u)[j].node_of(),
            d + edge_weight(g.spec_out_edges(u)[j]),
            k + 1,
        ),
{
    let e = g.spec_out_edges(u)[j];
    assert(walk_within(g, source, u, (d + edge_weight(e)) - edge_weight(e), k));
}

/// Once every reached vertex is relaxed, no walk beats the distances.
pub(crate) proof fn lemma_optimal<V: AsNode, E: AsNode + WeightedEdge, G: CSRGraph<V, E>>(
    g: &G,
    source: NodeId,
    dist: Seq<usize>,
    v: NodeId,
    d: int,
    k: nat,
)
    requires
        weighted_dense(g),
        dist.len() == g.spec_num_nodes(),
        source < g.spec_num_nodes(),
        dist[source as int] == 0,
        forall|x: int| 0 <= x < dist.len() ==> dist[x] <= K_DIST_INF,
        forall|x: NodeId|
            x < g.spec_num_nodes() && dist[x as int] < K_DIST_INF ==> #[trigger] relaxed(g, dist, x),
        walk_within(g, source, v, d, k),
    ensures
        v < g.spec_num_nodes(),
        dist[v as int] <= d,
    decreases k,
{
    if k == 0 {
    } else if walk_within(g, source, v, d, (k - 1) as nat) {
        lemma_optimal(g, source, dist, v, d, (k - 1) as nat);
    } else {
        let (u, j) = choose|u: NodeId, j: int|
            #![trigger g.spec_out_edges(u)[j]]
            0 <= j < g.spec_out_edges(u).len() && g.spec_out_edges(u)[j].node_of() == v
                && walk_within(
                g,
                source,
                u,
                d - edge_weight(g.spec_out_edges(u)[j]),
                (k - 1) as nat,
            );
        let e = g.spec_out_edges(u)[j];
        lemma_optimal(g, source, dist, u, d - edge_weight(e), (k - 1) as nat);
        if dist[u as int] < K_DIST_INF {
            assert(relaxed(g, dist, u));
        }
    }
}

/// `dist` holds, for every vertex, the least weight of a walk from
/// `source` to it, or `K_DIST_INF` where every walk weighs at least that
/// much (or none exists).
pub open spec fn shortest_distances<V: AsNode, E: AsNode + WeightedEdge, G: CSRGraph<V, E>>(
    graph: &G,
    source: NodeId,
    dist: Seq<usize>,
) -> bool {
    &&& dist.len() == graph.spec_num_nodes()
    &&& dist[source as int] == 0
    &&& forall|v: int| 0 <= v < dist.len() ==> dist[v] <= K_DIST_INF
    &&& forall|v: NodeId|
        v < graph.spec_num_nodes() && dist[v as int] < K_DIST_INF ==> exists|k: nat|
            walk_within(graph, source, v, dist[v as int] as int, k)
    &&& forall|v: NodeId, d: int, k: nat| #[trigger]
        walk_within(graph, source, v, d, k) ==> v < graph.spec_num_nodes() && dist[v as int] <= d
}

/// The distances are determined by the graph and the source alone: any
/// two results of `delta_step`, whatever the bin widths, are equal.
pub proof fn lemma_distances_unique<V: AsNode, E: AsNode + WeightedEdge, G: CSRGraph<V, E>>(
    graph: &G,
    source: NodeId,
    d1: Seq<usize>,
    d2: Seq<usize>,
)
    requires
        graph.spec_num_nodes() <= usize::MAX,
        shortest_distances(graph, source, d1),
        shortest_distances(graph, source, d2),
    ensures
        d1 == d2,
{
    assert forall|v: int| 0 <= v < d1.len() implies d1[v] == d2[v] by {
        let x = v as NodeId;
        assert(x as int == v);
        if d1[v] < K_DIST_INF {
            let k = choose|k: nat| walk_within(graph, source, x, d1[v] as int, k);
            assert(walk_within(graph, source, x, d1[v] as int, k));
        }
        if d2[v] < K_DIST_INF {
            let k = choose|k: nat| walk_within(graph, source, x, d2[v] as int, k);
            assert(walk_within(graph, source, x, d2[v] as int, k));
        }
    }
    assert(d1 =~= d2);
}

/// Distances from `source` to every vertex of `graph`, by delta-stepping
/// with bins of width `delta`. A vertex no walk reaches within a weight
/// below `K_DIST_INF` keeps `K_DIST_INF`.
pub fn delta_step<V: AsNode, E: AsNode + WeightedEdge, G: CSRGraph<V, E>>(
    graph: &G,
    source: NodeId,
    delta: Weight,
) -> (dist: Vec<Weight>)
    requires
        weighted_dense(graph),
        source < graph.spec_num_nodes(),
        delta > 0,
    ensures
        shortest_distances(graph, source, dist@),
{
    let n = graph.num_nodes();
    let mut dist: Vec<Weight> = Vec::new();
    let mut x: usize = 0;
    while x < n
        invariant
            x <= n,
            dist@ == Seq::new(x as nat, |_i: int| K_DIST_INF),
        decreases n - x,
    {
        dist.push(K_DIST_INF);
        x = x + 1;
    }
    dist.set(source, 0);
    let ghost mut hops: Seq<nat> = Seq::new(n as nat, |_i: int| 0nat);
    let mut bins: Vec<Vec<NodeId>> = Vec::new();
    let mut front: Vec<NodeId> = Vec::new();
    front.push(source);
    let mut curr_bin: usize = 0;
    proof {
        assert forall|u: NodeId|
            u < n && dist@[u as int] < K_DIST_INF && !in_own_bin(dist@, bins@, delta, u)
                && !in_frontier(dist@, front@, 0, delta, curr_bin, u) implies relaxed(
            graph,
            dist@,
            u,
        ) by {
            assert(u == source) by {
                if u != source {
                    assert(dist@[u as int] == K_DIST_INF);
                }
            }
            assert(front@.subrange(0, 1)[0] == source);
        }
        lemma_totals_nonneg(dist@, bins@);
    }
    while curr_bin != K_MAX_BIN
        invariant
            weighted_dense(graph),
            n == graph.spec_num_nodes(),
            source < n,
            delta > 0,
            dist@.len() == n,
            hops.len() == n,
            dist@[source as int] == 0,
            forall|v: int| 0 <= v < n ==> dist@[v] <= K_DIST_INF,
            forall|v: NodeId|
                v < n && dist@[v as int] < K_DIST_INF ==> walk_within(
                    graph,
                    source,
                    v,
                    dist@[v as int] as int,
                    #[trigger] hops[v as int],
                ),
            forall|b: int, y: int|
                0 <= b < bins@.len() && 0 <= y < bins@[b]@.len() ==> #[trigger] bins@[b]@[y] < n,
            forall|y: int| 0 <= y < front@.len() ==> #[trigger] front@[y] < n,
            bins@.len() == 0 || delta * (bins@.len() - 1) < K_DIST_INF,
            curr_bin != K_MAX_BIN ==> {
                &&& front@.len() >= 1
                &&& delta * curr_bin <= K_DIST_INF
                &&& forall|b: int| 0 <= b < curr_bin && b < bins@.len() ==> #[trigger] bins@[b]@.len() == 0
                &&& settled_unless_pending(graph, dist@, bins@, front@, 0, delta, curr_bin)
            },
            curr_bin == K_MAX_BIN ==> forall|u: NodeId|
                u < n && dist@[u as int] < K_DIST_INF ==> #[trigger] relaxed(graph, dist@, u),
        decreases dist_total(dist@) + bins_total(bins@) + front@.len(),
    {
        let ghost phi0 = dist_total(dist@) + bins_total(bins@) + front@.len();
        let mut i: usize = 0;
        while i < front.len()
            invariant
                weighted_dense(graph),
                n == graph.spec_num_nodes(),
                source < n,
                delta > 0,
                dist@.len() == n,
                hops.len() == n,
                dist@[source as int] == 0,
                forall|v: int| 0 <= v < n ==> dist@[v] <= K_DIST_INF,
                forall|v: NodeId|
                    v < n && dist@[v as int] < K_DIST_INF ==> walk_within(
                        graph,
                        source,
                        v,
                        dist@[v as int] as int,
                        #[trigger] hops[v as int],
                    ),
                forall|b: int, y: int|
                    0 <= b < bins@.len() && 0 <= y < bins@[b]@.len() ==> #[trigger] bins@[b]@[y] < n,
                forall|y: int| 0 <= y < front@.len() ==> #[trigger] front@[y] < n,
                bins@.len() == 0 || delta * (bins@.len() - 1) < K_DIST_INF,
                curr_bin != K_MAX_BIN,
                front@.len() >= 1,
                delta * curr_bin <= K_DIST_INF,
                forall|b: int| 0 <= b < curr_bin && b < bins@.len() ==> #[trigger] bins@[b]@.len() == 0,
                settled_unless_pending(graph, dist@, bins@, front@, i as int, delta, curr_bin),
                i <= front@.len(),
                dist_total(dist@) + bins_total(bins@) + front@.len() - i <= phi0 - i,
            decreases front@.len() - i,
        {
            let u = front[i];
            let ghost dist_i = dist@;
            let ghost bins_i = bins@;
            if dist[u] >= delta * curr_bin {
                let neigh = graph.out_neigh(u);
                let mut j: usize = 0;
                while j < neigh.len()
                    invariant
                        weighted_dense(graph),
                        n == graph.spec_num_nodes(),
                        source < n,
                        delta > 0,
                        u < n,
                        neigh@ == graph.spec_out_edges(u),
                        dist@.len() == n,
                        hops.len() == n,
                        dist@[source as int] == 0,
                        dist@[u as int] == dist_i[u as int],
                        dist@[u as int] >= delta * curr_bin,
                        forall|v: int| 0 <= v < n ==> dist@[v] <= K_DIST_INF,
                        forall|v: NodeId|
                            v < n && dist@[v as int] < K_DIST_INF ==> walk_within(
                                graph,
                                source,
                                v,
                                dist@[v as int] as int,
                                #[trigger] hops[v as int],
                            ),
                        forall|b: int, y: int|
                            0 <= b < bins@.len() && 0 <= y < bins@[b]@.len() ==> #[trigger] bins@[b]@[y]
                                < n,
                        bins@.len() == 0 || delta * (bins@.len() - 1) < K_DIST_INF,
                        forall|b: int|
                            0 <= b < curr_bin && b < bins@.len() ==> #[trigger] bins@[b]@.len() == 0,
                        settled_unless_pending(graph, dist@, bins@, front@, i as int, delta, curr_bin),
                        forall|jj: int|
                            0 <= jj < j ==> dist@[#[trigger] neigh@[jj].node_of() as int] <= dist@[u as int]
                                + edge_weight(neigh@[jj]),
                        j <= neigh@.len(),
                        dist_total(dist@) + bins_total(bins@) <= dist_total(dist_i) + bins_total(bins_i),
                    decreases neigh@.len() - j,
                {
                    let w = neigh[j].as_node();
                    let old_dist = dist[w];
                    let new_dist = dist[u] + neigh[j].get_weight();
                    if new_dist < old_dist {
                        let ghost dist_before = dist@;
                        let ghost bins_before = bins@;
                        dist.set(w, new_dist);
                        proof {
                            lemma_dist_update(dist_before, w as int, new_dist);
                            lemma_walk_step(graph, source, u, j as int, dist_before[u as int] as int, hops[u as int]);
                            hops = hops.update(w as int, hops[u as int] + 1);
                        }
                        let dest_bin = new_dist / delta;
                        proof {
                            lemma_div_at_least(new_dist as int, delta as int, curr_bin as int);
                            lemma_div_bounds(new_dist as int, delta as int);
                        }
                        while bins.len() <= dest_bin
                            invariant
                                bins@.len() >= bins_before.len(),
                                bins@ == bins_before || bins@.len() <= dest_bin + 1,
                                forall|b: int|
                                    0 <= b < bins_before.len() ==> #[trigger] bins@[b] == bins_before[b],
                                forall|b: int|
                                    bins_before.len() <= b < bins@.len() ==> #[trigger] bins@[b]@.len() == 0,
                                bins_total(bins@) == bins_total(bins_before),
                            decreases dest_bin + 1 - bins@.len(),
                        {
                            let empty: Vec<NodeId> = Vec::new();
                            proof {
                                lemma_bins_push_empty(bins@, empty);
                            }
                            bins.push(empty);
                        }
                        let ghost bins_grown = bins@;
                        bins[dest_bin].push(w);
                        proof {
                            lemma_bins_update(bins_grown, dest_bin as int, bins@[dest_bin as int]);
                            assert(bins@ == bins_grown.update(dest_bin as int, bins@[dest_bin as int]));
                            assert(bins@[dest_bin as int]@.contains(w)) by {
                                assert(bins@[dest_bin as int]@.last() == w);
                            }
                            if bins@.len() > bins_before.len() {
                                assert(bins@.len() == dest_bin + 1);
                            }
                            assert forall|x: NodeId|
                                x < n && dist@[x as int] < K_DIST_INF && !in_own_bin(dist@, bins@, delta, x)
                                    && !in_frontier(dist@, front@, i as int, delta, curr_bin, x) implies relaxed(
                                graph,
                                dist@,
                                x,
                            ) by {
                                assert(x != w);
                                assert(dist@[x as int] == dist_before[x as int]);
                                let b = dist_before[x as int] as int / delta as int;
                                if b < bins_before.len() && bins_before[b]@.contains(x) {
                                    assert(bins_grown[b] == bins_before[b]);
                                    if b == dest_bin {
                                        assert(bins@[b]@ == bins_before[b]@.push(w));
                                        assert(bins@[b]@.contains(x)) by {
                                            let y = choose|y: int| 0 <= y < bins_before[b]@.len() && bins_before[b]@[y] == x;
                                            assert(bins@[b]@[y] == x);
                                        }
                                    } else {
                                        assert(bins@[b] == bins_before[b]);
                                    }
                                }
                                assert(!in_own_bin(dist_before, bins_before, delta, x));
                                assert(!in_frontier(dist_before, front@, i as int, delta, curr_bin, x));
                                assert(relaxed(graph, dist_before, x));
                                assert forall|jj: int| 0 <= jj < graph.spec_out_edges(x).len() implies dist@[
                                    #[trigger] graph.spec_out_edges(x)[jj].node_of() as int] <= dist@[x as int]
                                    + edge_weight(graph.spec_out_edges(x)[jj]) by {
                                    let y = graph.spec_out_edges(x)[jj].node_of();
                                    assert(dist_before[y as int] <= dist_before[x as int] + edge_weight(graph.spec_out_edges(x)[jj]));
                                }
                            }
                            assert forall|b: int, y: int|
                                0 <= b < bins@.len() && 0 <= y < bins@[b]@.len() implies #[trigger] bins@[b]@[y] < n by {
                                if b != dest_bin {
                                    assert(bins@[b] == bins_grown[b]);
                                    if b < bins_before.len() {
                                        assert(bins@[b] == bins_before[b]);
                                    }
                                } else if y < bins_grown[b]@.len() {
                                    assert(bins@[b]@[y] == bins_grown[b]@[y]);
                                    if b < bins_before.len() {
                                        assert(bins_grown[b] == bins_before[b]);
                                    }
                                }
                            }
                        }
                    }
                    j = j + 1;
                }
                proof {
                    assert(relaxed(graph, dist@, u));
                }
            }
            proof {
                let front_s = front@;
                assert forall|x: NodeId|
                    x < n && dist@[x as int] < K_DIST_INF && !in_own_bin(dist@, bins@, delta, x)
                        && !in_frontier(dist@, front@, i + 1, delta, curr_bin, x) implies relaxed(
                    graph,
                    dist@,
                    x,
                ) by {
                    if x != u {
                        if front_s.subrange(i as int, front_s.len() as int).contains(x) {
                            let y = choose|y: int|
                                0 <= y < front_s.len() - i && front_s.subrange(i as int, front_s.len() as int)[y] == x;
                            assert(y != 0);
                            assert(front_s.subrange(i + 1, front_s.len() as int)[y - 1] == x);
                        }
                    } else if dist_i[u as int] < delta * curr_bin {
                        assert(!in_frontier(dist@, front@, i as int, delta, curr_bin, x));
                    }
                }
                lemma_totals_nonneg(dist@, bins@);
            }
            i = i + 1;
        }
        let ghost dist_r = dist@;
        let ghost bins_r = bins@;
        assert(dist_total(dist_r) + bins_total(bins_r) + front@.len() <= phi0);
        assert(front@.len() >= 1);
        proof {
            lemma_totals_nonneg(dist@, bins@);
        }
        proof {
            if bins@.len() > 0 {
                assert(bins@.len() - 1 < K_DIST_INF) by (nonlinear_arith)
                    requires
                        delta * (bins@.len() - 1) < K_DIST_INF,
                        delta > 0,
                        bins@.len() >= 1,
                ;
            }
        }
        let mut next_bin: usize = K_MAX_BIN;
        let mut b: usize = curr_bin;
        while b < bins.len()
            invariant_except_break
                next_bin == K_MAX_BIN,
            invariant
                curr_bin <= b,
                bins@.len() <= K_MAX_BIN,
                bins@ == bins_r,
                forall|k: int| curr_bin <= k < b && k < bins@.len() ==> #[trigger] bins@[k]@.len() == 0,
            ensures
                bins@ == bins_r,
                next_bin == K_MAX_BIN ==> forall|k: int|
                    curr_bin <= k < bins@.len() ==> #[trigger] bins@[k]@.len() == 0,
                next_bin != K_MAX_BIN ==> {
                    &&& curr_bin <= next_bin < bins@.len()
                    &&& bins@[next_bin as int]@.len() != 0
                    &&& forall|k: int| curr_bin <= k < next_bin ==> #[trigger] bins@[k]@.len() == 0
                },
            decreases bins@.len() - b,
        {
            if bins[b].len() != 0 {
                next_bin = b;
                break;
            }
            b = b + 1;
        }
        if next_bin < bins.len() {
            let mut next_front: Vec<NodeId> = Vec::new();
            std::mem::swap(&mut next_front, &mut bins[next_bin]);
            proof {
                lemma_bins_update(bins_r, next_bin as int, bins@[next_bin as int]);
                assert(bins@ == bins_r.update(next_bin as int, bins@[next_bin as int]));
                assert(bins@[next_bin as int]@.len() == 0);
                assert(next_front@ == bins_r[next_bin as int]@);
                lemma_mul_mono(delta as int, next_bin as int, (bins@.len() - 1) as int);
                assert forall|x: NodeId|
                    x < n && dist@[x as int] < K_DIST_INF && !in_own_bin(dist@, bins@, delta, x)
                        && !in_frontier(dist@, next_front@, 0, delta, next_bin, x) implies relaxed(
                    graph,
                    dist@,
                    x,
                ) by {
                    let bx = dist@[x as int] as int / delta as int;
                    if bx < bins_r.len() && bins_r[bx]@.contains(x) {
                        if bx == next_bin {
                            lemma_div_bounds(dist@[x as int] as int, delta as int);
                            assert(next_front@.subrange(0, next_front@.len() as int) =~= next_front@);
                        } else {
                            assert(bins@[bx] == bins_r[bx]);
                        }
                    }
                    assert(!in_own_bin(dist@, bins_r, delta, x));
                    assert(!in_frontier(dist@, front@, front@.len() as int, delta, curr_bin, x));
                }
                assert forall|k: int| 0 <= k < next_bin && k < bins@.len() implies #[trigger] bins@[k]@.len() == 0 by {
                    if k < curr_bin {
                        assert(bins_r[k]@.len() == 0);
                    } else {
                        assert(bins_r[k]@.len() == 0);
                    }
                }
                assert forall|bb: int, y: int|
                    0 <= bb < bins@.len() && 0 <= y < bins@[bb]@.len() implies #[trigger] bins@[bb]@[y] < n by {
                    assert(bins@[bb] == bins_r[bb]);
                }
                assert forall|y: int| 0 <= y < next_front@.len() implies #[trigger] next_front@[y] < n by {
                    assert(next_front@[y] == bins_r[next_bin as int]@[y]);
                }
                lemma_totals_nonneg(dist@, bins@);
            }
            assert(bins_total(bins@) == bins_total(bins_r) - next_front@.len());
            front = next_front;
            curr_bin = next_bin;

        } else {
            proof {
                assert forall|u: NodeId| u < n && dist@[u as int] < K_DIST_INF implies #[trigger] relaxed(
                    graph,
                    dist@,
                    u,
                ) by {
                    let bu = dist@[u as int] as int / delta as int;
                    if bu < bins@.len() {
                        assert(bins@[bu]@.len() == 0);
                    }
                    assert(!in_own_bin(dist@, bins@, delta, u));
                    assert(!in_frontier(dist@, front@, front@.len() as int, delta, curr_bin, u));
                }
            }
            front = Vec::new();
            curr_bin = K_MAX_BIN;

        }
    }
    proof {
        assert forall|v: NodeId|
            v < n && dist@[v as int] < K_DIST_INF implies exists|k: nat|
                walk_within(graph, source, v, dist@[v as int] as int, k) by {
            assert(walk_within(graph, source, v, dist@[v as int] as int, hops[v as int]));
        }
        assert forall|v: NodeId, d: int, k: nat| #[trigger]
            walk_within(graph, source, v, d, k) implies v < n && dist@[v as int] <= d by {
            lemma_optimal(graph, source, dist@, v, d, k);
        }
    }
    dist
}

} // verus!
