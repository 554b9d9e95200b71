//! The pieces of a delta-stepping round that can be handed out: the
//! relaxation proposals of one frontier vertex, measured against the
//! distances at the start of the round, applying a list of proposals, and
//! finding the next bin to work on.

use crate::graph::CSRGraph;
use crate::sssp::{
    dist_total, edge_weight, lemma_dist_update, lemma_optimal, lemma_sum_nonneg, lemma_sum_update,
    lemma_walk_step, relaxed, shortest_distances, sum_of, walk_within, weighted_dense, K_DIST_INF,
};
use crate::types::{AsNode, NodeId, Weight, WeightedEdge};
use vstd::prelude::*;

verus! {

/// The proposals a frontier vertex `u` makes: for each out-edge, its end
/// and `dist[u]` plus its weight; none where `u` lies below the current
/// bin.
pub open spec fn proposals_of<V: AsNode, E: AsNode + WeightedEdge, G: CSRGraph<V, E>>(
    g: &G,
    dist: Seq<Weight>,
    u: NodeId,
    delta: Weight,
    curr_bin: usize,
) -> Seq<(NodeId, Weight)> {
    if dist[u as int] >= delta * curr_bin {
        g.spec_out_edges(u).map_values(
            |e: E| (e.node_of(), (dist[u as int] + edge_weight(e)) as Weight),
        )
    } else {
        Seq::empty()
    }
}

/// Proposals for the out-edges of `u`, against the distances `dist`.
pub fn relax_vertex<V: AsNode, E: AsNode + WeightedEdge, G: CSRGraph<V, E>>(
    graph: &G,
    dist: &Vec<Weight>,
    u: NodeId,
    delta: Weight,
    curr_bin: usize,
) -> (p: Vec<(NodeId, Weight)>)
    requires
        weighted_dense(graph),
        u < graph.spec_num_nodes(),
        dist@.len() == graph.spec_num_nodes(),
        dist@[u as int] <= K_DIST_INF,
        delta * curr_bin <= usize::MAX,
    ensures
        p@ == proposals_of(graph, dist@, u, delta, curr_bin),
        forall|i: int| 0 <= i < p@.len() ==> #[trigger] p@[i].0 < graph.spec_num_nodes(),
{
    let mut p: Vec<(NodeId, Weight)> = Vec::new();
    if dist[u] >= delta * curr_bin {
        let neigh = graph.out_neigh(u);
        let ghost f = |e: E| (e.node_of(), (dist@[u as int] + edge_weight(e)) as Weight);
        let mut j: usize = 0;
        while j < neigh.len()
            invariant
                weighted_dense(graph),
                u < graph.spec_num_nodes(),
                dist@[u as int] <= K_DIST_INF,
                neigh@ == graph.spec_out_edges(u),
                dist@.len() == graph.spec_num_nodes(),
                f == (|e: E| (e.node_of(), (dist@[u as int] + edge_weight(e)) as Weight)),
                j <= neigh@.len(),
                p@ == neigh@.subrange(0, j as int).map_values(f),
                forall|i: int| 0 <= i < p@.len() ==> #[trigger] p@[i].0 < graph.spec_num_nodes(),
            decreases neigh@.len() - j,
        {
            let w = neigh[j].as_node();
            proof {
                let e = graph.spec_out_edges(u)[j as int];
                assert(e.node_of() < graph.spec_num_nodes());
                assert(e.weight_of() is Some && e.weight_of().unwrap() <= K_DIST_INF);
            }
            let e = &neigh[j];
            assert(*e == graph.spec_out_edges(u)[j as int]);
            let wt = e.get_weight();
            let nd = dist[u] + wt;
            p.push((w, nd));
            assert(neigh@.subrange(0, j + 1).map_values(f) =~= neigh@.subrange(0, j as int).map_values(
                f,
            ).push(f(neigh@[j as int])));
            j = j + 1;
        }
        assert(neigh@.subrange(0, j as int) =~= neigh@);
    } else {
        assert(p@ =~= Seq::<(NodeId, Weight)>::empty());
    }
    p
}

/// The bins with room for bin `k`: empty bins appended up to `k`.
pub open spec fn grown(bins: Seq<Seq<NodeId>>, k: int) -> Seq<Seq<NodeId>> {
    if k < bins.len() {
        bins
    } else {
        bins + Seq::new((k + 1 - bins.len()) as nat, |_i: int| Seq::<NodeId>::empty())
    }
}

/// The distances and bins after the proposals `p`, in order: a proposal
/// `(w, d)` that beats `dist[w]` lowers it to `d` and files `w` into bin
/// `d / delta`.
pub open spec fn applied(
    dist: Seq<Weight>,
    bins: Seq<Seq<NodeId>>,
    p: Seq<(NodeId, Weight)>,
    delta: Weight,
) -> (Seq<Weight>, Seq<Seq<NodeId>>)
    decreases p.len(),
{
    if p.len() == 0 {
        (dist, bins)
    } else {
        let (d, b) = applied(dist, bins, p.drop_last(), delta);
        let (w, nd) = p.last();
        if w < d.len() && nd < d[w as int] {
            let k = nd as int / delta as int;
            let g = grown(b, k);
            (d.update(w as int, nd), g.update(k, g[k].push(w)))
        } else {
            (d, b)
        }
    }
}

/// The bins' contents, bin by bin.
pub open spec fn bin_contents(bins: Seq<Vec<NodeId>>) -> Seq<Seq<NodeId>> {
    bins.map_values(|b: Vec<NodeId>| b@)
}

proof fn lemma_applied_len(dist: Seq<Weight>, bins: Seq<Seq<NodeId>>, p: Seq<(NodeId, Weight)>, delta: Weight)
    ensures
        applied(dist, bins, p, delta).0.len() == dist.len(),
    decreases p.len(),
{
    if p.len() > 0 {
        lemma_applied_len(dist, bins, p.drop_last(), delta);
    }
}

/// Applies the proposals `p` in order: each that beats the distance of its
/// vertex lowers it and files the vertex into the bin of its new distance.
pub fn apply_proposals(
    dist: &mut Vec<Weight>,
    bins: &mut Vec<Vec<NodeId>>,
    p: &Vec<(NodeId, Weight)>,
    delta: Weight,
)
    requires
        delta > 0,
    ensures
        ({
            let (d, b) = applied(old(dist)@, bin_contents(old(bins)@), p@, delta);
            &&& final(dist)@ == d
            &&& bin_contents(final(bins)@) == b
        }),
{
    let ghost d0 = dist@;
    let ghost b0 = bin_contents(bins@);
    let mut i: usize = 0;
    while i < p.len()
        invariant
            delta > 0,
            i <= p@.len(),
            (dist@, bin_contents(bins@)) == applied(d0, b0, p@.subrange(0, i as int), delta),
        decreases p@.len() - i,
    {
        let (w, nd) = p[i];
        proof {
            assert(p@.subrange(0, i + 1).drop_last() =~= p@.subrange(0, i as int));
            assert(p@.subrange(0, i + 1).last() == p@[i as int]);
            lemma_applied_len(d0, b0, p@.subrange(0, i as int), delta);
        }
        if w < dist.len() && nd < dist[w] {
            dist.set(w, nd);
            let k = nd / delta;
            let ghost bb = bin_contents(bins@);
            while bins.len() <= k
                invariant
                    bins@.len() > bb.len() ==> bins@.len() <= k + 1,
                    bin_contents(bins@) == bb + Seq::new(
                        (bins@.len() - bb.len()) as nat,
                        |_i: int| Seq::<NodeId>::empty(),
                    ),
                    bins@.len() >= bb.len(),
                decreases k + 1 - bins@.len(),
            {
                let ghost before = bin_contents(bins@);
                let ghost vb = bins@;
                let empty: Vec<NodeId> = Vec::new();
                bins.push(empty);
                assert(bins@ == vb.push(empty));
                assert(bin_contents(bins@) =~= before.push(Seq::<NodeId>::empty()));
                assert(bin_contents(bins@) =~= bb + Seq::new(
                    (bins@.len() - bb.len()) as nat,
                    |_i: int| Seq::<NodeId>::empty(),
                ));
            }
            assert(bin_contents(bins@) =~= grown(bb, k as int)) by {
                assert(bins@.len() > k);
                if k < bb.len() {
                    assert(bins@.len() == bb.len());
                    assert(bin_contents(bins@) =~= bb);
                } else {
                    assert(bins@.len() == k + 1);
                    assert(grown(bb, k as int) == bb + Seq::new((k + 1 - bb.len()) as nat, |_i: int| Seq::<NodeId>::empty()));
                }
            }
            let ghost g = bin_contents(bins@);
            bins[k].push(w);
            assert(bin_contents(bins@) =~= g.update(k as int, g[k as int].push(w)));
        }
        i = i + 1;
    }
    assert(p@.subrange(0, i as int) =~= p@);
}

/// The first bin from `curr` on that holds a vertex.
pub open spec fn first_busy_bin(bins: Seq<Seq<NodeId>>, curr: int) -> Option<usize>
    decreases bins.len() - curr,
{
    if curr < 0 || curr >= bins.len() {
        None
    } else if bins[curr].len() != 0 {
        Some(curr as usize)
    } else {
        first_busy_bin(bins, curr + 1)
    }
}

/// The first bin from `curr` on that holds a vertex, if any.
pub fn next_bin(bins: &Vec<Vec<NodeId>>, curr: usize) -> (r: Option<usize>)
    ensures
        r == first_busy_bin(bin_contents(bins@), curr as int),
{
    let ghost bc = bin_contents(bins@);
    let mut i: usize = curr;
    while i < bins.len()
        invariant
            bc == bin_contents(bins@),
            curr <= i,
            first_busy_bin(bc, curr as int) == first_busy_bin(bc, i as int),
        decreases bins@.len() - i,
    {
        assert(bc[i as int] == bins@[i as int]@);
        if bins[i].len() != 0 {
            return Some(i);
        }
        i = i + 1;
    }
    None
}


/// Every finite distance bounds the weight of some walk from `source`.
pub open spec fn dist_sound<V: AsNode, E: AsNode + WeightedEdge, G: CSRGraph<V, E>>(
    g: &G,
    source: NodeId,
    dist: Seq<Weight>,
) -> bool {
    &&& dist.len() == g.spec_num_nodes()
    &&& forall|v: int| 0 <= v < dist.len() ==> dist[v] <= K_DIST_INF
    &&& forall|v: NodeId|
        v < g.spec_num_nodes() && dist[v as int] < K_DIST_INF ==> exists|k: nat|
            #[trigger] walk_within(g, source, v, dist[v as int] as int, k)
}

/// A proposal names a vertex and, where it is finite, a distance some walk
/// from `source` stays within.
pub open spec fn proposal_sound<V: AsNode, E: AsNode + WeightedEdge, G: CSRGraph<V, E>>(
    g: &G,
    source: NodeId,
    q: (NodeId, Weight),
) -> bool {
    &&& q.0 < g.spec_num_nodes()
    &&& q.1 < K_DIST_INF ==> exists|k: nat| #[trigger] walk_within(g, source, q.0, q.1 as int, k)
}

/// The vertices filed in the bins, counted with repeats.
pub open spec fn bins_count(bins: Seq<Seq<NodeId>>) -> int {
    sum_of(bins.map_values(|b: Seq<NodeId>| b.len() as int))
}

/// `x` sits in the bin its distance falls in.
pub open spec fn filed(dist: Seq<Weight>, bins: Seq<Seq<NodeId>>, delta: Weight, x: NodeId) -> bool {
    let b = dist[x as int] as int / delta as int;
    b < bins.len() && bins[b].contains(x)
}

/// Applying proposals keeps distances sound, lowers each proposal's vertex
/// to at most its distance, files every lowered vertex in its bin, lets
/// the bins only grow (and never below bin `c` where every proposal lies at
/// or above it), and either changes nothing or lowers the distance total.
proof fn lemma_applied<V: AsNode, E: AsNode + WeightedEdge, G: CSRGraph<V, E>>(
    g: &G,
    source: NodeId,
    dist: Seq<Weight>,
    bins: Seq<Seq<NodeId>>,
    p: Seq<(NodeId, Weight)>,
    delta: Weight,
    c: int,
)
    requires
        delta > 0,
        dist_sound(g, source, dist),
        forall|i: int| 0 <= i < p.len() ==> proposal_sound(g, source, #[trigger] p[i]),
        forall|i: int| 0 <= i < p.len() ==> (#[trigger] p[i]).1 as int / delta as int >= c,
        forall|b: int, y: int| 0 <= b < bins.len() && 0 <= y < bins[b].len() ==> #[trigger] bins[b][y] < g.spec_num_nodes(),
    ensures
        ({
            let (d1, b1) = applied(dist, bins, p, delta);
            &&& dist_sound(g, source, d1)
            &&& forall|x: int| 0 <= x < dist.len() ==> #[trigger] d1[x] <= dist[x]
            &&& forall|i: int| 0 <= i < p.len() ==> d1[(#[trigger] p[i]).0 as int] <= p[i].1
            &&& forall|x: NodeId| x < dist.len() && #[trigger] d1[x as int] < dist[x as int] ==> filed(d1, b1, delta, x)
            &&& b1.len() >= bins.len()
            &&& forall|b: int, y: NodeId| 0 <= b < bins.len() && #[trigger] bins[b].contains(y) ==> b1[b].contains(y)
            &&& forall|b: int| 0 <= b < c && b < b1.len() ==> (#[trigger] b1[b]) == if b < bins.len() {
                bins[b]
            } else {
                Seq::<NodeId>::empty()
            }
            &&& forall|b: int, y: int| 0 <= b < b1.len() && 0 <= y < b1[b].len() ==> #[trigger] b1[b][y] < g.spec_num_nodes()
            &&& (d1 == dist && b1 == bins) || dist_total(d1) < dist_total(dist)
            &&& b1.len() == bins.len() || delta * (b1.len() - 1) <= K_DIST_INF
        }),
    decreases p.len(),
{
    if p.len() > 0 {
        let q = p.drop_last();
        assert forall|i: int| 0 <= i < q.len() implies proposal_sound(g, source, #[trigger] q[i]) by {
            assert(q[i] == p[i]);
        }
        assert forall|i: int| 0 <= i < q.len() implies (#[trigger] q[i]).1 as int / delta as int >= c by {
            assert(q[i] == p[i]);
        }
        lemma_applied(g, source, dist, bins, q, delta, c);
        lemma_applied_len(dist, bins, q, delta);
        let (d, b) = applied(dist, bins, q, delta);
        let (w, nd) = p.last();
        assert(p[p.len() - 1] == (w, nd));
        assert(proposal_sound(g, source, p[p.len() - 1]));
        let (d1, b1) = applied(dist, bins, p, delta);
        if w < d.len() && nd < d[w as int] {
            let k = nd as int / delta as int;
            let gb = grown(b, k);
            assert(k >= c);
            assert(d1 == d.update(w as int, nd));
            assert(b1 == gb.update(k, gb[k].push(w)));
            assert(gb.len() >= b.len() && gb.len() > k);
            assert forall|bb: int| 0 <= bb < b.len() implies #[trigger] gb[bb] == b[bb] by {}
            assert forall|bb: int| b.len() <= bb < gb.len() implies #[trigger] gb[bb] == Seq::<NodeId>::empty() by {}
            // soundness
            assert forall|v: NodeId| v < g.spec_num_nodes() && d1[v as int] < K_DIST_INF implies exists|kk: nat|
                #[trigger] walk_within(g, source, v, d1[v as int] as int, kk) by {
                if v != w {
                    assert(d1[v as int] == d[v as int]);
                }
            }
            assert forall|i: int| 0 <= i < p.len() implies d1[(#[trigger] p[i]).0 as int] <= p[i].1 by {
                if i < q.len() {
                    assert(q[i] == p[i]);
                    assert(d[q[i].0 as int] <= q[i].1);
                }
            }
            assert forall|x: NodeId| x < dist.len() && #[trigger] d1[x as int] < dist[x as int] implies filed(d1, b1, delta, x) by {
                if x == w {
                    assert(b1[k] == gb[k].push(w));
                    assert(b1[k][gb[k].len() as int] == w);
                } else {
                    assert(d1[x as int] == d[x as int]);
                    assert(filed(d, b, delta, x));
                    let bb = d[x as int] as int / delta as int;
                    let y = choose|y: int| 0 <= y < b[bb].len() && b[bb][y] == x;
                    if bb == k {
                        assert(b1[bb][y] == x);
                    } else {
                        assert(b1[bb] == gb[bb]);
                        assert(b1[bb][y] == x);
                    }
                }
            }
            assert forall|bb: int, y: NodeId| 0 <= bb < bins.len() && #[trigger] bins[bb].contains(y) implies b1[bb].contains(y) by {
                assert(b[bb].contains(y));
                let t = choose|t: int| 0 <= t < b[bb].len() && b[bb][t] == y;
                assert(b1[bb][t] == y);
            }
            assert forall|bb: int| 0 <= bb < c && bb < b1.len() implies (#[trigger] b1[bb]) == if bb < bins.len() {
                bins[bb]
            } else {
                Seq::<NodeId>::empty()
            } by {
                assert(b1[bb] == gb[bb]);
                if bb < b.len() {
                    assert(b[bb] == if bb < bins.len() { bins[bb] } else { Seq::<NodeId>::empty() });
                }
            }
            assert forall|bb: int, y: int| 0 <= bb < b1.len() && 0 <= y < b1[bb].len() implies #[trigger] b1[bb][y]
                < g.spec_num_nodes() by {
                if bb != k {
                    assert(b1[bb] == gb[bb]);
                    if bb < b.len() {
                        assert(b[bb][y] < g.spec_num_nodes());
                    }
                } else if y < gb[k].len() {
                    if k < b.len() {
                        assert(b1[bb][y] == b[k][y]);
                    }
                }
            }
            lemma_dist_update(d, w as int, nd);
            if b1.len() != bins.len() && b1.len() != b.len() {
                assert(b1.len() == k + 1);
                assert(nd < K_DIST_INF);
                assert(delta * k <= nd) by (nonlinear_arith)
                    requires
                        k == nd as int / delta as int,
                        delta > 0,
                        nd >= 0;
            }
        } else {
            assert(d1 == d && b1 == b);
            assert forall|i: int| 0 <= i < p.len() implies d1[(#[trigger] p[i]).0 as int] <= p[i].1 by {
                if i < q.len() {
                    assert(q[i] == p[i]);
                    assert(d[q[i].0 as int] <= q[i].1);
                } else {
                    assert(p[i] == (w, nd));
                    assert(w < g.spec_num_nodes());
                }
            }
        }
    }
}

/// Distances from `source` by delta-stepping in rounds: each round takes
/// the proposals of every frontier vertex against the distances at the
/// round's start, applies them, and moves to the first bin, from the
/// current one on, that holds a vertex. This is the order of work of the
/// threaded variant, with the proposals gathered one vertex after another.
pub fn delta_step_rounds<V: AsNode, E: AsNode + WeightedEdge, G: CSRGraph<V, E>>(
    graph: &G,
    source: NodeId,
    delta: Weight,
) -> (dist: Vec<Weight>)
    requires
        weighted_dense(graph),
        source < graph.spec_num_nodes(),
        delta > 0,
    ensures
        shortest_distances(graph, source, dist@),
{
    let n = graph.num_nodes();
    let mut dist: Vec<Weight> = Vec::new();
    let mut x: usize = 0;
    while x < n
        invariant
            x <= n,
            dist@ == Seq::new(x as nat, |_i: int| K_DIST_INF),
        decreases n - x,
    {
        dist.push(K_DIST_INF);
        x = x + 1;
    }
    dist.set(source, 0);
    let mut bins: Vec<Vec<NodeId>> = Vec::new();
    let mut frontier: Vec<NodeId> = Vec::new();
    frontier.push(source);
    let mut curr_bin: usize = 0;
    proof {
        assert(walk_within(graph, source, source, 0, 0));
        assert forall|v: NodeId| v < n && dist@[v as int] < K_DIST_INF implies exists|k: nat|
            #[trigger] walk_within(graph, source, v, dist@[v as int] as int, k) by {
            if v != source {
                assert(dist@[v as int] == K_DIST_INF);
            }
            assert(walk_within(graph, source, source, dist@[source as int] as int, 0));
        }
    }
    assert(frontier@[0] == source);
    loop
        invariant_except_break
            bins@.len() == 0 || delta * (bins@.len() - 1) <= K_DIST_INF,
            dist_sound(graph, source, dist@),
            dist@[source as int] == 0,
            forall|y: int| 0 <= y < frontier@.len() ==> #[trigger] frontier@[y] < n,
            forall|b: int, y: int|
                0 <= b < bin_contents(bins@).len() && 0 <= y < bin_contents(bins@)[b].len() ==> #[trigger] bin_contents(
                    bins@,
                )[b][y] < n,
            forall|b: int| 0 <= b < curr_bin && b < bins@.len() ==> #[trigger] bins@[b]@.len() == 0,
            delta * curr_bin <= usize::MAX,
            forall|u: NodeId|
                #![trigger relaxed(graph, dist@, u)]
                u < n && dist@[u as int] < K_DIST_INF && !filed(dist@, bin_contents(bins@), delta, u) && !(
                frontier@.contains(u) && dist@[u as int] >= delta * curr_bin) ==> relaxed(graph, dist@, u),
        invariant
            weighted_dense(graph),
            n == graph.spec_num_nodes(),
            source < n,
            delta > 0,
        ensures
            shortest_distances(graph, source, dist@),
        decreases dist_total(dist@), bins_count(bin_contents(bins@)),
    {
        let snapshot = dist.clone();
        let ghost snap = snapshot@;
        let mut proposals: Vec<(NodeId, Weight)> = Vec::new();
        let mut i: usize = 0;
        while i < frontier.len()
            invariant
                weighted_dense(graph),
                n == graph.spec_num_nodes(),
                delta > 0,
                snap == snapshot@,
                dist_sound(graph, source, snap),
                delta * curr_bin <= usize::MAX,
                forall|y: int| 0 <= y < frontier@.len() ==> #[trigger] frontier@[y] < n,
                i <= frontier@.len(),
                forall|t: int| 0 <= t < proposals@.len() ==> proposal_sound(graph, source, #[trigger] proposals@[t]),
                forall|t: int| 0 <= t < proposals@.len() ==> (#[trigger] proposals@[t]).1 as int / delta as int >= curr_bin,
                forall|y: int, j: int|
                    #![trigger frontier@[y], graph.spec_out_edges(frontier@[y])[j]]
                    0 <= y < i && 0 <= j < graph.spec_out_edges(frontier@[y]).len() && snap[frontier@[y] as int] >= delta * curr_bin
                        ==> proposals@.contains((graph.spec_out_edges(frontier@[y])[j].node_of(), (snap[frontier@[y] as int] + edge_weight(graph.spec_out_edges(frontier@[y])[j])) as Weight)),
            decreases frontier@.len() - i,
        {
            let u = frontier[i];
            let p = relax_vertex(graph, &snapshot, u, delta, curr_bin);
            let ghost before = proposals@;
            let mut k: usize = 0;
            while k < p.len()
                invariant
                    k <= p@.len(),
                    proposals@ == before + p@.subrange(0, k as int),
                decreases p@.len() - k,
            {
                proposals.push(p[k]);
                assert(before + p@.subrange(0, k + 1) =~= (before + p@.subrange(0, k as int)).push(p@[k as int]));
                k = k + 1;
            }
            proof {
                assert(p@.subrange(0, k as int) =~= p@);
                let pu = proposals_of(graph, snap, u, delta, curr_bin);
                assert forall|t: int| 0 <= t < proposals@.len() implies proposal_sound(graph, source, #[trigger] proposals@[t])
                    && proposals@[t].1 as int / delta as int >= curr_bin by {
                    if t >= before.len() {
                        let jj = t - before.len();
                        assert(proposals@[t] == p@[jj]);
                        assert(snap[u as int] >= delta * curr_bin);
                        let e = graph.spec_out_edges(u)[jj];
                        assert(p@[jj] == (e.node_of(), (snap[u as int] + edge_weight(e)) as Weight));
                        assert(e.node_of() < n);
                        assert(u < n);
                        assert(snap[u as int] <= K_DIST_INF);
                        assert(e.weight_of().unwrap() <= K_DIST_INF);
                        if ((snap[u as int] + edge_weight(e)) as Weight) < K_DIST_INF {
                            assert(snap[u as int] < K_DIST_INF);
                            let kk = choose|kk: nat| #[trigger] walk_within(graph, source, u, snap[u as int] as int, kk);
                            lemma_walk_step(graph, source, u, jj, snap[u as int] as int, kk);
                        }
                        vstd::arithmetic::div_mod::lemma_div_is_ordered(
                            delta * curr_bin,
                            (snap[u as int] + edge_weight(e)) as int,
                            delta as int,
                        );
                        vstd::arithmetic::div_mod::lemma_div_multiples_vanish(curr_bin as int, delta as int);
                    } else {
                        assert(proposals@[t] == before[t]);
                    }
                }
                assert forall|y: int, j: int|
                    #![trigger frontier@[y], graph.spec_out_edges(frontier@[y])[j]]
                    0 <= y < i + 1 && 0 <= j < graph.spec_out_edges(frontier@[y]).len() && snap[frontier@[y] as int] >= delta * curr_bin
                        implies proposals@.contains((graph.spec_out_edges(frontier@[y])[j].node_of(), (snap[frontier@[y] as int] + edge_weight(graph.spec_out_edges(frontier@[y])[j])) as Weight)) by {
                    if y < i {
                        let t = choose|t: int| 0 <= t < before.len() && before[t] == (graph.spec_out_edges(frontier@[y])[j].node_of(), (snap[frontier@[y] as int] + edge_weight(graph.spec_out_edges(frontier@[y])[j])) as Weight);
                        assert(proposals@[t] == before[t]);
                    } else {
                        assert(frontier@[y] == u);
                        assert(proposals@[before.len() + j] == p@[j]);
                    }
                }
            }
            i = i + 1;
        }
        let ghost d0 = dist@;
        let ghost b0 = bin_contents(bins@);
        proof {
            assert forall|b: int, y: int| 0 <= b < b0.len() && 0 <= y < b0[b].len() implies #[trigger] b0[b][y] < n by {}
            lemma_applied(graph, source, d0, b0, proposals@, delta, curr_bin as int);
        }
        apply_proposals(&mut dist, &mut bins, &proposals, delta);
        let ghost d1 = dist@;
        let ghost b1 = bin_contents(bins@);
        proof {
            // every vertex is now relaxed or filed
            assert forall|u: NodeId| u < n && d1[u as int] < K_DIST_INF && !filed(d1, b1, delta, u) implies relaxed(graph, d1, u) by {
                if d1[u as int] < d0[u as int] {
                } else {
                    assert(d1[u as int] == d0[u as int]);
                    if filed(d0, b0, delta, u) {
                        let bb = d0[u as int] as int / delta as int;
                        let y = choose|y: int| 0 <= y < b0[bb].len() && b0[bb][y] == u;
                        assert(b0[bb].contains(u));
                        assert(b1[bb].contains(u));
                    } else if frontier@.contains(u) && d0[u as int] >= delta * curr_bin {
                        let y = choose|y: int| 0 <= y < frontier@.len() && frontier@[y] == u;
                        assert forall|j: int| 0 <= j < graph.spec_out_edges(u).len() implies d1[#[trigger] graph.spec_out_edges(u)[j].node_of() as int]
                            <= d1[u as int] + edge_weight(graph.spec_out_edges(u)[j]) by {
                            let e = graph.spec_out_edges(u)[j];
                            assert(graph.spec_out_edges(frontier@[y])[j] == e);
                            let q = (e.node_of(), (snap[u as int] + edge_weight(e)) as Weight);
                            assert(proposals@.contains(q));
                            let t = choose|t: int| 0 <= t < proposals@.len() && proposals@[t] == q;
                            assert(d1[proposals@[t].0 as int] <= proposals@[t].1);
                        }
                    } else {
                        assert(relaxed(graph, d0, u));
                        assert forall|j: int| 0 <= j < graph.spec_out_edges(u).len() implies d1[#[trigger] graph.spec_out_edges(u)[j].node_of() as int]
                            <= d1[u as int] + edge_weight(graph.spec_out_edges(u)[j]) by {
                            let w = graph.spec_out_edges(u)[j].node_of();
                            assert(w < n);
                            assert(d1[w as int] <= d0[w as int]);
                        }
                    }
                }
            }
            assert(d1[source as int] == 0) by {
                assert(d1[source as int] <= d0[source as int]);
            }
        }
        match next_bin(&bins, curr_bin) {
            Some(next) => {
                let ghost bc = bin_contents(bins@);
                proof {
                    assert(bins.len() == bins@.len());
                    assert(bc.len() == bins@.len());
                    assert(bc[next as int].len() != 0) by {
                        lemma_first_busy(bc, curr_bin as int);
                    }
                    lemma_first_busy(bc, curr_bin as int);
                }
                let mut taken: Vec<NodeId> = Vec::new();
                std::mem::swap(&mut taken, &mut bins[next]);
                frontier = taken;
                proof {
                    let bc2 = bin_contents(bins@);
                    assert(bc2 =~= bc.update(next as int, Seq::<NodeId>::empty()));
                    let f = |b: Seq<NodeId>| b.len() as int;
                    lemma_sum_update(bc.map_values(f), next as int, 0);
                    assert(bc2.map_values(f) =~= bc.map_values(f).update(next as int, 0));
                    assert(frontier@ == bc[next as int]);
                    // the potential
                    if d1 == d0 {
                        assert(bins_count(bc) <= bins_count(b0));
                    }
                    assert forall|u: NodeId|
                        #![trigger relaxed(graph, dist@, u)]
                        u < n && dist@[u as int] < K_DIST_INF && !filed(dist@, bc2, delta, u) && !(frontier@.contains(u)
                            && dist@[u as int] >= delta * next) implies relaxed(graph, dist@, u) by {
                        if filed(d1, bc, delta, u) {
                            let bb = d1[u as int] as int / delta as int;
                            if bb == next {
                                assert(frontier@.contains(u));
                                vstd::arithmetic::div_mod::lemma_fundamental_div_mod(d1[u as int] as int, delta as int);
                                assert(d1[u as int] >= delta * next) by (nonlinear_arith)
                                    requires
                                        bb == d1[u as int] as int / delta as int,
                                        bb == next,
                                        delta > 0,
                                        d1[u as int] as int == delta * bb + d1[u as int] as int % delta as int,
                                        d1[u as int] as int % delta as int >= 0;
                            } else {
                                assert(bc2[bb] == bc[bb]);
                            }
                        }
                    }
                    assert forall|b: int| 0 <= b < next && b < bins@.len() implies #[trigger] bins@[b]@.len() == 0 by {
                        assert(bc2[b] == bins@[b]@);
                        if b >= curr_bin {
                            lemma_first_busy_before(bc, curr_bin as int, b);
                        } else {
                            if b < b0.len() {
                                assert(b0[b] == bins@[b]@) by {
                                    assert(b1[b] == b0[b]);
                                }
                            }
                        }
                    }
                    assert forall|b: int, y: int|
                        0 <= b < bc2.len() && 0 <= y < bc2[b].len() implies #[trigger] bc2[b][y] < n by {
                        assert(bc2[b] == bc[b] || bc2[b].len() == 0);
                    }
                    assert forall|y: int| 0 <= y < frontier@.len() implies #[trigger] frontier@[y] < n by {
                        assert(bc[next as int][y] < n);
                    }
                    assert(next < bc.len());
                    assert(b1.len() == b0.len() || delta * (b1.len() - 1) <= K_DIST_INF);
                    assert(delta * next <= delta * (bc.len() - 1)) by (nonlinear_arith)
                        requires
                            next < bc.len(),
                            delta > 0;
                    assert(bins@.len() == bc.len());
                    assert(bins_count(bc2) == bins_count(bc) - bc[next as int].len());
                    lemma_sum_nonneg(bc2.map_values(f));
                    lemma_sum_nonneg(d1.map_values(|y: usize| y as int));
                    if d1 == d0 && b1 == b0 {
                        assert(bins_count(bc2) < bins_count(b0));
                    } else {
                        assert(dist_total(d1) < dist_total(d0));
                    }
                    assert(bin_contents(bins@) == bc2);
                }
                curr_bin = next;
            },
            None => {
                proof {
                    assert forall|u: NodeId| u < n && d1[u as int] < K_DIST_INF implies #[trigger] relaxed(graph, d1, u) by {
                        if filed(d1, b1, delta, u) {
                            let bb = d1[u as int] as int / delta as int;
                            assert(b1[bb].len() > 0);
                            if bb >= curr_bin {
                                lemma_first_busy_none(b1, curr_bin as int, bb);
                            } else {
                                assert(b1[bb] == bins@[bb]@);
                            }
                        }
                    }
                    assert forall|v: NodeId, d: int, k: nat| #[trigger] walk_within(graph, source, v, d, k) implies v < n
                        && d1[v as int] <= d by {
                        lemma_optimal(graph, source, d1, v, d, k);
                    }
                }
                break;
            },
        }
    }
    dist
}

proof fn lemma_first_busy(bins: Seq<Seq<NodeId>>, curr: int)
    requires
        first_busy_bin(bins, curr) is Some,
        bins.len() <= usize::MAX,
    ensures
        ({
            let r = first_busy_bin(bins, curr)->0 as int;
            &&& curr <= r < bins.len()
            &&& bins[r].len() != 0
            &&& forall|b: int| curr <= b < r ==> #[trigger] bins[b].len() == 0
        }),
    decreases bins.len() - curr,
{
    if !(curr < 0 || curr >= bins.len()) && bins[curr].len() == 0 {
        lemma_first_busy(bins, curr + 1);
    }
}

proof fn lemma_first_busy_before(bins: Seq<Seq<NodeId>>, curr: int, b: int)
    requires
        first_busy_bin(bins, curr) is Some,
        bins.len() <= usize::MAX,
        curr <= b < first_busy_bin(bins, curr)->0 as int,
    ensures
        bins[b].len() == 0,
{
    lemma_first_busy(bins, curr);
}

proof fn lemma_first_busy_none(bins: Seq<Seq<NodeId>>, curr: int, b: int)
    requires
        curr >= 0,
        first_busy_bin(bins, curr) is None,
        curr <= b < bins.len(),
    ensures
        bins[b].len() == 0,
    decreases bins.len() - curr,
{
    if bins[curr].len() == 0 && curr < b {
        lemma_first_busy_none(bins, curr + 1, b);
    }
}

} // verus!
