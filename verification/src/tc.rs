//! Triangle counting (TC), order invariant.
//!
//! The input graph must be undirected, without duplicate edges, and with
//! every neighbourhood sorted by vertex id (what building and squishing a
//! graph produce). Each triangle `u > v > w` is counted once: for every
//! neighbour `v <= u` of `u` and every neighbour `w <= v` of `v`, the
//! triangle is counted when `w` is also a neighbour of `u`. The scans stop
//! at the first neighbour that is too large, which sortedness permits.

use crate::graph::{dense, ids, CSRGraph};
use crate::sortedmap::strictly_sorted;
use crate::types::{AsNode, NodeId};
use vstd::prelude::*;

verus! {

/// Number of `k < j` with `nv[k] <= v` and `nv[k]` a member of `nu`.
pub open spec fn closing_count(nu: Seq<NodeId>, nv: Seq<NodeId>, v: NodeId, j: int) -> nat
    decreases j,
{
    if j <= 0 {
        0
    } else {
        closing_count(nu, nv, v, j - 1) + if nv[j - 1] <= v && nu.contains(nv[j - 1]) {
            1nat
        } else {
            0nat
        }
    }
}

/// Triangles counted at `u` from its first `i` neighbours.
pub open spec fn vertex_count<V: AsNode, E: AsNode, G: CSRGraph<V, E>>(g: &G, u: NodeId, i: int) -> nat
    decreases i,
{
    if i <= 0 {
        0
    } else {
        let v = g.spec_out(u)[i - 1];
        vertex_count(g, u, i - 1) + if v <= u {
            closing_count(g.spec_out(u), g.spec_out(v), v, g.spec_out(v).len() as int)
        } else {
            0nat
        }
    }
}

/// Triangles counted at the vertices `0 .. m`.
pub open spec fn triangle_count<V: AsNode, E: AsNode, G: CSRGraph<V, E>>(g: &G, m: int) -> nat
    decreases m,
{
    if m <= 0 {
        0
    } else {
        triangle_count(g, m - 1) + vertex_count(g, (m - 1) as NodeId, g.spec_out((m - 1) as NodeId).len() as int)
    }
}

/// The neighbourhoods are sorted by id, without repetitions.
pub open spec fn sorted_neighbourhoods<V: AsNode, E: AsNode, G: CSRGraph<V, E>>(g: &G) -> bool {
    forall|v: NodeId| v < g.spec_num_nodes() ==> #[trigger] strictly_sorted(g.spec_out(v))
}

proof fn lemma_closing_mono(nu: Seq<NodeId>, nv: Seq<NodeId>, v: NodeId, i: int, j: int)
    requires
        i <= j,
    ensures
        closing_count(nu, nv, v, i) <= closing_count(nu, nv, v, j),
    decreases j - i,
{
    if i < j {
        lemma_closing_mono(nu, nv, v, i, j - 1);
    }
}

proof fn lemma_vertex_mono<V: AsNode, E: AsNode, G: CSRGraph<V, E>>(g: &G, u: NodeId, i: int, j: int)
    requires
        i <= j,
    ensures
        vertex_count(g, u, i) <= vertex_count(g, u, j),
    decreases j - i,
{
    if i < j {
        lemma_vertex_mono(g, u, i, j - 1);
    }
}

proof fn lemma_triangle_mono<V: AsNode, E: AsNode, G: CSRGraph<V, E>>(g: &G, i: int, j: int)
    requires
        i <= j,
    ensures
        triangle_count(g, i) <= triangle_count(g, j),
    decreases j - i,
{
    if i < j {
        lemma_triangle_mono(g, i, j - 1);
    }
}

/// In a strictly sorted sequence, the first element that is at least `w`
/// equals `w` exactly when `w` occurs.
proof fn lemma_first_at_least(s: Seq<NodeId>, w: NodeId, idx: int)
    requires
        strictly_sorted(s),
        0 <= idx < s.len(),
        forall|k: int| 0 <= k < idx ==> s[k] < w,
        s[idx] >= w,
    ensures
        (s[idx] == w) == s.contains(w),
{
    if s.contains(w) {
        let p = choose|p: int| 0 <= p < s.len() && s[p] == w;
        if p > idx {
            assert(s[idx] < s[p]);
        }
    }
}

/// The triangles counted at vertex `u`.
pub fn ordered_count_vertex<V: AsNode, E: AsNode, G: CSRGraph<V, E>>(graph: &G, u: NodeId) -> (count: usize)
    requires
        dense(graph),
        sorted_neighbourhoods(graph),
        u < graph.spec_num_nodes(),
        vertex_count(graph, u, graph.spec_out(u).len() as int) <= usize::MAX,
    ensures
        count == vertex_count(graph, u, graph.spec_out(u).len() as int),
{
    let nu = graph.out_neigh(u);
    let ghost su = graph.spec_out(u);
    let ghost total = vertex_count(graph, u, su.len() as int);
    assert(strictly_sorted(su));
    let mut count: usize = 0;
    let mut i: usize = 0;
    while i < nu.len()
        invariant
            dense(graph),
            sorted_neighbourhoods(graph),
            u < graph.spec_num_nodes(),
            su == graph.spec_out(u),
            ids(nu@) == su,
            strictly_sorted(su),
            i <= nu@.len(),
            forall|k: int| 0 <= k < i ==> su[k] <= u,
            count == vertex_count(graph, u, i as int),
            total == vertex_count(graph, u, su.len() as int),
            total <= usize::MAX,
        decreases nu@.len() - i,
    {
        let v = nu[i].as_node();
        assert(v == su[i as int]);
        if v > u {
            proof {
                assert forall|j: int| i <= j <= su.len() implies vertex_count(graph, u, j)
                    == vertex_count(graph, u, i as int) by {
                    lemma_vertex_rest(graph, u, i as int, j);
                }
            }
            return count;
        }
        let it = graph.out_neigh(u);
        let nv = graph.out_neigh(v);
        let ghost sv = graph.spec_out(v);
        assert(strictly_sorted(sv));
        let mut c: usize = 0;
        let mut j: usize = 0;
        proof {
            lemma_vertex_mono(graph, u, i + 1, su.len() as int);
            lemma_closing_mono(su, sv, v, 0, sv.len() as int);
        }
        while j < nv.len()
            invariant
                dense(graph),
                sorted_neighbourhoods(graph),
                ids(it@) == su,
                ids(nv@) == sv,
                strictly_sorted(su),
                strictly_sorted(sv),
                j <= nv@.len(),
                0 <= i < su.len(),
                su[i as int] == v,
                v <= u,
                forall|k: int| 0 <= k < j ==> sv[k] <= v,
                c == closing_count(su, sv, v, j as int),
                closing_count(su, sv, v, sv.len() as int) <= usize::MAX,
            ensures
                c == closing_count(su, sv, v, sv.len() as int),
            decreases nv@.len() - j,
        {
            let w = nv[j].as_node();
            assert(w == sv[j as int]);
            if w > v {
                proof {
                    assert forall|l: int| j <= l <= sv.len() implies closing_count(su, sv, v, l)
                        == closing_count(su, sv, v, j as int) by {
                        lemma_closing_rest(su, sv, v, j as int, l);
                    }
                }
                break;
            }
            let mut idx: usize = 0;
            while it[idx].as_node() < w
                invariant
                    ids(it@) == su,
                    strictly_sorted(su),
                    0 <= i < su.len(),
                    su[i as int] == v,
                    w <= v,
                    idx <= i,
                    forall|k: int| 0 <= k < idx ==> su[k] < w,
                decreases i - idx,
            {
                assert(su[idx as int] < w);
                if idx == i {
                    assert(false);
                }
                idx = idx + 1;
            }
            proof {
                lemma_first_at_least(su, w, idx as int);
                lemma_closing_mono(su, sv, v, j + 1, sv.len() as int);
            }
            if w == it[idx].as_node() {
                c = c + 1;
            }
            j = j + 1;
        }
        count = count + c;
        i = i + 1;
    }
    count
}

proof fn lemma_vertex_rest<V: AsNode, E: AsNode, G: CSRGraph<V, E>>(g: &G, u: NodeId, i: int, j: int)
    requires
        0 <= i <= j <= g.spec_out(u).len(),
        i < g.spec_out(u).len() ==> g.spec_out(u)[i] > u,
        strictly_sorted(g.spec_out(u)),
    ensures
        vertex_count(g, u, j) == vertex_count(g, u, i),
    decreases j - i,
{
    if i < j {
        lemma_vertex_rest(g, u, i, j - 1);
        if j - 1 > i {
            assert(g.spec_out(u)[i] < g.spec_out(u)[j - 1]);
        }
    }
}

proof fn lemma_closing_rest(nu: Seq<NodeId>, nv: Seq<NodeId>, v: NodeId, i: int, j: int)
    requires
        0 <= i <= j <= nv.len(),
        i < nv.len() ==> nv[i] > v,
        strictly_sorted(nv),
    ensures
        closing_count(nu, nv, v, j) == closing_count(nu, nv, v, i),
    decreases j - i,
{
    if i < j {
        lemma_closing_rest(nu, nv, v, i, j - 1);
        if j - 1 > i {
            assert(nv[i] < nv[j - 1]);
        }
    }
}

/// Counts the triangles of the graph, each once.
pub fn ordered_count<V: AsNode, E: AsNode, G: CSRGraph<V, E>>(graph: &G) -> (total: usize)
    requires
        dense(graph),
        sorted_neighbourhoods(graph),
        triangle_count(graph, graph.spec_num_nodes() as int) <= usize::MAX,
    ensures
        total == triangle_count(graph, graph.spec_num_nodes() as int),
        total == ordered_triangles(graph, graph.spec_num_nodes() as int).len(),
{
    let n = graph.num_nodes();
    proof {
        lemma_triangle_count_counts(graph, n as int);
    }
    let mut total: usize = 0;
    let mut u: usize = 0;
    while u < n
        invariant
            dense(graph),
            sorted_neighbourhoods(graph),
            n == graph.spec_num_nodes(),
            u <= n,
            total == triangle_count(graph, u as int),
            triangle_count(graph, n as int) <= usize::MAX,
        decreases n - u,
    {
        proof {
            lemma_triangle_mono(graph, u + 1, n as int);
        }
        let c = ordered_count_vertex(graph, u);
        total = total + c;
        u = u + 1;
    }
    total
}

/// Counts triangles (relabelling by degree is never judged worth it, so
/// the vertices keep their ids). The count is computed and dropped.
pub fn hybrid<V: AsNode, E: AsNode, G: CSRGraph<V, E>>(graph: &G)
    requires
        dense(graph),
        sorted_neighbourhoods(graph),
        triangle_count(graph, graph.spec_num_nodes() as int) <= usize::MAX,
{
    if worth_relabelling(graph) {
    } else {
        let _res = ordered_count(graph);
    }
}

/// Whether relabelling the vertices by degree would pay off; it is
/// never judged to.
pub fn worth_relabelling<V: AsNode, E: AsNode, G: CSRGraph<V, E>>(graph: &G) -> (b: bool)
    ensures
        !b,
{
    false
}


/// The triples `(u, v, w)` with `u < m`, `v` a neighbour of `u` with
/// `v <= u`, `w` a neighbour of `v` with `w <= v`, and `w` also a
/// neighbour of `u`: the triangles as the count orders them.
pub open spec fn ordered_triangles<V: AsNode, E: AsNode, G: CSRGraph<V, E>>(g: &G, m: int) -> Set<
    (NodeId, NodeId, NodeId),
> {
    Set::new(
        |t: (NodeId, NodeId, NodeId)|
            {
                &&& t.0 < m
                &&& g.spec_out(t.0).contains(t.1)
                &&& t.1 <= t.0
                &&& g.spec_out(t.1).contains(t.2)
                &&& t.2 <= t.1
                &&& g.spec_out(t.0).contains(t.2)
            },
    )
}

/// The triangles `u > v > w` among the vertices below `m`, each edge
/// read from the larger end's neighbourhood.
pub open spec fn strict_triangles<V: AsNode, E: AsNode, G: CSRGraph<V, E>>(g: &G, m: int) -> Set<
    (NodeId, NodeId, NodeId),
> {
    Set::new(
        |t: (NodeId, NodeId, NodeId)|
            {
                &&& t.0 < m
                &&& g.spec_out(t.0).contains(t.1)
                &&& t.1 < t.0
                &&& g.spec_out(t.1).contains(t.2)
                &&& t.2 < t.1
                &&& g.spec_out(t.0).contains(t.2)
            },
    )
}

/// The neighbours `w <= v` of `v` among the first `j` of `nv` that are
/// also in `nu`.
spec fn closing_set(nu: Seq<NodeId>, nv: Seq<NodeId>, v: NodeId, j: int) -> Set<NodeId> {
    Set::new(|w: NodeId| exists|k: int| 0 <= k < j && nv[k] == w && w <= v && nu.contains(w))
}

proof fn lemma_closing_set(nu: Seq<NodeId>, nv: Seq<NodeId>, v: NodeId, j: int)
    requires
        strictly_sorted(nv),
        0 <= j <= nv.len(),
    ensures
        closing_set(nu, nv, v, j).finite(),
        closing_set(nu, nv, v, j).len() == closing_count(nu, nv, v, j),
    decreases j,
{
    if j == 0 {
        assert(closing_set(nu, nv, v, 0) =~= Set::empty());
    } else {
        lemma_closing_set(nu, nv, v, j - 1);
        let x = nv[j - 1];
        let prev = closing_set(nu, nv, v, j - 1);
        let cur = closing_set(nu, nv, v, j);
        assert(!prev.contains(x)) by {
            if prev.contains(x) {
                let k = choose|k: int| 0 <= k < j - 1 && nv[k] == x && x <= v && nu.contains(x);
                assert(nv[k] < nv[j - 1]);
            }
        }
        assert forall|w: NodeId| cur.contains(w) implies (prev.contains(w) || (w == x && x <= v
            && nu.contains(x))) by {
            let k = choose|k: int| 0 <= k < j && nv[k] == w && w <= v && nu.contains(w);
            if k < j - 1 {
                assert(prev.contains(w));
            }
        }
        assert forall|w: NodeId| prev.contains(w) implies cur.contains(w) by {
            let k = choose|k: int| 0 <= k < j - 1 && nv[k] == w && w <= v && nu.contains(w);
            assert(0 <= k < j);
        }
        if x <= v && nu.contains(x) {
            assert(cur.contains(x)) by {
                assert(0 <= j - 1 < j && nv[j - 1] == x);
            }
            assert(cur =~= prev.insert(x));
        } else {
            assert(cur =~= prev);
        }
    }
}

/// The pairs `(v, w)` counted at `u` from its first `i` neighbours.
spec fn pair_set<V: AsNode, E: AsNode, G: CSRGraph<V, E>>(g: &G, u: NodeId, i: int) -> Set<
    (NodeId, NodeId),
> {
    Set::new(
        |p: (NodeId, NodeId)|
            exists|k: int|
                0 <= k < i && g.spec_out(u)[k] == p.0 && p.0 <= u && closing_set(
                    g.spec_out(u),
                    g.spec_out(p.0),
                    p.0,
                    g.spec_out(p.0).len() as int,
                ).contains(p.1),
    )
}

proof fn lemma_pair_set<V: AsNode, E: AsNode, G: CSRGraph<V, E>>(g: &G, u: NodeId, i: int)
    requires
        dense(g),
        sorted_neighbourhoods(g),
        u < g.spec_num_nodes(),
        0 <= i <= g.spec_out(u).len(),
    ensures
        pair_set(g, u, i).finite(),
        pair_set(g, u, i).len() == vertex_count(g, u, i),
    decreases i,
{
    let nu = g.spec_out(u);
    if i == 0 {
        assert(pair_set(g, u, 0) =~= Set::empty());
    } else {
        lemma_pair_set(g, u, i - 1);
        let v = nu[i - 1];
        let nv = g.spec_out(v);
        let prev = pair_set(g, u, i - 1);
        let cur = pair_set(g, u, i);
        assert(v < g.spec_num_nodes());
        assert(strictly_sorted(nu) && strictly_sorted(nv));
        let cs = closing_set(nu, nv, v, nv.len() as int);
        lemma_closing_set(nu, nv, v, nv.len() as int);
        let f = |w: NodeId| (v, w);
        let added = cs.map(f);
        assert(vstd::relations::injective_on(f, cs));
        vstd::set_lib::lemma_map_size(cs, added, f);
        assert forall|p: (NodeId, NodeId)| #[trigger] prev.contains(p) implies p.0 != v by {
            let k = choose|k: int|
                0 <= k < i - 1 && nu[k] == p.0 && p.0 <= u && closing_set(
                    nu,
                    g.spec_out(p.0),
                    p.0,
                    g.spec_out(p.0).len() as int,
                ).contains(p.1);
            assert(nu[k] < nu[i - 1]);
        }
        assert forall|p: (NodeId, NodeId)| prev.contains(p) implies cur.contains(p) by {
            let k = choose|k: int|
                0 <= k < i - 1 && nu[k] == p.0 && p.0 <= u && closing_set(
                    nu,
                    g.spec_out(p.0),
                    p.0,
                    g.spec_out(p.0).len() as int,
                ).contains(p.1);
            assert(0 <= k < i);
        }
        assert forall|p: (NodeId, NodeId)| cur.contains(p) implies prev.contains(p) || (p.0 == v
            && v <= u && cs.contains(p.1)) by {
            let k = choose|k: int|
                0 <= k < i && nu[k] == p.0 && p.0 <= u && closing_set(
                    nu,
                    g.spec_out(p.0),
                    p.0,
                    g.spec_out(p.0).len() as int,
                ).contains(p.1);
            if k < i - 1 {
                assert(prev.contains(p));
            }
        }
        if v <= u {
            assert forall|p: (NodeId, NodeId)| added.contains(p) implies cur.contains(p) by {
                let w = choose|w: NodeId| cs.contains(w) && f(w) == p;
                assert(0 <= i - 1 < i && nu[i - 1] == p.0);
            }
            assert(cur =~= prev + added);
            assert(prev.disjoint(added));
            vstd::set_lib::lemma_set_disjoint_lens(prev, added);
        } else {
            assert(cur =~= prev);
        }
    }
}

/// The triples counted at the vertices `0 .. m`.
spec fn triple_set<V: AsNode, E: AsNode, G: CSRGraph<V, E>>(g: &G, m: int) -> Set<(NodeId, NodeId, NodeId)> {
    Set::new(
        |t: (NodeId, NodeId, NodeId)|
            t.0 < m && pair_set(g, t.0, g.spec_out(t.0).len() as int).contains((t.1, t.2)),
    )
}

proof fn lemma_triple_set<V: AsNode, E: AsNode, G: CSRGraph<V, E>>(g: &G, m: int)
    requires
        dense(g),
        sorted_neighbourhoods(g),
        0 <= m <= g.spec_num_nodes(),
        g.spec_num_nodes() <= usize::MAX,
    ensures
        triple_set(g, m).finite(),
        triple_set(g, m).len() == triangle_count(g, m),
    decreases m,
{
    if m == 0 {
        assert(triple_set(g, 0) =~= Set::empty());
    } else {
        lemma_triple_set(g, m - 1);
        let u = (m - 1) as NodeId;
        let ps = pair_set(g, u, g.spec_out(u).len() as int);
        lemma_pair_set(g, u, g.spec_out(u).len() as int);
        let f = |p: (NodeId, NodeId)| (u, p.0, p.1);
        let added = ps.map(f);
        assert(vstd::relations::injective_on(f, ps));
        vstd::set_lib::lemma_map_size(ps, added, f);
        let prev = triple_set(g, m - 1);
        let cur = triple_set(g, m);
        assert forall|t: (NodeId, NodeId, NodeId)| added.contains(t) implies cur.contains(t) by {
            let p = choose|p: (NodeId, NodeId)| ps.contains(p) && f(p) == t;
            assert((t.1, t.2) == p);
        }
        assert forall|t: (NodeId, NodeId, NodeId)| cur.contains(t) implies prev.contains(t)
            || added.contains(t) by {
            if t.0 == u {
                assert(f((t.1, t.2)) == t);
            }
        }
        assert forall|t: (NodeId, NodeId, NodeId)| #[trigger] added.contains(t) implies t.0 == u by {
            let p = choose|p: (NodeId, NodeId)| ps.contains(p) && f(p) == t;
        }
        assert(cur =~= prev + added);
        assert(prev.disjoint(added));
        vstd::set_lib::lemma_set_disjoint_lens(prev, added);
    }
}

/// On a graph whose neighbourhoods are sorted without repeats, the count
/// over the vertices below `m` is the number of triples `(u, v, w)` in
/// `ordered_triangles(g, m)`.
pub proof fn lemma_triangle_count_counts<V: AsNode, E: AsNode, G: CSRGraph<V, E>>(g: &G, m: int)
    requires
        dense(g),
        sorted_neighbourhoods(g),
        0 <= m <= g.spec_num_nodes(),
        g.spec_num_nodes() <= usize::MAX,
    ensures
        ordered_triangles(g, m).finite(),
        triangle_count(g, m) == ordered_triangles(g, m).len(),
{
    lemma_triple_set(g, m);
    let ts = triple_set(g, m);
    let ot = ordered_triangles(g, m);
    assert forall|t: (NodeId, NodeId, NodeId)| ts.contains(t) implies ot.contains(t) by {
        let nu = g.spec_out(t.0);
        let k = choose|k: int|
            0 <= k < nu.len() && nu[k] == t.1 && t.1 <= t.0 && closing_set(
                nu,
                g.spec_out(t.1),
                t.1,
                g.spec_out(t.1).len() as int,
            ).contains(t.2);
        let k2 = choose|k2: int|
            0 <= k2 < g.spec_out(t.1).len() && g.spec_out(t.1)[k2] == t.2 && t.2 <= t.1
                && nu.contains(t.2);
        assert(nu.contains(t.1));
        assert(g.spec_out(t.1).contains(t.2));
    }
    assert forall|t: (NodeId, NodeId, NodeId)| ot.contains(t) implies ts.contains(t) by {
        let nu = g.spec_out(t.0);
        let nv = g.spec_out(t.1);
        let k = choose|k: int| 0 <= k < nu.len() && nu[k] == t.1;
        let k2 = choose|k2: int| 0 <= k2 < nv.len() && nv[k2] == t.2;
        assert(closing_set(nu, nv, t.1, nv.len() as int).contains(t.2));
        assert(pair_set(g, t.0, nu.len() as int).contains((t.1, t.2)));
    }
    assert(ts =~= ot);
}

/// On a graph without self-edges whose neighbourhoods are sorted without
/// repeats, the count over the vertices below `m` is the number of
/// triangles `u > v > w` among them.
pub proof fn lemma_triangle_count_strict<V: AsNode, E: AsNode, G: CSRGraph<V, E>>(g: &G, m: int)
    requires
        dense(g),
        sorted_neighbourhoods(g),
        forall|v: NodeId| v < g.spec_num_nodes() ==> !(#[trigger] g.spec_out(v)).contains(v),
        0 <= m <= g.spec_num_nodes(),
        g.spec_num_nodes() <= usize::MAX,
    ensures
        strict_triangles(g, m).finite(),
        triangle_count(g, m) == strict_triangles(g, m).len(),
{
    lemma_triangle_count_counts(g, m);
    assert forall|t: (NodeId, NodeId, NodeId)| ordered_triangles(g, m).contains(t) implies
        strict_triangles(g, m).contains(t) by {
        assert(t.0 < g.spec_num_nodes());
        let k = choose|k: int| 0 <= k < g.spec_out(t.0).len() && g.spec_out(t.0)[k] == t.1;
        assert(t.1 < g.spec_num_nodes());
        if t.1 == t.0 {
            assert(g.spec_out(t.0).contains(t.0));
        }
        if t.2 == t.1 {
            assert(g.spec_out(t.1).contains(t.1));
        }
    }
    assert(ordered_triangles(g, m) =~= strict_triangles(g, m));
}

} // verus!
