//! Breadth-first search (BFS), direction optimizing.
//!
//! `parent[x]` is `Negative(d)` while `x` is unvisited (with `d` its
//! out-degree, or 1) and `Positive(p)` once it has been reached. The
//! search runs top-down steps, which scan the out-edges of the frontier,
//! until the frontier's estimated edge count (`scout_count`) exceeds a
//! fraction of the edges left to check; then it runs bottom-up steps,
//! which let every unvisited vertex look for a parent among its
//! in-neighbours in the frontier bitmap, until the frontier stops growing
//! or becomes large.

use crate::bitvec::{bitvec_bits, bv_from_elem, bv_get, bv_index, bv_len, bv_set};
use crate::cc::in_matches_out;
use crate::graph::{ids, CSRGraph};
use crate::slidingqueue::{window_of, SlidingQueue};
use crate::types::{AsNode, NodeId};
use bit_vec::BitVec;
use vstd::prelude::*;

verus! {

#[derive(Clone, Copy)]
pub enum VisitStatus {
    Negative(NodeId),
    Positive(NodeId),
}

/// The degree recorded for an unvisited vertex; 0 once visited.
pub open spec fn pending_degree(s: VisitStatus) -> usize {
    match s {
        VisitStatus::Negative(c) => c,
        VisitStatus::Positive(_) => 0,
    }
}

/// `a + b` wrapped around past `usize::MAX`.
pub open spec fn wrap_add(a: usize, b: usize) -> usize {
    if a + b > usize::MAX {
        (a + b - usize::MAX - 1) as usize
    } else {
        (a + b) as usize
    }
}

fn wrapping_add(a: usize, b: usize) -> (r: usize)
    ensures
        r == wrap_add(a, b),
{
    if b > usize::MAX - a {
        b - (usize::MAX - a) - 1
    } else {
        a + b
    }
}

/// What the search needs of its graph: the vertices below `n` are
/// vertices, `vertices` hands out only such ids, and every neighbour is one.
pub open spec fn bfs_ready<V: AsNode, E: AsNode, G: CSRGraph<V, E>>(g: &G) -> bool {
    &&& g.spec_wf()
    &&& forall|v: NodeId| v < g.spec_num_nodes() ==> #[trigger] g.spec_has_vertex(v)
    &&& forall|i: int| 0 <= i < g.spec_vertices().len() ==> #[trigger] g.spec_vertices()[i] < g.spec_num_nodes()
    &&& forall|v: NodeId, i: int|
        v < g.spec_num_nodes() && 0 <= i < g.spec_out(v).len() ==> #[trigger] g.spec_out(v)[i] < g.spec_num_nodes()
    &&& forall|v: NodeId, i: int|
        v < g.spec_num_nodes() && 0 <= i < g.spec_in(v).len() ==> #[trigger] g.spec_in(v)[i] < g.spec_num_nodes()
    &&& forall|v: NodeId| v < g.spec_num_nodes() ==> #[trigger] g.spec_out(v).len() <= usize::MAX
}

/// The entry a vertex starts with: `Negative` of its out-degree, or of 1
/// where it has none (so that 0 never stands for "unvisited").
pub open spec fn initial_entry<V: AsNode, E: AsNode, G: CSRGraph<V, E>>(g: &G, v: NodeId) -> VisitStatus {
    if g.spec_vertices().contains(v) && g.spec_out(v).len() != 0 {
        VisitStatus::Negative(g.spec_out(v).len() as NodeId)
    } else {
        VisitStatus::Negative(1)
    }
}

/// The parent array before the search: `10 * n` entries, each vertex
/// unvisited with its out-degree, every other entry `Negative(1)`.
pub open spec fn initial_parent<V: AsNode, E: AsNode, G: CSRGraph<V, E>>(g: &G) -> Seq<VisitStatus> {
    Seq::new(10 * g.spec_num_nodes(), |i: int| initial_entry(g, i as NodeId))
}

/// Every vertex that `vertices` hands out is a vertex below `10 * n`.
pub open spec fn vertices_indexable<V: AsNode, E: AsNode, G: CSRGraph<V, E>>(g: &G) -> bool {
    &&& g.spec_wf()
    &&& forall|i: int|
        0 <= i < g.spec_vertices().len() ==> #[trigger] g.spec_vertices()[i] < 10 * g.spec_num_nodes()
            && g.spec_has_vertex(g.spec_vertices()[i])
}

pub fn init_parent<V: AsNode, E: AsNode, G: CSRGraph<V, E>>(graph: &G) -> (parent: Vec<VisitStatus>)
    requires
        vertices_indexable(graph),
        10 * graph.spec_num_nodes() <= usize::MAX,
    ensures
        parent@ == initial_parent(graph),
{
    let n = graph.num_nodes();
    let mut parent: Vec<VisitStatus> = Vec::new();
    let mut i: usize = 0;
    while i < n * 10
        invariant
            n == graph.spec_num_nodes(),
            10 * n <= usize::MAX,
            i <= n * 10,
            parent@ == Seq::new(i as nat, |k: int| VisitStatus::Negative(1)),
        decreases n * 10 - i,
    {
        parent.push(VisitStatus::Negative(1));
        assert(parent@ =~= Seq::new((i + 1) as nat, |k: int| VisitStatus::Negative(1)));
        i = i + 1;
    }
    let vs = graph.vertices();
    let ghost svs = graph.spec_vertices();
    let mut j: usize = 0;
    while j < vs.len()
        invariant
            vertices_indexable(graph),
            n == graph.spec_num_nodes(),
            10 * n <= usize::MAX,
            svs == graph.spec_vertices(),
            ids(vs@) == svs,
            j <= vs@.len(),
            parent@.len() == 10 * n,
            forall|k: int|
                0 <= k < 10 * n ==> #[trigger] parent@[k] == if svs.subrange(0, j as int).contains(
                    k as NodeId,
                ) && graph.spec_out(k as NodeId).len() != 0 {
                    VisitStatus::Negative(graph.spec_out(k as NodeId).len() as NodeId)
                } else {
                    VisitStatus::Negative(1)
                },
        decreases vs@.len() - j,
    {
        let v = vs[j].as_node();
        proof {
            assert(ids(vs@)[j as int] == v);
            assert(svs[j as int] == v);
        }
        let d = graph.out_degree(v);
        if d != 0 {
            parent.set(v, VisitStatus::Negative(d));
        }
        proof {
            assert forall|k: int| 0 <= k < 10 * n implies #[trigger] parent@[k] == if svs.subrange(
                0,
                j + 1,
            ).contains(k as NodeId) && graph.spec_out(k as NodeId).len() != 0 {
                VisitStatus::Negative(graph.spec_out(k as NodeId).len() as NodeId)
            } else {
                VisitStatus::Negative(1)
            } by {
                let s0 = svs.subrange(0, j as int);
                let s1 = svs.subrange(0, j + 1);
                let x = k as NodeId;
                assert(s1 =~= s0.push(v));
                if s0.contains(x) {
                    let a = choose|a: int| 0 <= a < s0.len() && s0[a] == x;
                    assert(s1[a] == x);
                }
                if x == v {
                    assert(s1[j as int] == x);
                }
                if s1.contains(x) {
                    let a = choose|a: int| 0 <= a < s1.len() && s1[a] == x;
                    if a < j {
                        assert(s0[a] == x);
                    }
                }
                assert(s1.contains(x) == (s0.contains(x) || x == v));
            }
        }
        j = j + 1;
    }
    assert(svs.subrange(0, j as int) =~= svs);
    assert(parent@ =~= initial_parent(graph));
    parent
}

/// The pairs `(u, v)` for `v` an out-neighbour of `u`, for the vertices
/// `us` in turn, each vertex's neighbours in order.
pub open spec fn frontier_edges<V: AsNode, E: AsNode, G: CSRGraph<V, E>>(g: &G, us: Seq<NodeId>) -> Seq<(NodeId, NodeId)>
    decreases us.len(),
{
    if us.len() == 0 {
        Seq::empty()
    } else {
        let u = us.last();
        frontier_edges(g, us.drop_last()) + g.spec_out(u).map_values(|v: NodeId| (u, v))
    }
}

/// A top-down step over the edges `pairs`: each edge `(u, v)` whose end
/// `v` is unvisited with a non-zero degree `c` makes `u` the parent of `v`
/// (`Positive(u)` at position `v`), records `v`, and adds `c` to the scout
/// count.
pub open spec fn top_down(p0: Seq<VisitStatus>, pairs: Seq<(NodeId, NodeId)>) -> (Seq<VisitStatus>, Seq<NodeId>, usize)
    decreases pairs.len(),
{
    if pairs.len() == 0 {
        (p0, Seq::empty(), 0usize)
    } else {
        let (p, f, s) = top_down(p0, pairs.drop_last());
        let (u, v) = pairs.last();
        if v < p.len() && pending_degree(p[v as int]) != 0 {
            (
                p.update(v as int, VisitStatus::Positive(u)),
                f.push(v),
                wrap_add(s, pending_degree(p[v as int])),
            )
        } else {
            (p, f, s)
        }
    }
}

proof fn lemma_top_down_len(p0: Seq<VisitStatus>, pairs: Seq<(NodeId, NodeId)>)
    ensures
        top_down(p0, pairs).0.len() == p0.len(),
    decreases pairs.len(),
{
    if pairs.len() > 0 {
        lemma_top_down_len(p0, pairs.drop_last());
    }
}

/// Every vertex that a top-down step records is a neighbour taken from
/// `pairs`.
proof fn lemma_top_down_found(p0: Seq<VisitStatus>, pairs: Seq<(NodeId, NodeId)>, bound: nat)
    requires
        forall|i: int| 0 <= i < pairs.len() ==> #[trigger] pairs[i].1 < bound,
    ensures
        forall|i: int|
            0 <= i < top_down(p0, pairs).1.len() ==> #[trigger] top_down(p0, pairs).1[i] < bound,
    decreases pairs.len(),
{
    if pairs.len() > 0 {
        lemma_top_down_found(p0, pairs.drop_last(), bound);
        assert(pairs[pairs.len() - 1].1 < bound);
        let r = top_down(p0, pairs.drop_last());
        assert(top_down(p0, pairs).1 == r.1 || top_down(p0, pairs).1 == r.1.push(pairs.last().1));
    }
}

/// One top-down step: visits the out-neighbours of the queue's window,
/// appends the newly visited vertices to the queue, and returns the sum of
/// their degrees (the next scout count).
pub fn td_step<V: AsNode, E: AsNode, G: CSRGraph<V, E>>(
    graph: &G,
    parent: &mut Vec<VisitStatus>,
    queue: &mut SlidingQueue<NodeId>,
) -> (scout_count: usize)
    requires
        bfs_ready(graph),
        old(parent)@.len() >= graph.spec_num_nodes(),
        forall|i: int|
            0 <= i < old(queue).window().len() ==> #[trigger] old(queue).window()[i]
                < graph.spec_num_nodes(),
    ensures
        ({
            let (p, f, s) = top_down(old(parent)@, frontier_edges(graph, old(queue).window()));
            &&& final(parent)@ == p
            &&& final(queue).items() == old(queue).items() + f
            &&& final(queue).out_start() == old(queue).out_start()
            &&& final(queue).out_end() == old(queue).out_end()
            &&& final(queue).pushed() == crate::slidingqueue::wrapped(old(queue).pushed() + f.len() as nat)
            &&& scout_count == s
        }),
{
    let ghost p0 = parent@;
    let ghost q0 = queue.items();
    proof {
        queue.lemma_cursor_bounds();
        vstd::arithmetic::div_mod::lemma_small_mod(queue.pushed(), usize::MAX as nat + 1);
    }
    let us = queue.window_items();
    let ghost sus = us@;
    let mut scout_count: usize = 0;
    let mut new_queue: Vec<NodeId> = Vec::new();
    let mut i: usize = 0;
    assert(sus.subrange(0, 0) =~= Seq::<NodeId>::empty());
    while i < us.len()
        invariant
            bfs_ready(graph),
            p0.len() >= graph.spec_num_nodes(),
            sus == us@,
            forall|k: int| 0 <= k < sus.len() ==> #[trigger] sus[k] < graph.spec_num_nodes(),
            i <= us@.len(),
            (parent@, new_queue@, scout_count) == top_down(
                p0,
                frontier_edges(graph, sus.subrange(0, i as int)),
            ),
        decreases us@.len() - i,
    {
        let u = us[i];
        assert(u == sus[i as int]);
        let neigh = graph.out_neigh(u);
        let ghost base = frontier_edges(graph, sus.subrange(0, i as int));
        let mut j: usize = 0;
        assert(base + graph.spec_out(u).subrange(0, 0).map_values(|v: NodeId| (u, v)) =~= base);
        while j < neigh.len()
            invariant
                bfs_ready(graph),
                p0.len() >= graph.spec_num_nodes(),
                u < graph.spec_num_nodes(),
                ids(neigh@) == graph.spec_out(u),
                j <= neigh@.len(),
                (parent@, new_queue@, scout_count) == top_down(
                    p0,
                    base + graph.spec_out(u).subrange(0, j as int).map_values(|v: NodeId| (u, v)),
                ),
            decreases neigh@.len() - j,
        {
            let v = neigh[j].as_node();
            let ghost pre = base + graph.spec_out(u).subrange(0, j as int).map_values(
                |v: NodeId| (u, v),
            );
            let ghost post = base + graph.spec_out(u).subrange(0, j + 1).map_values(
                |v: NodeId| (u, v),
            );
            proof {
                assert(ids(neigh@)[j as int] == v);
                assert(post.drop_last() =~= pre);
                assert(post.last() == (u, v));
                assert(v < graph.spec_num_nodes());
                lemma_top_down_len(p0, pre);
            }
            match parent[v] {
                VisitStatus::Negative(curr_val) => {
                    if curr_val != 0 {
                        parent.set(v, VisitStatus::Positive(u));
                        new_queue.push(v);
                        scout_count = wrapping_add(scout_count, curr_val);
                    }
                },
                VisitStatus::Positive(_) => {},
            }
            j = j + 1;
        }
        proof {
            assert(graph.spec_out(u).subrange(0, j as int) =~= graph.spec_out(u));
            assert(sus.subrange(0, i + 1).drop_last() =~= sus.subrange(0, i as int));
            assert(sus.subrange(0, i + 1).last() == u);
        }
        i = i + 1;
    }
    assert(sus.subrange(0, i as int) =~= sus);
    let found = new_queue;
    let mut k: usize = 0;
    while k < found.len()
        invariant
            k <= found@.len(),
            queue.items() == q0 + found@.subrange(0, k as int),
            queue.out_start() == old(queue).out_start(),
            queue.out_end() == old(queue).out_end(),
            queue.pushed() == crate::slidingqueue::wrapped(old(queue).pushed() + k as nat),
            q0 == old(queue).items(),
        decreases found@.len() - k,
    {
        proof {
            crate::slidingqueue::lemma_wrapped_step(old(queue).pushed() + k as nat);
        }
        queue.push_back(found[k]);
        assert(q0 + found@.subrange(0, k + 1) =~= (q0 + found@.subrange(0, k as int)).push(
            found@[k as int],
        ));
        k = k + 1;
    }
    assert(found@.subrange(0, k as int) =~= found@);
    scout_count
}

/// The first vertex of `s` from position `j` on whose bit is set.
pub open spec fn first_in_frontier(bits: Seq<bool>, s: Seq<NodeId>, j: int) -> Option<NodeId>
    decreases s.len() - j,
{
    if j < 0 || j >= s.len() {
        None
    } else if s[j] < bits.len() && bits[s[j] as int] {
        Some(s[j])
    } else {
        first_in_frontier(bits, s, j + 1)
    }
}

proof fn lemma_first_in_frontier_member(bits: Seq<bool>, s: Seq<NodeId>, j: int)
    ensures
        first_in_frontier(bits, s, j) matches Some(v) ==> s.contains(v),
    decreases s.len() - j,
{
    if 0 <= j < s.len() && !(s[j] < bits.len() && bits[s[j] as int]) {
        lemma_first_in_frontier_member(bits, s, j + 1);
    }
}

/// A bottom-up step over the vertices `vs`: an unvisited vertex `u` with
/// a non-zero degree that has an in-neighbour in the frontier `front`
/// takes the first such in-neighbour `v` as its parent (`Positive(v)` at `u`),
/// marks `u` in `next`, and counts one awakened vertex.
pub open spec fn bottom_up<V: AsNode, E: AsNode, G: CSRGraph<V, E>>(
    g: &G,
    p0: Seq<VisitStatus>,
    front: Seq<bool>,
    next0: Seq<bool>,
    vs: Seq<NodeId>,
) -> (Seq<VisitStatus>, Seq<bool>, nat)
    decreases vs.len(),
{
    if vs.len() == 0 {
        (p0, next0, 0)
    } else {
        let (p, nx, a) = bottom_up(g, p0, front, next0, vs.drop_last());
        let u = vs.last();
        if u < p.len() && pending_degree(p[u as int]) != 0 {
            match first_in_frontier(front, g.spec_in(u), 0) {
                Some(v) => if v < p.len() && u < nx.len() {
                    (p.update(u as int, VisitStatus::Positive(v)), nx.update(u as int, true), a + 1)
                } else {
                    (p, nx, a)
                },
                None => (p, nx, a),
            }
        } else {
            (p, nx, a)
        }
    }
}

proof fn lemma_bottom_up_shape<V: AsNode, E: AsNode, G: CSRGraph<V, E>>(
    g: &G,
    p0: Seq<VisitStatus>,
    front: Seq<bool>,
    next0: Seq<bool>,
    vs: Seq<NodeId>,
)
    ensures
        bottom_up(g, p0, front, next0, vs).0.len() == p0.len(),
        bottom_up(g, p0, front, next0, vs).1.len() == next0.len(),
        bottom_up(g, p0, front, next0, vs).2 <= vs.len(),
    decreases vs.len(),
{
    if vs.len() > 0 {
        lemma_bottom_up_shape(g, p0, front, next0, vs.drop_last());
    }
}

/// One bottom-up step; returns the number of vertices awakened.
#[verifier::spinoff_prover]
pub fn bu_step<V: AsNode, E: AsNode, G: CSRGraph<V, E>>(
    graph: &G,
    parent: &mut Vec<VisitStatus>,
    front: &mut BitVec,
    next: &mut BitVec,
) -> (awake_count: usize)
    requires
        bfs_ready(graph),
        old(parent)@.len() >= graph.spec_num_nodes(),
        bitvec_bits(*old(front)).len() >= graph.spec_num_nodes(),
        bitvec_bits(*old(next)).len() >= graph.spec_num_nodes(),
    ensures
        ({
            let (p, nx, a) = bottom_up(
                graph,
                old(parent)@,
                bitvec_bits(*old(front)),
                bitvec_bits(*old(next)),
                graph.spec_vertices(),
            );
            &&& final(parent)@ == p
            &&& bitvec_bits(*final(next)) == nx
            &&& awake_count == a
        }),
        *final(front) == *old(front),
{
    let ghost p0 = parent@;
    let ghost fb = bitvec_bits(*front);
    let ghost n0 = bitvec_bits(*next);
    let vs = graph.vertices();
    let ghost svs = graph.spec_vertices();
    let mut awake_count: usize = 0;
    let mut i: usize = 0;
    assert(svs.subrange(0, 0) =~= Seq::<NodeId>::empty());
    while i < vs.len()
        invariant
            bfs_ready(graph),
            p0.len() >= graph.spec_num_nodes(),
            fb == bitvec_bits(*front),
            fb.len() >= graph.spec_num_nodes(),
            n0.len() >= graph.spec_num_nodes(),
            svs == graph.spec_vertices(),
            ids(vs@) == svs,
            i <= vs@.len(),
            (parent@, bitvec_bits(*next), awake_count as nat) == bottom_up(
                graph,
                p0,
                fb,
                n0,
                svs.subrange(0, i as int),
            ),
        decreases vs@.len() - i,
    {
        let u = vs[i].as_node();
        proof {
            assert(ids(vs@)[i as int] == u);
            assert(svs.subrange(0, i + 1).drop_last() =~= svs.subrange(0, i as int));
            lemma_bottom_up_shape(graph, p0, fb, n0, svs.subrange(0, i as int));
            assert(svs[i as int] == u);
            assert(u < graph.spec_num_nodes());
        }
        match parent[u] {
            VisitStatus::Negative(curr_val) => {
                if curr_val != 0 {
                    let neigh = graph.in_neigh(u);
                    let mut j: usize = 0;
                    let mut found: Option<NodeId> = None;
                    while j < neigh.len()
                        invariant_except_break
                            found is None,
                            first_in_frontier(fb, graph.spec_in(u), 0) == first_in_frontier(
                                fb,
                                graph.spec_in(u),
                                j as int,
                            ),
                        invariant
                            bfs_ready(graph),
                            u < graph.spec_num_nodes(),
                            fb == bitvec_bits(*front),
                            fb.len() >= graph.spec_num_nodes(),
                            ids(neigh@) == graph.spec_in(u),
                            j <= neigh@.len(),
                        ensures
                            found == first_in_frontier(fb, graph.spec_in(u), 0),
                        decreases neigh@.len() - j,
                    {
                        let v = neigh[j].as_node();
                        proof {
                            assert(ids(neigh@)[j as int] == v);
                            assert(v < graph.spec_num_nodes());
                        }
                        if bv_index(front, v) {
                            found = Some(v);
                            break;
                        }
                        j = j + 1;
                    }
                    match found {
                        Some(v) => {
                            proof {
                                let k = choose|k: int| 0 <= k < graph.spec_in(u).len() && graph.spec_in(u)[k] == v;
                                lemma_first_in_frontier_member(fb, graph.spec_in(u), 0);
                                assert(v < graph.spec_num_nodes());
                            }
                            parent.set(u, VisitStatus::Positive(v));
                            awake_count = awake_count + 1;
                            bv_set(next, u, true);
                        },
                        None => {},
                    }
                }
            },
            VisitStatus::Positive(_) => {},
        }
        i = i + 1;
    }
    proof {
        assert(svs.subrange(0, i as int) =~= svs);
    }
    awake_count
}

/// `bits` with the bits at the positions `us` set.
pub open spec fn with_bits_set(bits: Seq<bool>, us: Seq<NodeId>) -> Seq<bool>
    decreases us.len(),
{
    if us.len() == 0 {
        bits
    } else {
        let b = with_bits_set(bits, us.drop_last());
        if us.last() < b.len() {
            b.update(us.last() as int, true)
        } else {
            b
        }
    }
}

proof fn lemma_with_bits_set_len(bits: Seq<bool>, us: Seq<NodeId>)
    ensures
        with_bits_set(bits, us).len() == bits.len(),
    decreases us.len(),
{
    if us.len() > 0 {
        lemma_with_bits_set_len(bits, us.drop_last());
    }
}

/// Sets the bits of the vertices in the queue's window.
pub fn queue_to_bitmap(queue: &SlidingQueue<NodeId>, bm: &mut BitVec)
    requires
        forall|i: int|
            0 <= i < queue.window().len() ==> #[trigger] queue.window()[i] < bitvec_bits(
                *old(bm),
            ).len(),
    ensures
        bitvec_bits(*final(bm)) == with_bits_set(bitvec_bits(*old(bm)), queue.window()),
{
    let ghost b0 = bitvec_bits(*bm);
    let us = queue.window_items();
    let mut i: usize = 0;
    assert(us@.subrange(0, 0) =~= Seq::<NodeId>::empty());
    while i < us.len()
        invariant
            us@ == queue.window(),
            forall|k: int| 0 <= k < us@.len() ==> #[trigger] us@[k] < b0.len(),
            i <= us@.len(),
            bitvec_bits(*bm) == with_bits_set(b0, us@.subrange(0, i as int)),
        decreases us@.len() - i,
    {
        proof {
            assert(us@.subrange(0, i + 1).drop_last() =~= us@.subrange(0, i as int));
            lemma_with_bits_set_len(b0, us@.subrange(0, i as int));
        }
        bv_set(bm, us[i], true);
        i = i + 1;
    }
    assert(us@.subrange(0, i as int) =~= us@);
}

/// The positions below `m` whose bits are set, in increasing order.
pub open spec fn set_positions(bits: Seq<bool>, m: int) -> Seq<NodeId>
    decreases m,
{
    if m <= 0 {
        Seq::empty()
    } else if m - 1 < bits.len() && bits[m - 1] {
        set_positions(bits, m - 1).push((m - 1) as NodeId)
    } else {
        set_positions(bits, m - 1)
    }
}

/// Appends to the queue the vertices below `10 * n` whose bits are set,
/// in increasing order, and makes them the window.
pub fn bitmap_to_queue<V: AsNode, E: AsNode, G: CSRGraph<V, E>>(
    graph: &G,
    bm: &BitVec,
    queue: &mut SlidingQueue<NodeId>,
)
    requires
        graph.spec_wf(),
        10 * graph.spec_num_nodes() <= usize::MAX,
    ensures
        final(queue).items() == old(queue).items() + set_positions(
            bitvec_bits(*bm),
            10 * graph.spec_num_nodes() as int,
        ),
        final(queue).out_start() == old(queue).out_end(),
        final(queue).out_end() == final(queue).pushed(),
        final(queue).pushed() == crate::slidingqueue::wrapped(
            old(queue).pushed() + set_positions(bitvec_bits(*bm), 10 * graph.spec_num_nodes() as int).len(),
        ),
{
    let n = graph.num_nodes();
    let ghost q0 = queue.items();
    proof {
        queue.lemma_cursor_bounds();
        vstd::arithmetic::div_mod::lemma_small_mod(queue.pushed(), usize::MAX as nat + 1);
    }
    let mut i: usize = 0;
    while i < n * 10
        invariant
            n == graph.spec_num_nodes(),
            10 * n <= usize::MAX,
            i <= n * 10,
            queue.items() == q0 + set_positions(bitvec_bits(*bm), i as int),
            queue.out_end() == old(queue).out_end(),
            queue.pushed() == crate::slidingqueue::wrapped(
                old(queue).pushed() + set_positions(bitvec_bits(*bm), i as int).len(),
            ),
        decreases n * 10 - i,
    {
        match bv_get(bm, i) {
            Some(true) => {
                proof {
                    crate::slidingqueue::lemma_wrapped_step(
                        old(queue).pushed() + set_positions(bitvec_bits(*bm), i as int).len(),
                    );
                }
                queue.push_back(i);
                assert(q0 + set_positions(bitvec_bits(*bm), i + 1) =~= (q0 + set_positions(
                    bitvec_bits(*bm),
                    i as int,
                )).push(i));
            },
            _ => {},
        }
        i = i + 1;
    }
    queue.slide_window();
}

} // verus!

verus! {

/// Threshold for switching to bottom-up: the frontier's edges exceed
/// `edges_to_check / ALPHA`.
pub const ALPHA: usize = 15;

/// Threshold for switching back: more than `num_nodes / BETA` vertices
/// awake.
pub const BETA: usize = 18;

proof fn lemma_window_members<T>(items: Seq<T>, s: int, e: int, i: int)
    requires
        0 <= i < window_of(items, s, e).len(),
        s >= 0,
        e >= 0,
    ensures
        items.contains(window_of(items, s, e)[i]),
{
    let w = window_of(items, s, e);
    if s >= items.len() {
    } else if s + e >= items.len() {
        assert(0 <= s + i < items.len());
        assert(w[i] == items[s + i]);
    } else {
        assert(w.len() == e);
        assert(0 <= s + i < items.len());
        assert(w[i] == items[s + i]);
    }
}

proof fn lemma_frontier_edges_bound<V: AsNode, E: AsNode, G: CSRGraph<V, E>>(g: &G, us: Seq<NodeId>)
    requires
        bfs_ready(g),
        forall|k: int| 0 <= k < us.len() ==> #[trigger] us[k] < g.spec_num_nodes(),
    ensures
        forall|i: int|
            0 <= i < frontier_edges(g, us).len() ==> #[trigger] frontier_edges(g, us)[i].1
                < g.spec_num_nodes(),
    decreases us.len(),
{
    if us.len() > 0 {
        let u = us.last();
        assert(us[us.len() - 1] < g.spec_num_nodes());
        lemma_frontier_edges_bound(g, us.drop_last());
        let a = frontier_edges(g, us.drop_last());
        let b = g.spec_out(u).map_values(|v: NodeId| (u, v));
        assert forall|i: int| 0 <= i < (a + b).len() implies #[trigger] (a + b)[i].1
            < g.spec_num_nodes() by {
            if i >= a.len() {
                assert(b[i - a.len()].1 == g.spec_out(u)[i - a.len()]);
            }
        }
    }
}

proof fn lemma_bottom_up_bits<V: AsNode, E: AsNode, G: CSRGraph<V, E>>(
    g: &G,
    p0: Seq<VisitStatus>,
    front: Seq<bool>,
    next0: Seq<bool>,
    vs: Seq<NodeId>,
    bound: nat,
)
    requires
        forall|i: int| 0 <= i < next0.len() && #[trigger] next0[i] ==> i < bound,
        forall|k: int| 0 <= k < vs.len() ==> #[trigger] vs[k] < bound,
    ensures
        forall|i: int|
            0 <= i < bottom_up(g, p0, front, next0, vs).1.len() && #[trigger] bottom_up(
                g,
                p0,
                front,
                next0,
                vs,
            ).1[i] ==> i < bound,
    decreases vs.len(),
{
    if vs.len() > 0 {
        let u = vs.last();
        assert(vs[vs.len() - 1] < bound);
        lemma_bottom_up_bits(g, p0, front, next0, vs.drop_last(), bound);
        let r = bottom_up(g, p0, front, next0, vs.drop_last());
        let t = bottom_up(g, p0, front, next0, vs);
        assert(t.1 == r.1 || t.1 == r.1.update(u as int, true));
        assert forall|i: int| 0 <= i < t.1.len() && #[trigger] t.1[i] implies i < bound by {
            if t.1 != r.1 && i == u {
            } else {
                assert(t.1[i] == r.1[i]);
            }
        }
    }
}

proof fn lemma_with_bits_set_bits(bits: Seq<bool>, us: Seq<NodeId>, bound: nat)
    requires
        forall|i: int| 0 <= i < bits.len() && #[trigger] bits[i] ==> i < bound,
        forall|k: int| 0 <= k < us.len() ==> #[trigger] us[k] < bound,
    ensures
        forall|i: int|
            0 <= i < with_bits_set(bits, us).len() && #[trigger] with_bits_set(bits, us)[i] ==> i
                < bound,
    decreases us.len(),
{
    if us.len() > 0 {
        let u = us.last();
        assert(us[us.len() - 1] < bound);
        lemma_with_bits_set_bits(bits, us.drop_last(), bound);
        let r = with_bits_set(bits, us.drop_last());
        let t = with_bits_set(bits, us);
        assert(t == r || t == r.update(u as int, true));
        assert forall|i: int| 0 <= i < t.len() && #[trigger] t[i] implies i < bound by {
            if t != r && i == u {
            } else {
                assert(t[i] == r[i]);
            }
        }
    }
}

proof fn lemma_set_positions_bound(bits: Seq<bool>, m: int, bound: nat)
    requires
        forall|i: int| 0 <= i < bits.len() && #[trigger] bits[i] ==> i < bound,
    ensures
        forall|k: int|
            0 <= k < set_positions(bits, m).len() ==> #[trigger] set_positions(bits, m)[k] < bound,
    decreases m,
{
    if m > 0 {
        lemma_set_positions_bound(bits, m - 1, bound);
        let r = set_positions(bits, m - 1);
        let t = set_positions(bits, m);
        if m - 1 < bits.len() && bits[m - 1] {
            assert(t == r.push((m - 1) as NodeId));
            assert forall|k: int| 0 <= k < t.len() implies #[trigger] t[k] < bound by {
                if k < r.len() {
                    assert(t[k] == r[k]);
                }
            }
        }
    }
}

/// `x` has a parent: it has been visited.
pub open spec fn visited(p: Seq<VisitStatus>, x: NodeId) -> bool {
    x < p.len() && p[x as int] is Positive
}

/// A path of at most `k` out-edges leads from `s` to `v`.
pub open spec fn reaches_within<V: AsNode, E: AsNode, G: CSRGraph<V, E>>(g: &G, s: NodeId, v: NodeId, k: nat) -> bool
    decreases k,
{
    if k == 0 {
        v == s
    } else {
        ||| reaches_within(g, s, v, (k - 1) as nat)
        ||| exists|u: NodeId| reaches_within(g, s, u, (k - 1) as nat) && #[trigger] g.spec_out(u).contains(v)
    }
}

/// A path of out-edges leads from `s` to `v`.
pub open spec fn reached<V: AsNode, E: AsNode, G: CSRGraph<V, E>>(g: &G, s: NodeId, v: NodeId) -> bool {
    exists|k: nat| #[trigger] reaches_within(g, s, v, k)
}

/// The end of an out-edge of a reached vertex is reached.
pub proof fn lemma_reached_step<V: AsNode, E: AsNode, G: CSRGraph<V, E>>(g: &G, s: NodeId, u: NodeId, v: NodeId)
    requires
        reached(g, s, u),
        g.spec_out(u).contains(v),
    ensures
        reached(g, s, v),
{
    let k = choose|k: nat| #[trigger] reaches_within(g, s, u, k);
    assert(reaches_within(g, s, v, k + 1));
}

/// The source is reached.
pub proof fn lemma_reached_source<V: AsNode, E: AsNode, G: CSRGraph<V, E>>(g: &G, s: NodeId)
    ensures
        reached(g, s, s),
{
    assert(reaches_within(g, s, s, 0));
}

/// Every visited vertex below `n` is reached from `s`.
pub open spec fn visited_reached<V: AsNode, E: AsNode, G: CSRGraph<V, E>>(g: &G, s: NodeId, p: Seq<VisitStatus>) -> bool {
    forall|x: NodeId| x < g.spec_num_nodes() && #[trigger] visited(p, x) ==> reached(g, s, x)
}

/// The edges a top-down step scans leave the frontier.
proof fn lemma_frontier_edges_from<V: AsNode, E: AsNode, G: CSRGraph<V, E>>(g: &G, us: Seq<NodeId>)
    ensures
        forall|i: int|
            0 <= i < frontier_edges(g, us).len() ==> us.contains(#[trigger] frontier_edges(g, us)[i].0)
                && g.spec_out(frontier_edges(g, us)[i].0).contains(frontier_edges(g, us)[i].1),
    decreases us.len(),
{
    if us.len() > 0 {
        let u = us.last();
        lemma_frontier_edges_from(g, us.drop_last());
        let a = frontier_edges(g, us.drop_last());
        let b = g.spec_out(u).map_values(|v: NodeId| (u, v));
        assert forall|i: int| 0 <= i < (a + b).len() implies us.contains(#[trigger] (a + b)[i].0) && g.spec_out(
            (a + b)[i].0,
        ).contains((a + b)[i].1) by {
            if i >= a.len() {
                assert(b[i - a.len()] == (u, g.spec_out(u)[i - a.len()]));
                assert(us[us.len() - 1] == u);
            } else {
                let x = a[i].0;
                let j = choose|j: int| 0 <= j < us.drop_last().len() && us.drop_last()[j] == x;
                assert(us[j] == x);
            }
        }
    }
}

/// A top-down step visits only ends of scanned edges, keeps every visit,
/// and visits every vertex it records.
proof fn lemma_top_down_sound<V: AsNode, E: AsNode, G: CSRGraph<V, E>>(
    g: &G,
    s: NodeId,
    p0: Seq<VisitStatus>,
    pairs: Seq<(NodeId, NodeId)>,
)
    requires
        visited_reached(g, s, p0),
        forall|i: int|
            0 <= i < pairs.len() ==> reached(g, s, #[trigger] pairs[i].0) && g.spec_out(pairs[i].0).contains(
                pairs[i].1,
            ),
    ensures
        visited_reached(g, s, top_down(p0, pairs).0),
        forall|x: NodeId| #[trigger] visited(p0, x) ==> visited(top_down(p0, pairs).0, x),
        forall|i: int|
            0 <= i < top_down(p0, pairs).1.len() ==> visited(top_down(p0, pairs).0, #[trigger] top_down(p0, pairs).1[i]),
    decreases pairs.len(),
{
    if pairs.len() > 0 {
        let q = pairs.drop_last();
        assert forall|i: int| 0 <= i < q.len() implies reached(g, s, #[trigger] q[i].0) && g.spec_out(q[i].0).contains(
            q[i].1,
        ) by {
            assert(q[i] == pairs[i]);
        }
        lemma_top_down_sound(g, s, p0, q);
        let (p, f, c) = top_down(p0, q);
        let (u, v) = pairs.last();
        assert(pairs[pairs.len() - 1] == (u, v));
        if v < p.len() && pending_degree(p[v as int]) != 0 {
            let p1 = p.update(v as int, VisitStatus::Positive(u));
            lemma_reached_step(g, s, u, v);
            assert forall|x: NodeId| x < g.spec_num_nodes() && #[trigger] visited(p1, x) implies reached(g, s, x) by {
                if x != v {
                    assert(visited(p, x));
                }
            }
            assert forall|x: NodeId| #[trigger] visited(p0, x) implies visited(p1, x) by {
                assert(visited(p, x));
                if x == v {
                    assert(p[v as int] is Positive);
                }
            }
            let f1 = f.push(v);
            assert forall|i: int| 0 <= i < f1.len() implies visited(p1, #[trigger] f1[i]) by {
                if i < f.len() {
                    assert(f1[i] == f[i]);
                    assert(visited(p, f[i]));
                }
            }
        }
    }
}

proof fn lemma_first_in_frontier_set(bits: Seq<bool>, s: Seq<NodeId>, j: int)
    ensures
        first_in_frontier(bits, s, j) matches Some(v) ==> v < bits.len() && bits[v as int],
    decreases s.len() - j,
{
    if 0 <= j < s.len() && !(s[j] < bits.len() && bits[s[j] as int]) {
        lemma_first_in_frontier_set(bits, s, j + 1);
    }
}

/// `x`'s entry names a visited vertex `u` below `n` with an edge to `x`:
/// an out-edge of `u`, or an in-edge of `x` (the edge a bottom-up step
/// follows).
pub open spec fn parent_edge<V: AsNode, E: AsNode, G: CSRGraph<V, E>>(g: &G, p: Seq<VisitStatus>, x: NodeId) -> bool {
    p[x as int] matches VisitStatus::Positive(u) && u < g.spec_num_nodes() && visited(p, u) && (g.spec_out(u).contains(
        x,
    ) || g.spec_in(x).contains(u))
}

/// Every visited vertex below `n` other than the source `s` has a parent
/// joined to it by an edge: the parent entries form a search tree.
pub open spec fn parents_valid<V: AsNode, E: AsNode, G: CSRGraph<V, E>>(g: &G, s: NodeId, p: Seq<VisitStatus>) -> bool {
    forall|x: NodeId| x < g.spec_num_nodes() && x != s && #[trigger] visited(p, x) ==> parent_edge(g, p, x)
}

/// Following parent entries from `x` at most `k` times leads to `s`.
pub open spec fn parent_chain(p: Seq<VisitStatus>, s: NodeId, x: NodeId, k: nat) -> bool
    decreases k,
{
    x == s || (k > 0 && x < p.len() && (p[x as int] matches VisitStatus::Positive(u) && parent_chain(
        p,
        s,
        u,
        (k - 1) as nat,
    )))
}

/// From every visited vertex below `n`, the parent entries lead back to
/// the source `s`: the search tree is rooted at `s`.
pub open spec fn parents_rooted(p: Seq<VisitStatus>, s: NodeId, n: nat) -> bool {
    forall|x: NodeId| x < n && #[trigger] visited(p, x) ==> exists|k: nat| parent_chain(p, s, x, k)
}

/// A chain through visited vertices survives any change that leaves the
/// entries of visited vertices alone.
proof fn lemma_parent_chain_keep(p: Seq<VisitStatus>, p1: Seq<VisitStatus>, s: NodeId, x: NodeId, k: nat)
    requires
        parent_chain(p, s, x, k),
        p1.len() == p.len(),
        forall|y: NodeId| #[trigger] visited(p, y) ==> p1[y as int] == p[y as int],
    ensures
        parent_chain(p1, s, x, k),
    decreases k,
{
    if x != s {
        assert(visited(p, x));
        let u = p[x as int]->Positive_0;
        lemma_parent_chain_keep(p, p1, s, u, (k - 1) as nat);
    }
}

/// Rootedness survives giving the unvisited `v` a visited parent `u`.
proof fn lemma_rooted_update(p: Seq<VisitStatus>, s: NodeId, n: nat, v: NodeId, u: NodeId)
    requires
        parents_rooted(p, s, n),
        v < p.len(),
        !visited(p, v),
        u < n,
        visited(p, u),
    ensures
        parents_rooted(p.update(v as int, VisitStatus::Positive(u)), s, n),
{
    let p1 = p.update(v as int, VisitStatus::Positive(u));
    assert forall|y: NodeId| #[trigger] visited(p, y) implies p1[y as int] == p[y as int] by {}
    assert forall|x: NodeId| x < n && #[trigger] visited(p1, x) implies exists|k: nat| parent_chain(p1, s, x, k) by {
        let w = if x == v { u } else { x };
        assert(visited(p, w));
        let k = choose|k: nat| parent_chain(p, s, w, k);
        lemma_parent_chain_keep(p, p1, s, w, k);
        if x == v {
            assert(parent_chain(p1, s, v, k + 1));
        }
    }
}

/// A top-down step over edges that leave visited vertices keeps the
/// search tree, keeps every visit, and visits every vertex it records.
proof fn lemma_top_down_parents<V: AsNode, E: AsNode, G: CSRGraph<V, E>>(
    g: &G,
    s: NodeId,
    p0: Seq<VisitStatus>,
    pairs: Seq<(NodeId, NodeId)>,
)
    requires
        parents_valid(g, s, p0),
        parents_rooted(p0, s, g.spec_num_nodes()),
        forall|i: int|
            0 <= i < pairs.len() ==> #[trigger] pairs[i].0 < g.spec_num_nodes() && visited(p0, pairs[i].0)
                && g.spec_out(pairs[i].0).contains(pairs[i].1),
    ensures
        parents_valid(g, s, top_down(p0, pairs).0),
        parents_rooted(top_down(p0, pairs).0, s, g.spec_num_nodes()),
        forall|x: NodeId| #[trigger] visited(p0, x) ==> visited(top_down(p0, pairs).0, x),
        forall|i: int|
            0 <= i < top_down(p0, pairs).1.len() ==> visited(top_down(p0, pairs).0, #[trigger] top_down(p0, pairs).1[i]),
    decreases pairs.len(),
{
    if pairs.len() > 0 {
        let q = pairs.drop_last();
        assert forall|i: int| 0 <= i < q.len() implies #[trigger] q[i].0 < g.spec_num_nodes() && visited(p0, q[i].0)
            && g.spec_out(q[i].0).contains(q[i].1) by {
            assert(q[i] == pairs[i]);
        }
        lemma_top_down_parents(g, s, p0, q);
        let (p, f, c) = top_down(p0, q);
        let (u, v) = pairs.last();
        assert(pairs[pairs.len() - 1] == (u, v));
        if v < p.len() && pending_degree(p[v as int]) != 0 {
            let p1 = p.update(v as int, VisitStatus::Positive(u));
            assert(visited(p0, u));
            assert(visited(p, u));
            assert(visited(p1, u));
            lemma_rooted_update(p, s, g.spec_num_nodes(), v, u);
            assert forall|x: NodeId| x < g.spec_num_nodes() && x != s && #[trigger] visited(p1, x) implies parent_edge(
                g,
                p1,
                x,
            ) by {
                if x != v {
                    assert(visited(p, x));
                    assert(parent_edge(g, p, x));
                    let w = p[x as int]->Positive_0;
                    assert(visited(p, w));
                    assert(visited(p1, w));
                }
            }
            assert forall|x: NodeId| #[trigger] visited(p0, x) implies visited(p1, x) by {
                assert(visited(p, x));
            }
            let f1 = f.push(v);
            assert forall|i: int| 0 <= i < f1.len() implies visited(p1, #[trigger] f1[i]) by {
                if i < f.len() {
                    assert(f1[i] == f[i]);
                    assert(visited(p, f[i]));
                }
            }
        }
    }
}

/// A bottom-up step from a frontier of visited vertices keeps the search
/// tree, keeps every visit, and marks only visited vertices.
proof fn lemma_bottom_up_parents<V: AsNode, E: AsNode, G: CSRGraph<V, E>>(
    g: &G,
    s: NodeId,
    p0: Seq<VisitStatus>,
    front: Seq<bool>,
    next0: Seq<bool>,
    vs: Seq<NodeId>,
)
    requires
        parents_valid(g, s, p0),
        parents_rooted(p0, s, g.spec_num_nodes()),
        forall|x: int| 0 <= x < front.len() && #[trigger] front[x] ==> x < g.spec_num_nodes() && visited(p0, x as NodeId),
        forall|x: int| 0 <= x < next0.len() && #[trigger] next0[x] ==> visited(p0, x as NodeId),
    ensures
        parents_valid(g, s, bottom_up(g, p0, front, next0, vs).0),
        parents_rooted(bottom_up(g, p0, front, next0, vs).0, s, g.spec_num_nodes()),
        forall|x: NodeId| #[trigger] visited(p0, x) ==> visited(bottom_up(g, p0, front, next0, vs).0, x),
        forall|x: int|
            0 <= x < bottom_up(g, p0, front, next0, vs).1.len() && #[trigger] bottom_up(g, p0, front, next0, vs).1[x]
                ==> visited(bottom_up(g, p0, front, next0, vs).0, x as NodeId),
    decreases vs.len(),
{
    if vs.len() > 0 {
        let ws = vs.drop_last();
        lemma_bottom_up_parents(g, s, p0, front, next0, ws);
        let (p, nx, a) = bottom_up(g, p0, front, next0, ws);
        let u = vs.last();
        if u < p.len() && pending_degree(p[u as int]) != 0 {
            match first_in_frontier(front, g.spec_in(u), 0) {
                Some(v) => {
                    if v < p.len() && u < nx.len() {
                        lemma_first_in_frontier_member(front, g.spec_in(u), 0);
                        lemma_first_in_frontier_set(front, g.spec_in(u), 0);
                        assert(front[v as int]);
                        assert(visited(p0, v));
                        assert(visited(p, v));
                        let p1 = p.update(u as int, VisitStatus::Positive(v));
                        let n1 = nx.update(u as int, true);
                        assert(visited(p1, v));
                        lemma_rooted_update(p, s, g.spec_num_nodes(), u, v);
                        assert forall|x: NodeId| x < g.spec_num_nodes() && x != s && #[trigger] visited(p1, x) implies parent_edge(
                            g,
                            p1,
                            x,
                        ) by {
                            if x != u {
                                assert(visited(p, x));
                                assert(parent_edge(g, p, x));
                                let w = p[x as int]->Positive_0;
                                assert(visited(p, w));
                                assert(visited(p1, w));
                            }
                        }
                        assert forall|x: NodeId| #[trigger] visited(p0, x) implies visited(p1, x) by {
                            assert(visited(p, x));
                        }
                        assert forall|x: int| 0 <= x < n1.len() && #[trigger] n1[x] implies visited(p1, x as NodeId) by {
                            if x != u {
                                assert(nx[x]);
                                assert(visited(p, x as NodeId));
                            }
                        }
                    }
                },
                None => {},
            }
        }
    }
}

/// A bottom-up step visits a vertex only through an in-edge from a visited
/// frontier vertex, keeps every visit, and sets only bits of visited
/// vertices.
proof fn lemma_bottom_up_sound<V: AsNode, E: AsNode, G: CSRGraph<V, E>>(
    g: &G,
    s: NodeId,
    p0: Seq<VisitStatus>,
    front: Seq<bool>,
    next0: Seq<bool>,
    vs: Seq<NodeId>,
)
    requires
        bfs_ready(g),
        in_matches_out(g),
        visited_reached(g, s, p0),
        forall|x: int| 0 <= x < front.len() && #[trigger] front[x] ==> x < g.spec_num_nodes() && visited(p0, x as NodeId),
        forall|x: int| 0 <= x < next0.len() && #[trigger] next0[x] ==> visited(p0, x as NodeId),
        forall|k: int| 0 <= k < vs.len() ==> #[trigger] vs[k] < g.spec_num_nodes(),
    ensures
        visited_reached(g, s, bottom_up(g, p0, front, next0, vs).0),
        forall|x: NodeId| #[trigger] visited(p0, x) ==> visited(bottom_up(g, p0, front, next0, vs).0, x),
        forall|x: int|
            0 <= x < bottom_up(g, p0, front, next0, vs).1.len() && #[trigger] bottom_up(g, p0, front, next0, vs).1[x]
                ==> visited(bottom_up(g, p0, front, next0, vs).0, x as NodeId),
    decreases vs.len(),
{
    if vs.len() > 0 {
        let ws = vs.drop_last();
        assert forall|k: int| 0 <= k < ws.len() implies #[trigger] ws[k] < g.spec_num_nodes() by {
            assert(ws[k] == vs[k]);
        }
        lemma_bottom_up_sound(g, s, p0, front, next0, ws);
        let (p, nx, a) = bottom_up(g, p0, front, next0, ws);
        let u = vs.last();
        assert(vs[vs.len() - 1] == u);
        if u < p.len() && pending_degree(p[u as int]) != 0 {
            match first_in_frontier(front, g.spec_in(u), 0) {
                Some(v) => {
                    if v < p.len() && u < nx.len() {
                        lemma_first_in_frontier_member(front, g.spec_in(u), 0);
                        lemma_first_in_frontier_set(front, g.spec_in(u), 0);
                        assert(front[v as int]);
                        assert(visited(p0, v));
                        assert(visited(p, v));
                        assert(v < g.spec_num_nodes());
                        assert(reached(g, s, v));
                        assert(g.spec_out(v).contains(u));
                        lemma_reached_step(g, s, v, u);
                        let p1 = p.update(u as int, VisitStatus::Positive(v));
                        let n1 = nx.update(u as int, true);
                        assert forall|x: NodeId| x < g.spec_num_nodes() && #[trigger] visited(p1, x) implies reached(g, s, x) by {
                            if x != u {
                                assert(visited(p, x));
                            }
                        }
                        assert forall|x: NodeId| #[trigger] visited(p0, x) implies visited(p1, x) by {
                            assert(visited(p, x));
                            if x == u {
                                assert(p[u as int] is Positive);
                            }
                        }
                        assert forall|x: int| 0 <= x < n1.len() && #[trigger] n1[x] implies visited(p1, x as NodeId) by {
                            if x != u {
                                assert(nx[x]);
                                assert(visited(p, x as NodeId));
                            }
                        }
                    }
                },
                None => {},
            }
        }
    }
}

proof fn lemma_with_bits_set_origin(bits: Seq<bool>, us: Seq<NodeId>, x: int)
    requires
        0 <= x < with_bits_set(bits, us).len(),
        with_bits_set(bits, us)[x],
    ensures
        (x < bits.len() && bits[x]) || us.contains(x as NodeId),
    decreases us.len(),
{
    lemma_with_bits_set_len(bits, us);
    if us.len() > 0 {
        let r = with_bits_set(bits, us.drop_last());
        lemma_with_bits_set_len(bits, us.drop_last());
        if us.last() < r.len() && x == us.last() {
            assert(us[us.len() - 1] == x as NodeId);
        } else {
            assert(r[x]);
            lemma_with_bits_set_origin(bits, us.drop_last(), x);
            if us.drop_last().contains(x as NodeId) {
                let k = choose|k: int| 0 <= k < us.drop_last().len() && us.drop_last()[k] == x as NodeId;
                assert(us[k] == x as NodeId);
            }
        }
    }
}

proof fn lemma_with_bits_set_has(bits: Seq<bool>, us: Seq<NodeId>, k: int)
    requires
        0 <= k < us.len(),
        us[k] < bits.len(),
    ensures
        with_bits_set(bits, us)[us[k] as int],
    decreases us.len(),
{
    lemma_with_bits_set_len(bits, us);
    let r = with_bits_set(bits, us.drop_last());
    lemma_with_bits_set_len(bits, us.drop_last());
    if k == us.len() - 1 {
        assert(with_bits_set(bits, us) == r.update(us.last() as int, true));
    } else {
        assert(us.drop_last()[k] == us[k]);
        lemma_with_bits_set_has(bits, us.drop_last(), k);
        if us.last() < r.len() {
            assert(with_bits_set(bits, us) == r.update(us.last() as int, true));
        }
    }
}

proof fn lemma_set_positions_origin(bits: Seq<bool>, m: int, k: int)
    requires
        0 <= k < set_positions(bits, m).len(),
        m <= usize::MAX,
    ensures
        set_positions(bits, m)[k] < bits.len(),
        bits[set_positions(bits, m)[k] as int],
    decreases m,
{
    if m > 0 {
        let r = set_positions(bits, m - 1);
        if m - 1 < bits.len() && bits[m - 1] {
            let t = r.push((m - 1) as NodeId);
            assert(set_positions(bits, m) == t);
            if k < r.len() {
                assert(t[k] == r[k]);
                lemma_set_positions_origin(bits, m - 1, k);
            } else {
                assert(t[k] == (m - 1) as NodeId);
            }
        } else {
            assert(set_positions(bits, m) == r);
            lemma_set_positions_origin(bits, m - 1, k);
        }
    }
}

/// No vertex below `n` is unvisited with a recorded degree of 0.
pub open spec fn degrees_recorded(n: nat, p: Seq<VisitStatus>) -> bool {
    &&& p.len() >= n
    &&& forall|x: NodeId| x < n && !#[trigger] visited(p, x) ==> pending_degree(p[x as int]) != 0
}

/// Every out-neighbour of `x` has been visited.
pub open spec fn out_visited<V: AsNode, E: AsNode, G: CSRGraph<V, E>>(g: &G, p: Seq<VisitStatus>, x: NodeId) -> bool {
    forall|j: int| 0 <= j < g.spec_out(x).len() ==> visited(p, #[trigger] g.spec_out(x)[j])
}

/// A top-down step visits the end of every edge it scans.
proof fn lemma_top_down_complete(n: nat, p0: Seq<VisitStatus>, pairs: Seq<(NodeId, NodeId)>)
    requires
        degrees_recorded(n, p0),
        forall|i: int| 0 <= i < pairs.len() ==> #[trigger] pairs[i].1 < n,
    ensures
        degrees_recorded(n, top_down(p0, pairs).0),
        forall|x: NodeId| #[trigger] visited(p0, x) ==> visited(top_down(p0, pairs).0, x),
        forall|i: int| 0 <= i < pairs.len() ==> visited(top_down(p0, pairs).0, #[trigger] pairs[i].1),
        forall|x: NodeId|
            #[trigger] visited(top_down(p0, pairs).0, x) && !visited(p0, x) ==> top_down(p0, pairs).1.contains(x),
        forall|i: int|
            0 <= i < top_down(p0, pairs).1.len() ==> !visited(p0, #[trigger] top_down(p0, pairs).1[i])
                && visited(top_down(p0, pairs).0, top_down(p0, pairs).1[i]),
        forall|x: NodeId| #[trigger] visited(p0, x) ==> top_down(p0, pairs).0[x as int] == p0[x as int],
    decreases pairs.len(),
{
    lemma_top_down_len(p0, pairs);
    if pairs.len() > 0 {
        let q = pairs.drop_last();
        assert forall|i: int| 0 <= i < q.len() implies #[trigger] q[i].1 < n by {
            assert(q[i] == pairs[i]);
        }
        lemma_top_down_complete(n, p0, q);
        lemma_top_down_len(p0, q);
        let (p, f, c) = top_down(p0, q);
        let (u, v) = pairs.last();
        assert(pairs[pairs.len() - 1] == (u, v));
        let r = top_down(p0, pairs).0;
        assert forall|x: NodeId| #[trigger] visited(p, x) implies visited(r, x) by {
            if v < p.len() && pending_degree(p[v as int]) != 0 && x == v {
            }
        }
        assert forall|x: NodeId| x < n && !#[trigger] visited(r, x) implies pending_degree(r[x as int]) != 0 by {
            assert(!visited(p, x));
        }
        assert(visited(r, v)) by {
            if !visited(p, v) {
                assert(pending_degree(p[v as int]) != 0);
            }
        }
        assert forall|i: int| 0 <= i < pairs.len() implies visited(r, #[trigger] pairs[i].1) by {
            if i < q.len() {
                assert(q[i] == pairs[i]);
                assert(visited(p, q[i].1));
            }
        }
        let rf = top_down(p0, pairs).1;
        assert forall|i: int| 0 <= i < rf.len() implies !visited(p0, #[trigger] rf[i]) && visited(r, rf[i]) by {
            if i < f.len() {
                assert(rf[i] == f[i]);
                assert(visited(p, f[i]));
            } else {
                assert(rf == f.push(v));
                assert(rf[i] == v);
                assert(!visited(p, v));
            }
        }
        assert forall|x: NodeId| #[trigger] visited(p0, x) implies r[x as int] == p0[x as int] by {
            assert(visited(p, x));
        }
        assert forall|x: NodeId| #[trigger] visited(r, x) && !visited(p0, x) implies rf.contains(x) by {
            if visited(p, x) {
                assert(f.contains(x));
                let k = choose|k: int| 0 <= k < f.len() && f[k] == x;
                if rf != f {
                    assert(rf == f.push(v));
                    assert(rf[k] == x);
                }
            } else {
                assert(x == v);
                assert(rf == f.push(v));
                assert(rf[f.len() as int] == v);
            }
        }
    }
}

/// The edges a top-down step scans include every out-edge of the frontier.
proof fn lemma_frontier_edges_cover<V: AsNode, E: AsNode, G: CSRGraph<V, E>>(g: &G, us: Seq<NodeId>, k: int, j: int)
    requires
        0 <= k < us.len(),
        0 <= j < g.spec_out(us[k]).len(),
    ensures
        frontier_edges(g, us).contains((us[k], g.spec_out(us[k])[j])),
    decreases us.len(),
{
    let a = frontier_edges(g, us.drop_last());
    let u = us.last();
    let b = g.spec_out(u).map_values(|v: NodeId| (u, v));
    assert(frontier_edges(g, us) == a + b);
    if k == us.len() - 1 {
        assert((a + b)[a.len() + j] == b[j]);
        assert(b[j] == (u, g.spec_out(u)[j]));
    } else {
        assert(us.drop_last()[k] == us[k]);
        lemma_frontier_edges_cover(g, us.drop_last(), k, j);
        let i = choose|i: int| 0 <= i < a.len() && a[i] == (us[k], g.spec_out(us[k])[j]);
        assert((a + b)[i] == a[i]);
    }
}

proof fn lemma_first_in_frontier_some(bits: Seq<bool>, s: Seq<NodeId>, j: int, k: int)
    requires
        0 <= j <= k < s.len(),
        s[k] < bits.len(),
        bits[s[k] as int],
    ensures
        first_in_frontier(bits, s, j) is Some,
    decreases k - j,
{
    if !(s[j] < bits.len() && bits[s[j] as int]) {
        lemma_first_in_frontier_some(bits, s, j + 1, k);
    }
}

/// Out-edges are in-edges turned round: every out-edge `x -> y` is an
/// in-edge of `y`.
pub open spec fn out_edges_mirrored<V: AsNode, E: AsNode, G: CSRGraph<V, E>>(g: &G) -> bool {
    forall|x: NodeId, y: NodeId|
        x < g.spec_num_nodes() && y < g.spec_num_nodes() && #[trigger] g.spec_out(x).contains(y)
            ==> g.spec_in(y).contains(x)
}

/// A bottom-up step visits every vertex of `vs` that has an in-neighbour
/// in the frontier, and marks in `next` each vertex it visits.
proof fn lemma_bottom_up_complete<V: AsNode, E: AsNode, G: CSRGraph<V, E>>(
    g: &G,
    p0: Seq<VisitStatus>,
    front: Seq<bool>,
    next0: Seq<bool>,
    vs: Seq<NodeId>,
)
    requires
        bfs_ready(g),
        degrees_recorded(g.spec_num_nodes(), p0),
        next0.len() >= g.spec_num_nodes(),
        forall|k: int| 0 <= k < vs.len() ==> #[trigger] vs[k] < g.spec_num_nodes(),
    ensures
        degrees_recorded(g.spec_num_nodes(), bottom_up(g, p0, front, next0, vs).0),
        forall|x: NodeId| #[trigger] visited(p0, x) ==> visited(bottom_up(g, p0, front, next0, vs).0, x),
        forall|x: NodeId|
            x < g.spec_num_nodes() && #[trigger] visited(bottom_up(g, p0, front, next0, vs).0, x) && !visited(p0, x)
                ==> bottom_up(g, p0, front, next0, vs).1[x as int],
        forall|x: int|
            0 <= x < bottom_up(g, p0, front, next0, vs).1.len() && #[trigger] bottom_up(g, p0, front, next0, vs).1[x]
                && !next0[x] ==> x < g.spec_num_nodes() && visited(bottom_up(g, p0, front, next0, vs).0, x as NodeId)
                && !visited(p0, x as NodeId),
        forall|x: NodeId| #[trigger] visited(p0, x) ==> bottom_up(g, p0, front, next0, vs).0[x as int] == p0[x as int],
        forall|k: int, m: int|
            #![trigger g.spec_in(vs[k])[m]]
            0 <= k < vs.len() && 0 <= m < g.spec_in(vs[k]).len() && g.spec_in(vs[k])[m] < front.len()
                && front[g.spec_in(vs[k])[m] as int] ==> visited(bottom_up(g, p0, front, next0, vs).0, vs[k]),
    decreases vs.len(),
{
    lemma_bottom_up_shape(g, p0, front, next0, vs);
    if vs.len() > 0 {
        let ws = vs.drop_last();
        assert forall|k: int| 0 <= k < ws.len() implies #[trigger] ws[k] < g.spec_num_nodes() by {
            assert(ws[k] == vs[k]);
        }
        lemma_bottom_up_complete(g, p0, front, next0, ws);
        lemma_bottom_up_shape(g, p0, front, next0, ws);
        let (p, nx, a) = bottom_up(g, p0, front, next0, ws);
        let r = bottom_up(g, p0, front, next0, vs);
        let u = vs.last();
        assert(vs[vs.len() - 1] == u);
        assert(u < g.spec_num_nodes());
        assert forall|x: NodeId| #[trigger] visited(p, x) implies visited(r.0, x) by {
            if r.0 != p {
                assert(r.0 == p.update(u as int, VisitStatus::Positive(first_in_frontier(front, g.spec_in(u), 0)->0)));
            }
        }
        assert forall|x: NodeId| x < g.spec_num_nodes() && !#[trigger] visited(r.0, x) implies pending_degree(r.0[x as int]) != 0 by {
            assert(!visited(p, x));
        }
        assert forall|x: NodeId|
            x < g.spec_num_nodes() && #[trigger] visited(r.0, x) && !visited(p0, x) implies r.1[x as int] by {
            if visited(p, x) {
                assert(nx[x as int]);
                assert(r.1 == nx || r.1 == nx.update(u as int, true));
            } else {
                assert(x == u);
            }
        }
        assert forall|x: int|
            0 <= x < r.1.len() && #[trigger] r.1[x] && !next0[x] implies x < g.spec_num_nodes() && visited(r.0, x as NodeId)
                && !visited(p0, x as NodeId) by {
            if r.1 != nx && x == u {
                assert(r.0 == p.update(u as int, VisitStatus::Positive(first_in_frontier(front, g.spec_in(u), 0)->0)));
                assert(!visited(p, u));
            } else {
                assert(r.1 == nx || r.1 == nx.update(u as int, true));
                assert(nx[x]);
                assert(visited(p, x as NodeId));
            }
        }
        assert forall|x: NodeId| #[trigger] visited(p0, x) implies r.0[x as int] == p0[x as int] by {
            assert(visited(p, x));
            if r.0 != p {
                assert(r.0 == p.update(u as int, VisitStatus::Positive(first_in_frontier(front, g.spec_in(u), 0)->0)));
                assert(!visited(p, u));
            }
        }
        assert forall|k: int, m: int|
            #![trigger g.spec_in(vs[k])[m]]
            0 <= k < vs.len() && 0 <= m < g.spec_in(vs[k]).len() && g.spec_in(vs[k])[m] < front.len()
                && front[g.spec_in(vs[k])[m] as int] implies visited(r.0, vs[k]) by {
            if k < ws.len() {
                assert(ws[k] == vs[k]);
                assert(g.spec_in(ws[k])[m] == g.spec_in(vs[k])[m]);
                assert(visited(p, ws[k]));
            } else {
                assert(vs[k] == u);
                if !visited(p, u) {
                    assert(pending_degree(p[u as int]) != 0);
                    lemma_first_in_frontier_some(front, g.spec_in(u), 0, m);
                    lemma_first_in_frontier_member(front, g.spec_in(u), 0);
                    let v = first_in_frontier(front, g.spec_in(u), 0)->0;
                    assert(g.spec_in(u).contains(v));
                    let t = choose|t: int| 0 <= t < g.spec_in(u).len() && g.spec_in(u)[t] == v;
                    assert(v < g.spec_num_nodes());
                    assert(u < nx.len());
                }
            }
        }
    }
}

/// A bottom-up step keeps every visit.
proof fn lemma_bottom_up_sound_mono<V: AsNode, E: AsNode, G: CSRGraph<V, E>>(
    g: &G,
    p0: Seq<VisitStatus>,
    front: Seq<bool>,
    next0: Seq<bool>,
    vs: Seq<NodeId>,
)
    ensures
        forall|x: NodeId| #[trigger] visited(p0, x) ==> visited(bottom_up(g, p0, front, next0, vs).0, x),
    decreases vs.len(),
{
    if vs.len() > 0 {
        lemma_bottom_up_sound_mono(g, p0, front, next0, vs.drop_last());
        let (p, nx, a) = bottom_up(g, p0, front, next0, vs.drop_last());
        let u = vs.last();
        let r = bottom_up(g, p0, front, next0, vs);
        assert forall|x: NodeId| #[trigger] visited(p0, x) implies visited(r.0, x) by {
            assert(visited(p, x));
            if r.0 != p {
                assert(r.0 == p.update(u as int, VisitStatus::Positive(first_in_frontier(front, g.spec_in(u), 0)->0)));
            }
        }
    }
}

proof fn lemma_set_positions_contains(bits: Seq<bool>, m: int, x: int)
    requires
        0 <= x < m,
        m <= usize::MAX,
        x < bits.len(),
        bits[x],
    ensures
        set_positions(bits, m).contains(x as NodeId),
    decreases m,
{
    let r = set_positions(bits, m - 1);
    if x == m - 1 {
        assert(set_positions(bits, m) == r.push((m - 1) as NodeId));
        assert(set_positions(bits, m)[r.len() as int] == x as NodeId);
    } else {
        lemma_set_positions_contains(bits, m - 1, x);
        let i = choose|i: int| 0 <= i < r.len() && r[i] == x as NodeId;
        if m - 1 < bits.len() && bits[m - 1] {
            assert(set_positions(bits, m) == r.push((m - 1) as NodeId));
            assert(set_positions(bits, m)[i] == x as NodeId);
        } else {
            assert(set_positions(bits, m) == r);
        }
    }
}

/// Number of unvisited vertices below `m`.
pub open spec fn unvisited_count(p: Seq<VisitStatus>, m: int) -> nat
    decreases m,
{
    if m <= 0 {
        0
    } else {
        unvisited_count(p, m - 1) + if visited(p, (m - 1) as NodeId) {
            0nat
        } else {
            1nat
        }
    }
}

/// Visiting more vertices lowers the count, strictly where one below `m`
/// is new.
proof fn lemma_unvisited_count(p0: Seq<VisitStatus>, p1: Seq<VisitStatus>, m: int)
    requires
        m <= usize::MAX + 1,
        forall|x: NodeId| #[trigger] visited(p0, x) ==> visited(p1, x),
    ensures
        unvisited_count(p1, m) <= unvisited_count(p0, m),
        (exists|x: NodeId| x < m && #[trigger] visited(p1, x) && !visited(p0, x)) ==> unvisited_count(p1, m)
            < unvisited_count(p0, m),
    decreases m,
{
    if m > 0 {
        lemma_unvisited_count(p0, p1, m - 1);
        if exists|x: NodeId| x < m && #[trigger] visited(p1, x) && !visited(p0, x) {
            let x = choose|x: NodeId| x < m && #[trigger] visited(p1, x) && !visited(p0, x);
            if x < m - 1 {
                assert(exists|y: NodeId| y < m - 1 && #[trigger] visited(p1, y) && !visited(p0, y));
            } else {
                assert(x == (m - 1) as NodeId);
            }
        }
    }
}

/// What the search needs to visit every reachable vertex: a ready graph
/// whose out-edges appear among the in-edges and whose `vertices` hands
/// out every vertex.
pub open spec fn search_ready<V: AsNode, E: AsNode, G: CSRGraph<V, E>>(g: &G) -> bool {
    &&& bfs_ready(g)
    &&& out_edges_mirrored(g)
    &&& forall|u: NodeId| u < g.spec_num_nodes() ==> #[trigger] g.spec_vertices().contains(u)
}

/// The state of a direction-optimizing search between two steps.
pub struct BfsState {
    /// The vertex the search started from.
    pub source: NodeId,
    pub parent: Vec<VisitStatus>,
    pub queue: SlidingQueue<NodeId>,
    pub curr: BitVec,
    pub front: BitVec,
    pub edges_to_check: usize,
    pub scout_count: usize,
}

impl BfsState {
    /// Sizes fit the graph, and every queued vertex and every set bit is a
    /// vertex.
    pub open spec fn inv<V: AsNode, E: AsNode, G: CSRGraph<V, E>>(&self, g: &G) -> bool {
        &&& self.parent@.len() >= 10 * g.spec_num_nodes()
        &&& bitvec_bits(self.curr).len() == 10 * g.spec_num_nodes()
        &&& bitvec_bits(self.front).len() == 10 * g.spec_num_nodes()
        &&& forall|i: int|
            0 <= i < self.queue.items().len() ==> #[trigger] self.queue.items()[i]
                < g.spec_num_nodes()
        &&& forall|i: int|
            0 <= i < bitvec_bits(self.curr).len() && #[trigger] bitvec_bits(self.curr)[i] ==> i
                < g.spec_num_nodes()
        &&& forall|i: int|
            0 <= i < bitvec_bits(self.front).len() && #[trigger] bitvec_bits(self.front)[i] ==> i
                < g.spec_num_nodes()
    }

    /// Every vertex the search has given a parent is reached from the
    /// source, and every queued vertex and every set bit has a parent.
    pub open spec fn visited_reachable<V: AsNode, E: AsNode, G: CSRGraph<V, E>>(&self, g: &G) -> bool {
        &&& visited_reached(g, self.source, self.parent@)
        &&& forall|i: int|
            0 <= i < self.queue.items().len() ==> visited(self.parent@, #[trigger] self.queue.items()[i])
        &&& forall|x: int|
            0 <= x < bitvec_bits(self.curr).len() && #[trigger] bitvec_bits(self.curr)[x] ==> visited(
                self.parent@,
                x as NodeId,
            )
        &&& forall|x: int|
            0 <= x < bitvec_bits(self.front).len() && #[trigger] bitvec_bits(self.front)[x] ==> visited(
                self.parent@,
                x as NodeId,
            )
    }

    /// The parent entries form a search tree, and every queued vertex and
    /// every set bit is visited.
    pub open spec fn tree_ok<V: AsNode, E: AsNode, G: CSRGraph<V, E>>(&self, g: &G) -> bool {
        &&& parents_valid(g, self.source, self.parent@)
        &&& parents_rooted(self.parent@, self.source, g.spec_num_nodes())
        &&& forall|i: int|
            0 <= i < self.queue.items().len() ==> visited(self.parent@, #[trigger] self.queue.items()[i])
        &&& forall|x: int|
            0 <= x < bitvec_bits(self.curr).len() && #[trigger] bitvec_bits(self.curr)[x] ==> visited(
                self.parent@,
                x as NodeId,
            )
        &&& forall|x: int|
            0 <= x < bitvec_bits(self.front).len() && #[trigger] bitvec_bits(self.front)[x] ==> visited(
                self.parent@,
                x as NodeId,
            )
    }

    /// Unvisited vertices keep a non-zero degree, the source is its own
    /// parent, and the queue's cursors stand at its end.
    pub open spec fn tidy<V: AsNode, E: AsNode, G: CSRGraph<V, E>>(&self, g: &G) -> bool {
        &&& degrees_recorded(g.spec_num_nodes(), self.parent@)
        &&& visited(self.parent@, self.source)
        &&& self.parent@[self.source as int] == VisitStatus::Positive(self.source)
        &&& self.queue.pushed() == self.queue.items().len()
        &&& self.queue.out_end() == self.queue.items().len()
    }

    /// Every visited vertex has its out-neighbours visited or waits in the
    /// window, and the state is tidy.
    pub open spec fn frontier_closed<V: AsNode, E: AsNode, G: CSRGraph<V, E>>(&self, g: &G) -> bool {
        &&& self.tidy(g)
        &&& forall|x: NodeId|
            x < g.spec_num_nodes() && #[trigger] visited(self.parent@, x) ==> out_visited(g, self.parent@, x)
                || self.queue.window().contains(x)
    }

    /// When the search is over, the visited vertices below `n` are exactly
    /// those reached from the source.
    pub proof fn lemma_done_visits_reachable<V: AsNode, E: AsNode, G: CSRGraph<V, E>>(&self, g: &G)
        requires
            bfs_ready(g),
            self.source < g.spec_num_nodes(),
            self.frontier_closed(g),
            self.visited_reachable(g),
            self.queue.out_start() == self.queue.out_end(),
        ensures
            forall|x: NodeId| x < g.spec_num_nodes() ==> (#[trigger] visited(self.parent@, x) <==> reached(g, self.source, x)),
    {
        assert(self.queue.window().len() == 0);
        assert forall|x: NodeId| x < g.spec_num_nodes() implies (#[trigger] visited(self.parent@, x) <==> reached(
            g,
            self.source,
            x,
        )) by {
            if reached(g, self.source, x) {
                let k = choose|k: nat| #[trigger] reaches_within(g, self.source, x, k);
                self.lemma_reach_visited(g, x, k);
            }
        }
    }

    proof fn lemma_reach_visited<V: AsNode, E: AsNode, G: CSRGraph<V, E>>(&self, g: &G, x: NodeId, k: nat)
        requires
            bfs_ready(g),
            self.source < g.spec_num_nodes(),
            self.frontier_closed(g),
            self.queue.window().len() == 0,
            reaches_within(g, self.source, x, k),
        ensures
            x < g.spec_num_nodes(),
            visited(self.parent@, x),
        decreases k,
    {
        if k > 0 {
            if reaches_within(g, self.source, x, (k - 1) as nat) {
                self.lemma_reach_visited(g, x, (k - 1) as nat);
            } else {
                let u = choose|u: NodeId| reaches_within(g, self.source, u, (k - 1) as nat) && #[trigger] g.spec_out(u).contains(x);
                self.lemma_reach_visited(g, u, (k - 1) as nat);
                let j = choose|j: int| 0 <= j < g.spec_out(u).len() && g.spec_out(u)[j] == x;
                assert(!self.queue.window().contains(u));
                assert(out_visited(g, self.parent@, u));
                assert(visited(self.parent@, g.spec_out(u)[j]));
            }
        }
    }

    proof fn lemma_window_in_graph<V: AsNode, E: AsNode, G: CSRGraph<V, E>>(&self, g: &G)
        requires
            self.inv(g),
        ensures
            forall|i: int|
                0 <= i < self.queue.window().len() ==> #[trigger] self.queue.window()[i]
                    < g.spec_num_nodes(),
    {
        assert forall|i: int| 0 <= i < self.queue.window().len() implies #[trigger] self.queue.window()[i]
            < g.spec_num_nodes() by {
            lemma_window_members(
                self.queue.items(),
                self.queue.out_start() as int,
                self.queue.out_end() as int,
                i,
            );
        }
    }

    /// The search from `source` before its first step: `parent` from
    /// `init_parent` with `source` its own parent, `source` alone in the
    /// window, empty bitmaps of `10 * n` bits, all directed edges left to
    /// check and the out-degree of `source` as the scout count.
    pub fn new<V: AsNode, E: AsNode, G: CSRGraph<V, E>>(graph: &G, source: NodeId) -> (s: Self)
        requires
            bfs_ready(graph),
            source < graph.spec_num_nodes(),
            10 * graph.spec_num_nodes() <= usize::MAX,
            graph.spec_num_edges_directed() <= usize::MAX,
        ensures
            s.inv(graph),
            s.parent@ == initial_parent(graph).update(
                source as int,
                VisitStatus::Positive(source),
            ),
            s.queue.window() == seq![source],
            bitvec_bits(s.curr) == Seq::new(10 * graph.spec_num_nodes(), |i: int| false),
            bitvec_bits(s.front) == Seq::new(10 * graph.spec_num_nodes(), |i: int| false),
            s.edges_to_check == graph.spec_num_edges_directed(),
            s.scout_count == graph.spec_out(source).len(),
            s.source == source,
            s.visited_reachable(graph),
            s.frontier_closed(graph),
            s.tree_ok(graph),
    {
        let n = graph.num_nodes();
        proof {
            assert forall|i: int| 0 <= i < graph.spec_vertices().len() implies #[trigger] graph.spec_vertices()[i]
                < 10 * graph.spec_num_nodes() && graph.spec_has_vertex(graph.spec_vertices()[i]) by {}
        }
        let mut parent = init_parent(graph);
        parent.set(source, VisitStatus::Positive(source));
        let mut queue: SlidingQueue<NodeId> = SlidingQueue::with_capacity(n);
        queue.push_back(source);
        queue.slide_window();
        proof {
            vstd::arithmetic::div_mod::lemma_small_mod(1, usize::MAX as nat + 1);
            assert(queue.items() =~= seq![source]);
            assert(queue.window() =~= seq![source]);
        }
        let curr = bv_from_elem(n * 10, false);
        let front = bv_from_elem(n * 10, false);
        let edges_to_check = graph.num_edges_directed();
        let scout_count = graph.out_degree(source);
        let s = BfsState { source, parent, queue, curr, front, edges_to_check, scout_count };
        proof {
            lemma_reached_source(graph, source);
            assert forall|x: NodeId| x < graph.spec_num_nodes() && #[trigger] visited(s.parent@, x) implies reached(
                graph,
                source,
                x,
            ) by {
                if x != source {
                    assert(s.parent@[x as int] == initial_entry(graph, x));
                }
            }
            assert forall|i: int| 0 <= i < s.queue.items().len() implies visited(s.parent@, #[trigger] s.queue.items()[i]) by {
                assert(s.queue.items()[i] == source);
            }
            assert forall|x: NodeId| x < graph.spec_num_nodes() && x != source && #[trigger] visited(s.parent@, x)
                implies parent_edge(graph, s.parent@, x) by {
                assert(s.parent@[x as int] == initial_entry(graph, x));
            }
            assert forall|x: NodeId| x < graph.spec_num_nodes() && #[trigger] visited(s.parent@, x)
                implies exists|k: nat| parent_chain(s.parent@, source, x, k) by {
                if x != source {
                    assert(s.parent@[x as int] == initial_entry(graph, x));
                }
                assert(parent_chain(s.parent@, source, x, 0));
            }
            assert forall|x: NodeId| x < graph.spec_num_nodes() && !#[trigger] visited(s.parent@, x) implies pending_degree(
                s.parent@[x as int],
            ) != 0 by {
                assert(s.parent@[x as int] == initial_entry(graph, x));
            }
            assert forall|x: NodeId| x < graph.spec_num_nodes() && #[trigger] visited(s.parent@, x) implies out_visited(
                graph,
                s.parent@,
                x,
            ) || s.queue.window().contains(x) by {
                if x != source {
                    assert(s.parent@[x as int] == initial_entry(graph, x));
                }
                assert(s.queue.window()[0] == source);
            }
        }
        s
    }

    /// The search is over when the window is empty.
    pub fn done(&self) -> (b: bool)
        ensures
            b == (self.queue.out_start() == self.queue.out_end()),
    {
        self.queue.empty()
    }

    /// One round of the search. When the scout count exceeds
    /// `edges_to_check / ALPHA` the window goes to the frontier bitmap and
    /// bottom-up steps run (swapping the bitmaps after each) until the
    /// number of awake vertices stops falling or exceeds `n / BETA`; the set
    /// bits then become the window and the scout count is 1. Otherwise the
    /// scout count is taken off `edges_to_check`, a top-down step runs and
    /// the window slides onto what it found.
    #[verifier::spinoff_prover]
    pub fn step<V: AsNode, E: AsNode, G: CSRGraph<V, E>>(&mut self, graph: &G)
        requires
            bfs_ready(graph),
            old(self).inv(graph),
            10 * graph.spec_num_nodes() <= usize::MAX,
        ensures
            final(self).inv(graph),
            final(self).source == old(self).source,
            in_matches_out(graph) && old(self).visited_reachable(graph) ==> final(self).visited_reachable(graph),
            old(self).tree_ok(graph) ==> final(self).tree_ok(graph),
            search_ready(graph) && old(self).frontier_closed(graph) ==> final(self).frontier_closed(graph),
            old(self).tidy(graph) ==> final(self).tidy(graph),
            old(self).tidy(graph) ==> forall|x: NodeId| #[trigger] visited(old(self).parent@, x) ==> visited(final(self).parent@, x),
            old(self).tidy(graph) && old(self).queue.out_start() != old(self).queue.out_end() ==> unvisited_count(
                final(self).parent@,
                graph.spec_num_nodes() as int,
            ) < unvisited_count(old(self).parent@, graph.spec_num_nodes() as int) || (unvisited_count(
                final(self).parent@,
                graph.spec_num_nodes() as int,
            ) == unvisited_count(old(self).parent@, graph.spec_num_nodes() as int) && final(self).queue.out_start()
                == final(self).queue.out_end()),
            old(self).scout_count > old(self).edges_to_check / ALPHA ==> {
                &&& final(self).scout_count == 1
                &&& final(self).edges_to_check == old(self).edges_to_check
                &&& final(self).queue.items() == old(self).queue.items() + set_positions(
                    bitvec_bits(final(self).front),
                    10 * graph.spec_num_nodes() as int,
                )
            },
            old(self).scout_count <= old(self).edges_to_check / ALPHA ==> {
                let (p, f, s) = top_down(
                    old(self).parent@,
                    frontier_edges(graph, old(self).queue.window()),
                );
                &&& final(self).edges_to_check == old(self).edges_to_check - old(self).scout_count
                &&& final(self).scout_count == s
                &&& final(self).parent@ == p
                &&& final(self).queue.items() == old(self).queue.items() + f
                &&& final(self).queue.out_start() == old(self).queue.out_end()
                &&& final(self).queue.out_end() == final(self).queue.pushed()
                &&& bitvec_bits(final(self).curr) == bitvec_bits(old(self).curr)
                &&& bitvec_bits(final(self).front) == bitvec_bits(old(self).front)
            },
    {
        let n = graph.num_nodes();
        let ghost keep = in_matches_out(graph) && self.visited_reachable(graph);
        let ghost tree = self.tree_ok(graph);
        let ghost ready = search_ready(graph) && self.frontier_closed(graph);
        let ghost tidy0 = self.tidy(graph);
        let ghost pstart = self.parent@;
        let ghost src = self.source;
        proof {
            self.lemma_window_in_graph(graph);
        }
        if self.scout_count > self.edges_to_check / ALPHA {
            self.front = bv_from_elem(n * 10, false);
            let ghost b0 = bitvec_bits(self.front);
            queue_to_bitmap(&self.queue, &mut self.front);
            proof {
                lemma_with_bits_set_len(b0, self.queue.window());
                lemma_with_bits_set_bits(b0, self.queue.window(), n as nat);
                if keep || tree {
                    assert forall|x: int| 0 <= x < bitvec_bits(self.front).len() && #[trigger] bitvec_bits(self.front)[x]
                        implies visited(self.parent@, x as NodeId) by {
                        lemma_with_bits_set_origin(b0, self.queue.window(), x);
                        if !b0[x] {
                            let k = choose|k: int| 0 <= k < self.queue.window().len() && self.queue.window()[k] == x;
                            lemma_window_members(
                                self.queue.items(),
                                self.queue.out_start() as int,
                                self.queue.out_end() as int,
                                k,
                            );
                            let j = choose|j: int| 0 <= j < self.queue.items().len() && self.queue.items()[j] == self.queue.window()[k];
                            assert(visited(self.parent@, self.queue.items()[j]));
                        }
                    }
                }
            }
            proof {
                if ready {
                    let w = self.queue.window();
                    assert forall|x: NodeId| x < n && #[trigger] visited(self.parent@, x) implies out_visited(
                        graph,
                        self.parent@,
                        x,
                    ) || (x < bitvec_bits(self.front).len() && bitvec_bits(self.front)[x as int]) by {
                        if w.contains(x) {
                            let k = choose|k: int| 0 <= k < w.len() && w[k] == x;
                            lemma_with_bits_set_has(b0, w, k);
                        }
                    }
                }
            }
            let mut awake_count = self.queue.size();
            self.queue.slide_window();
            let ghost q1 = self.queue;
            let ghost e1 = self.edges_to_check;
            loop
                invariant
                    self.queue == q1,
                    self.edges_to_check == e1,
                    self.source == src,
                    keep ==> in_matches_out(graph) && self.visited_reachable(graph),
                    tree ==> self.tree_ok(graph),
                    ready ==> search_ready(graph) && degrees_recorded(n as nat, self.parent@) && visited(self.parent@, src),
                    ready ==> forall|x: NodeId| x < n && #[trigger] visited(self.parent@, x) ==> out_visited(
                        graph,
                        self.parent@,
                        x,
                    ) || (x < bitvec_bits(self.front).len() && bitvec_bits(self.front)[x as int]),
                    bfs_ready(graph),
                    n == graph.spec_num_nodes(),
                    10 * n <= usize::MAX,
                    self.inv(graph),
                    forall|x: NodeId| #[trigger] visited(pstart, x) ==> visited(self.parent@, x),
                    tidy0 ==> degrees_recorded(n as nat, self.parent@) && self.parent@[src as int] == VisitStatus::Positive(src)
                        && visited(self.parent@, src),
                ensures
                    tidy0 ==> forall|x: int|
                        0 <= x < bitvec_bits(self.front).len() && #[trigger] bitvec_bits(self.front)[x] ==> x < n
                            && visited(self.parent@, x as NodeId) && !visited(pstart, x as NodeId),
                decreases awake_count,
            {
                let old_awake_count = awake_count;
                self.curr = bv_from_elem(n * 10, false);
                let ghost p0 = self.parent@;
                let ghost fb = bitvec_bits(self.front);
                let ghost cb = bitvec_bits(self.curr);
                awake_count = bu_step(graph, &mut self.parent, &mut self.front, &mut self.curr);
                proof {
                    lemma_bottom_up_shape(graph, p0, fb, cb, graph.spec_vertices());
                    assert forall|k: int| 0 <= k < graph.spec_vertices().len() implies #[trigger] graph.spec_vertices()[k]
                        < n by {}
                    lemma_bottom_up_bits(graph, p0, fb, cb, graph.spec_vertices(), n as nat);
                    if tidy0 {
                        lemma_bottom_up_complete(graph, p0, fb, cb, graph.spec_vertices());
                        assert(visited(p0, src));
                        assert(self.parent@[src as int] == p0[src as int]);
                        assert forall|x: int|
                            0 <= x < bitvec_bits(self.curr).len() && #[trigger] bitvec_bits(self.curr)[x] implies x < n
                                && visited(self.parent@, x as NodeId) && !visited(pstart, x as NodeId) by {
                            assert(!cb[x]);
                        }
                    } else {
                        lemma_bottom_up_sound_mono(graph, p0, fb, cb, graph.spec_vertices());
                    }
                    if ready {
                        lemma_bottom_up_complete(graph, p0, fb, cb, graph.spec_vertices());
                        assert forall|x: NodeId| x < n && #[trigger] visited(self.parent@, x) implies out_visited(
                            graph,
                            self.parent@,
                            x,
                        ) || (x < bitvec_bits(self.curr).len() && bitvec_bits(self.curr)[x as int]) by {
                            if visited(p0, x) {
                                if !out_visited(graph, p0, x) {
                                    assert(x < fb.len() && fb[x as int]);
                                    assert forall|j: int| 0 <= j < graph.spec_out(x).len() implies visited(
                                        self.parent@,
                                        #[trigger] graph.spec_out(x)[j],
                                    ) by {
                                        let y = graph.spec_out(x)[j];
                                        assert(y < n);
                                        assert(graph.spec_out(x).contains(y));
                                        assert(graph.spec_in(y).contains(x));
                                        let m = choose|m: int| 0 <= m < graph.spec_in(y).len() && graph.spec_in(y)[m] == x;
                                        assert(graph.spec_vertices().contains(y));
                                        let k = choose|k: int| 0 <= k < graph.spec_vertices().len() && graph.spec_vertices()[k] == y;
                                        assert(graph.spec_in(graph.spec_vertices()[k])[m] == x);
                                    }
                                } else {
                                    assert forall|j: int| 0 <= j < graph.spec_out(x).len() implies visited(
                                        self.parent@,
                                        #[trigger] graph.spec_out(x)[j],
                                    ) by {
                                        assert(visited(p0, graph.spec_out(x)[j]));
                                    }
                                }
                            }
                        }
                    }
                    if tree {
                        lemma_bottom_up_parents(graph, src, p0, fb, cb, graph.spec_vertices());
                        assert forall|i: int| 0 <= i < self.queue.items().len() implies visited(
                            self.parent@,
                            #[trigger] self.queue.items()[i],
                        ) by {
                            assert(visited(p0, self.queue.items()[i]));
                        }
                        assert forall|x: int| 0 <= x < bitvec_bits(self.front).len() && #[trigger] bitvec_bits(self.front)[x]
                            implies visited(self.parent@, x as NodeId) by {
                            assert(visited(p0, x as NodeId));
                        }
                    }
                    if keep {
                        lemma_bottom_up_sound(graph, src, p0, fb, cb, graph.spec_vertices());
                        assert forall|i: int| 0 <= i < self.queue.items().len() implies visited(
                            self.parent@,
                            #[trigger] self.queue.items()[i],
                        ) by {
                            assert(visited(p0, self.queue.items()[i]));
                        }
                        assert forall|x: int| 0 <= x < bitvec_bits(self.front).len() && #[trigger] bitvec_bits(self.front)[x]
                            implies visited(self.parent@, x as NodeId) by {
                            assert(visited(p0, x as NodeId));
                        }
                    }
                }
                std::mem::swap(&mut self.front, &mut self.curr);
                if awake_count >= old_awake_count || awake_count > n / BETA {
                    break;
                }
            }
            let ghost q0 = self.queue.items();
            bitmap_to_queue(graph, &self.front, &mut self.queue);
            proof {
                lemma_set_positions_bound(bitvec_bits(self.front), 10 * n as int, n as nat);
                assert forall|i: int| 0 <= i < self.queue.items().len() implies #[trigger] self.queue.items()[i]
                    < n by {
                    if i >= q0.len() {
                        assert(self.queue.items()[i] == set_positions(
                            bitvec_bits(self.front),
                            10 * n as int,
                        )[i - q0.len()]);
                    } else {
                        assert(self.queue.items()[i] == q0[i]);
                    }
                }
                if keep || tree {
                    assert forall|i: int| 0 <= i < self.queue.items().len() implies visited(
                        self.parent@,
                        #[trigger] self.queue.items()[i],
                    ) by {
                        if i >= q0.len() {
                            lemma_set_positions_origin(bitvec_bits(self.front), 10 * n as int, i - q0.len());
                            assert(self.queue.items()[i] == set_positions(
                                bitvec_bits(self.front),
                                10 * n as int,
                            )[i - q0.len()]);
                        } else {
                            assert(self.queue.items()[i] == q0[i]);
                        }
                    }
                }
            }
            proof {
                if tidy0 {
                    let sp = set_positions(bitvec_bits(self.front), 10 * n as int);
                    q1.lemma_cursor_bounds();
                    self.queue.lemma_items_bound();
                    vstd::arithmetic::div_mod::lemma_small_mod((q1.pushed() + sp.len()) as nat, usize::MAX as nat + 1);
                    assert(self.queue.window() =~= sp);
                    assert(self.queue.pushed() == self.queue.items().len());
                    assert(self.queue.out_end() == self.queue.items().len());
                    lemma_unvisited_count(pstart, self.parent@, n as int);
                    if sp.len() > 0 {
                        lemma_set_positions_origin(bitvec_bits(self.front), 10 * n as int, 0);
                        let x = sp[0];
                        assert(bitvec_bits(self.front)[x as int]);
                        assert(x < n && visited(self.parent@, x) && !visited(pstart, x));
                    }
                }
                if ready {
                    let sp = set_positions(bitvec_bits(self.front), 10 * n as int);
                    assert forall|x: NodeId| x < n && #[trigger] visited(self.parent@, x) implies out_visited(
                        graph,
                        self.parent@,
                        x,
                    ) || self.queue.window().contains(x) by {
                        if !out_visited(graph, self.parent@, x) {
                            lemma_set_positions_contains(bitvec_bits(self.front), 10 * n as int, x as int);
                        }
                    }
                }
            }
            self.scout_count = 1;
        } else {
            self.edges_to_check = self.edges_to_check - self.scout_count;
            let ghost p0 = self.parent@;
            let ghost q0 = self.queue.items();
            let ghost w = self.queue.window();
            self.scout_count = td_step(graph, &mut self.parent, &mut self.queue);
            proof {
                lemma_top_down_len(p0, frontier_edges(graph, w));
                lemma_frontier_edges_bound(graph, w);
                lemma_top_down_found(p0, frontier_edges(graph, w), n as nat);
                let f = top_down(p0, frontier_edges(graph, w)).1;
                assert forall|i: int| 0 <= i < self.queue.items().len() implies #[trigger] self.queue.items()[i]
                    < n by {
                    if i >= q0.len() {
                        assert(self.queue.items()[i] == f[i - q0.len()]);
                    } else {
                        assert(self.queue.items()[i] == q0[i]);
                    }
                }
                if tree {
                    let pairs = frontier_edges(graph, w);
                    lemma_frontier_edges_from(graph, w);
                    assert forall|i: int| 0 <= i < pairs.len() implies #[trigger] pairs[i].0 < n && visited(p0, pairs[i].0)
                        && graph.spec_out(pairs[i].0).contains(pairs[i].1) by {
                        let u = pairs[i].0;
                        let k = choose|k: int| 0 <= k < w.len() && w[k] == u;
                        lemma_window_members(q0, old(self).queue.out_start() as int, old(self).queue.out_end() as int, k);
                        let j = choose|j: int| 0 <= j < q0.len() && q0[j] == u;
                        assert(visited(p0, q0[j]));
                        assert(u < n);
                    }
                    lemma_top_down_parents(graph, src, p0, pairs);
                    assert forall|i: int| 0 <= i < self.queue.items().len() implies visited(
                        self.parent@,
                        #[trigger] self.queue.items()[i],
                    ) by {
                        if i >= q0.len() {
                            assert(self.queue.items()[i] == f[i - q0.len()]);
                        } else {
                            assert(self.queue.items()[i] == q0[i]);
                            assert(visited(p0, q0[i]));
                        }
                    }
                    assert forall|x: int| 0 <= x < bitvec_bits(self.front).len() && #[trigger] bitvec_bits(self.front)[x]
                        implies visited(self.parent@, x as NodeId) by {
                        assert(visited(p0, x as NodeId));
                    }
                    assert forall|x: int| 0 <= x < bitvec_bits(self.curr).len() && #[trigger] bitvec_bits(self.curr)[x]
                        implies visited(self.parent@, x as NodeId) by {
                        assert(visited(p0, x as NodeId));
                    }
                }
                if keep {
                    let pairs = frontier_edges(graph, w);
                    lemma_frontier_edges_from(graph, w);
                    assert forall|i: int| 0 <= i < pairs.len() implies reached(graph, src, #[trigger] pairs[i].0)
                        && graph.spec_out(pairs[i].0).contains(pairs[i].1) by {
                        let u = pairs[i].0;
                        let k = choose|k: int| 0 <= k < w.len() && w[k] == u;
                        lemma_window_members(q0, old(self).queue.out_start() as int, old(self).queue.out_end() as int, k);
                        let j = choose|j: int| 0 <= j < q0.len() && q0[j] == u;
                        assert(visited(p0, q0[j]));
                        assert(u < n);
                    }
                    lemma_top_down_sound(graph, src, p0, pairs);
                    assert forall|i: int| 0 <= i < self.queue.items().len() implies visited(
                        self.parent@,
                        #[trigger] self.queue.items()[i],
                    ) by {
                        if i >= q0.len() {
                            assert(self.queue.items()[i] == f[i - q0.len()]);
                        } else {
                            assert(self.queue.items()[i] == q0[i]);
                            assert(visited(p0, q0[i]));
                        }
                    }
                    assert forall|x: int| 0 <= x < bitvec_bits(self.front).len() && #[trigger] bitvec_bits(self.front)[x]
                        implies visited(self.parent@, x as NodeId) by {
                        assert(visited(p0, x as NodeId));
                    }
                    assert forall|x: int| 0 <= x < bitvec_bits(self.curr).len() && #[trigger] bitvec_bits(self.curr)[x]
                        implies visited(self.parent@, x as NodeId) by {
                        assert(visited(p0, x as NodeId));
                    }
                }
            }
            self.queue.slide_window();
            proof {
                if tidy0 {
                    let pairs = frontier_edges(graph, w);
                    lemma_top_down_complete(n as nat, p0, pairs);
                    let f = top_down(p0, pairs).1;
                    self.queue.lemma_items_bound();
                    vstd::arithmetic::div_mod::lemma_small_mod((q0.len() + f.len()) as nat, usize::MAX as nat + 1);
                    assert(self.queue.window() =~= f);
                    assert(visited(p0, src));
                    assert(self.parent@[src as int] == p0[src as int]);
                    lemma_unvisited_count(p0, self.parent@, n as int);
                    if f.len() > 0 {
                        let x = f[0];
                        assert(!visited(p0, x) && visited(self.parent@, x));
                        assert(x < n);
                    }
                }
            }
            proof {
                if ready {
                    let pairs = frontier_edges(graph, w);
                    lemma_top_down_complete(n as nat, p0, pairs);
                    let f = top_down(p0, pairs).1;
                    self.queue.lemma_items_bound();
                    vstd::arithmetic::div_mod::lemma_small_mod((q0.len() + f.len()) as nat, usize::MAX as nat + 1);
                    assert(self.queue.window() =~= f);
                    assert forall|x: NodeId| x < n && #[trigger] visited(self.parent@, x) implies out_visited(
                        graph,
                        self.parent@,
                        x,
                    ) || self.queue.window().contains(x) by {
                        if visited(p0, x) {
                            if out_visited(graph, p0, x) {
                                assert forall|j: int| 0 <= j < graph.spec_out(x).len() implies visited(
                                    self.parent@,
                                    #[trigger] graph.spec_out(x)[j],
                                ) by {
                                    assert(visited(p0, graph.spec_out(x)[j]));
                                }
                            } else {
                                assert(w.contains(x));
                                let k = choose|k: int| 0 <= k < w.len() && w[k] == x;
                                assert forall|j: int| 0 <= j < graph.spec_out(x).len() implies visited(
                                    self.parent@,
                                    #[trigger] graph.spec_out(x)[j],
                                ) by {
                                    lemma_frontier_edges_cover(graph, w, k, j);
                                    let i = choose|i: int| 0 <= i < pairs.len() && pairs[i] == (x, graph.spec_out(x)[j]);
                                    assert(visited(self.parent@, pairs[i].1));
                                }
                            }
                        }
                    }
                }
            }
        }
    }
}


/// Breadth-first search from `source`, switching between top-down and
/// bottom-up steps, to its end; returns the parent array. The source is its
/// own parent; every other visited vertex names as its parent a visited
/// vertex joined to it by an edge (an out-edge of the parent, or an in-edge
/// of the child where a bottom-up step found it), and following parents
/// from any visited vertex leads back to the source. Where the in-edges are
/// out-edges turned round, every visited vertex is reached from the source;
/// where they mirror the out-edges exactly and `vertices` hands out every
/// vertex, the vertices below `n` with a parent are exactly those reached.
/// Unvisited vertices keep a `Negative` entry.
pub fn do_bfs<V: AsNode, E: AsNode, G: CSRGraph<V, E>>(graph: &G, source: NodeId) -> (parent: Vec<VisitStatus>)
    requires
        bfs_ready(graph),
        source < graph.spec_num_nodes(),
        10 * graph.spec_num_nodes() <= usize::MAX,
        graph.spec_num_edges_directed() <= usize::MAX,
    ensures
        parent@.len() >= 10 * graph.spec_num_nodes(),
        parent@[source as int] == VisitStatus::Positive(source),
        forall|x: NodeId| x < graph.spec_num_nodes() && x != source && #[trigger] visited(parent@, x) ==> parent_edge(graph, parent@, x),
        parents_rooted(parent@, source, graph.spec_num_nodes()),
        in_matches_out(graph) ==> forall|x: NodeId|
            x < graph.spec_num_nodes() && x != source && #[trigger] visited(parent@, x) ==> (parent@[x as int] matches VisitStatus::Positive(u)
                && graph.spec_out(u).contains(x)),
        in_matches_out(graph) ==> forall|x: NodeId|
            x < graph.spec_num_nodes() && #[trigger] visited(parent@, x) ==> reached(graph, source, x),
        search_ready(graph) && in_matches_out(graph) ==> forall|x: NodeId|
            x < graph.spec_num_nodes() ==> (#[trigger] visited(parent@, x) <==> reached(graph, source, x)),
{
    let ghost n = graph.spec_num_nodes();
    let ghost law = search_ready(graph) && in_matches_out(graph);
    let mut state = BfsState::new(graph, source);
    while !state.done()
        invariant
            bfs_ready(graph),
            n == graph.spec_num_nodes(),
            source < n,
            10 * n <= usize::MAX,
            state.source == source,
            state.inv(graph),
            state.tidy(graph),
            law == (search_ready(graph) && in_matches_out(graph)),
            law ==> state.frontier_closed(graph),
            in_matches_out(graph) ==> state.visited_reachable(graph),
            state.tree_ok(graph),
        decreases unvisited_count(state.parent@, n as int), if state.queue.out_start() == state.queue.out_end() {
            0int
        } else {
            1int
        },
    {
        state.step(graph);
    }
    proof {
        if law {
            state.lemma_done_visits_reachable(graph);
        }
        if in_matches_out(graph) {
            assert forall|x: NodeId| x < n && x != source && #[trigger] visited(state.parent@, x) implies (
            state.parent@[x as int] matches VisitStatus::Positive(u) && graph.spec_out(u).contains(x)) by {
                assert(parent_edge(graph, state.parent@, x));
                let u = state.parent@[x as int]->Positive_0;
                if graph.spec_in(x).contains(u) {
                    assert(graph.spec_out(u).contains(x));
                }
            }
        }
    }
    state.parent
}

} // verus!
