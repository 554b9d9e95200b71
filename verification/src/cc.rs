//! Connected components (CC): Afforest subgraph sampling on top of
//! Shiloach-Vishkin style linking.
//!
//! `comp` is a forest over the vertices in which every vertex points to a
//! vertex with a smaller or equal id; the roots are the points to
//! themselves. `link` joins the trees of two vertices by hooking the larger
//! root under the other tree; `compress` points every vertex straight at
//! its root. The component label of a vertex is its root.

use crate::graph::{dense, ids, CSRGraph};
use crate::random::{gen_range, thread_rng};
use crate::sortedmap::SortedMap;
use crate::types::{AsNode, NodeId};
use vstd::prelude::*;

verus! {

/// Every vertex points at a vertex with a smaller or equal id.
pub open spec fn is_forest(c: Seq<usize>) -> bool {
    forall|i: int| 0 <= i < c.len() ==> #[trigger] c[i] <= i
}

/// The root of the tree of `x`.
pub open spec fn root(c: Seq<usize>, x: int) -> int
    decreases x,
{
    if 0 <= x < c.len() && c[x] < x {
        root(c, c[x] as int)
    } else {
        x
    }
}

/// Every vertex points straight at its root.
pub open spec fn is_compressed(c: Seq<usize>) -> bool {
    forall|i: int| 0 <= i < c.len() ==> #[trigger] c[i] == root(c, i)
}

/// The roots after joining the trees whose roots are `r1` and `r2`: the
/// larger root is hooked under the smaller one.
pub open spec fn joined_root(old_root: int, r1: int, r2: int) -> int {
    if r1 != r2 && old_root == (if r1 > r2 { r1 } else { r2 }) {
        if r1 > r2 { r2 } else { r1 }
    } else {
        old_root
    }
}

pub proof fn lemma_root(c: Seq<usize>, x: int)
    requires
        is_forest(c),
        0 <= x < c.len(),
    ensures
        0 <= root(c, x) <= x,
        c[root(c, x)] == root(c, x),
        root(c, c[x] as int) == root(c, x),
    decreases x,
{
    if c[x] < x {
        lemma_root(c, c[x] as int);
    }
}

/// Hooking the root `h` under `l < h` moves the tree of `h` under the root
/// of `l`, and leaves every other root alone.
pub proof fn lemma_hook(c: Seq<usize>, h: int, l: int, x: int)
    requires
        is_forest(c),
        0 <= l < h < c.len(),
        c[h] == h,
        0 <= x < c.len(),
    ensures
        is_forest(c.update(h, l as usize)),
        root(c.update(h, l as usize), x) == if root(c, x) == h {
            root(c, l)
        } else {
            root(c, x)
        },
    decreases x,
{
    let d = c.update(h, l as usize);
    assert(is_forest(d));
    lemma_root(c, x);
    lemma_root(c, l);
    if x == h {
        lemma_hook(c, h, l, l);
        assert(root(c, l) <= l);
        assert(root(c, l) != h);
    } else if c[x] < x {
        lemma_hook(c, h, l, c[x] as int);
    }
}

/// Pointing `n` at its grandparent keeps every root.
pub proof fn lemma_shortcut(c: Seq<usize>, n: int, x: int)
    requires
        is_forest(c),
        0 <= n < c.len(),
        0 <= x < c.len(),
    ensures
        is_forest(c.update(n, c[c[n] as int])),
        root(c.update(n, c[c[n] as int]), x) == root(c, x),
    decreases x,
{
    let d = c.update(n, c[c[n] as int]);
    assert(c[c[n] as int] <= c[n]);
    assert(is_forest(d));
    lemma_root(c, x);
    if x == n {
        if c[n] < n {
            lemma_root(c, c[n] as int);
            if c[c[n] as int] < c[n] {
                lemma_shortcut(c, n, c[c[n] as int] as int);
            }
        }
    } else if c[x] < x {
        lemma_shortcut(c, n, c[x] as int);
    }
}

/// Joins the trees of `u` and `v`: when their roots differ, the larger root
/// is hooked under the tree of the other; nothing else changes.
pub fn link(u: NodeId, v: NodeId, comp: &mut Vec<NodeId>)
    requires
        is_forest(old(comp)@),
        u < old(comp)@.len(),
        v < old(comp)@.len(),
    ensures
        is_forest(final(comp)@),
        final(comp)@.len() == old(comp)@.len(),
        forall|x: int|
            0 <= x < final(comp)@.len() ==> #[trigger] root(final(comp)@, x) == joined_root(
                root(old(comp)@, x),
                root(old(comp)@, u as int),
                root(old(comp)@, v as int),
            ),
        final(comp)@ == old(comp)@ || exists|h: int|
            0 <= h < old(comp)@.len() && old(comp)@[h] == h && #[trigger] final(comp)@[h] < h
                && final(comp)@ == old(comp)@.update(h, final(comp)@[h]),
{
    let ghost c0 = comp@;
    let ghost r1 = root(c0, u as int);
    let ghost r2 = root(c0, v as int);
    proof {
        lemma_root(c0, u as int);
        lemma_root(c0, v as int);
    }
    let mut p1 = comp[u];
    let mut p2 = comp[v];
    let mut hook: Option<(usize, usize)> = None;
    while p1 != p2
        invariant_except_break
            hook is None,
            (root(c0, p1 as int) == r1 && root(c0, p2 as int) == r2) || (root(c0, p1 as int)
                == r2 && root(c0, p2 as int) == r1),
        invariant
            comp@ == c0,
            is_forest(c0),
            p1 < c0.len(),
            p2 < c0.len(),
        ensures
            comp@ == c0,
            match hook {
                Some((h, l)) => h < c0.len() && l < h && c0[h as int] == h && ((root(c0, h as int)
                    == r1 && root(c0, l as int) == r2) || (root(c0, h as int) == r2 && root(
                    c0,
                    l as int,
                ) == r1)),
                None => r1 == r2,
            },
        decreases p1 + p2,
    {
        let (high, low) = if p1 > p2 {
            (p1, p2)
        } else {
            (p2, p1)
        };
        proof {
            lemma_root(c0, high as int);
            lemma_root(c0, low as int);
        }
        let p_high = comp[high];
        if p_high == low {
            break;
        }
        if p_high == high && comp[high] == high {
            hook = Some((high, low));
            break;
        }
        proof {
            lemma_root(c0, p_high as int);
        }
        p1 = comp[comp[high]];
        p2 = comp[low];
    }
    match hook {
        Some((high, low)) => {
            comp.set(high, low);
            proof {
                lemma_root(c0, low as int);
                assert(root(c0, low as int) <= low);
                assert forall|x: int| 0 <= x < comp@.len() implies #[trigger] root(comp@, x)
                    == joined_root(root(c0, x), r1, r2) by {
                    lemma_hook(c0, high as int, low as int, x);
                }
                lemma_hook(c0, high as int, low as int, 0);
                assert(comp@[high as int] < high);
            }
        },
        None => {},
    }
}

/// Points every vertex straight at its root; no root changes.
pub fn compress<V: AsNode, E: AsNode, G: CSRGraph<V, E>>(graph: &G, comp: &mut Vec<NodeId>)
    requires
        graph.spec_wf(),
        is_forest(old(comp)@),
        old(comp)@.len() >= graph.spec_num_nodes(),
    ensures
        is_forest(final(comp)@),
        forall|y: int| 0 <= y < graph.spec_num_nodes() ==> #[trigger] final(comp)@[y] == root(final(comp)@, y),
        old(comp)@.len() == graph.spec_num_nodes() ==> is_compressed(final(comp)@),
        forall|y: int| graph.spec_num_nodes() <= y < old(comp)@.len() ==> #[trigger] final(comp)@[y] == old(comp)@[y],
        final(comp)@.len() == old(comp)@.len(),
        forall|x: int|
            0 <= x < final(comp)@.len() ==> #[trigger] root(final(comp)@, x) == root(old(comp)@, x),
{
    let ghost c0 = comp@;
    let num = graph.num_nodes();
    let mut n: usize = 0;
    while n < num
        invariant
            num <= c0.len(),
            comp@.len() == c0.len(),
            is_forest(comp@),
            n <= num,
            forall|y: int| num <= y < c0.len() ==> #[trigger] comp@[y] == c0[y],
            forall|x: int| 0 <= x < c0.len() ==> #[trigger] root(comp@, x) == root(c0, x),
            forall|y: int| 0 <= y < n ==> #[trigger] comp@[y] == root(comp@, y),
        decreases num - n,
    {
        while comp[n] != comp[comp[n]]
            invariant
                num <= c0.len(),
                comp@.len() == c0.len(),
                is_forest(comp@),
                n < num,
                forall|y: int| num <= y < c0.len() ==> #[trigger] comp@[y] == c0[y],
                forall|x: int| 0 <= x < c0.len() ==> #[trigger] root(comp@, x) == root(c0, x),
                forall|y: int| 0 <= y < n ==> #[trigger] comp@[y] == root(comp@, y),
            decreases comp@[n as int],
        {
            let ghost c1 = comp@;
            let g = comp[comp[n]];
            proof {
                assert(c1[c1[n as int] as int] < c1[n as int]);
                assert forall|x: int| 0 <= x < c0.len() implies #[trigger] root(
                    c1.update(n as int, g),
                    x,
                ) == root(c1, x) by {
                    lemma_shortcut(c1, n as int, x);
                }
                lemma_shortcut(c1, n as int, 0);
            }
            comp.set(n, g);
            proof {
                assert forall|y: int| 0 <= y < n implies #[trigger] comp@[y] == root(comp@, y) by {
                    assert(comp@[y] == c1[y]);
                    assert(root(comp@, y) == root(c1, y));
                }
            }
        }
        proof {
            let c = comp@[n as int] as int;
            lemma_root(comp@, n as int);
            lemma_root(comp@, c);
        }
        n = n + 1;
    }
}

/// Number of times `x` occurs in `s`.
pub open spec fn occurrences(s: Seq<usize>, x: usize) -> nat
    decreases s.len(),
{
    if s.len() == 0 {
        0
    } else {
        occurrences(s.drop_last(), x) + if s.last() == x {
            1nat
        } else {
            0nat
        }
    }
}

proof fn lemma_occurrences_bound(s: Seq<usize>, x: usize)
    ensures
        occurrences(s, x) <= s.len(),
        occurrences(s, x) > 0 ==> s.contains(x),
    decreases s.len(),
{
    if s.len() > 0 {
        lemma_occurrences_bound(s.drop_last(), x);
        if occurrences(s.drop_last(), x) > 0 {
            let i = choose|i: int| 0 <= i < s.drop_last().len() && s.drop_last()[i] == x;
            assert(s[i] == x);
        }
    }
}

/// How often `x` occurs in `s`.
pub fn count_occurrences(s: &Vec<usize>, x: usize) -> (n: usize)
    ensures
        n == occurrences(s@, x),
{
    let mut n: usize = 0;
    let mut i: usize = 0;
    while i < s.len()
        invariant
            i <= s@.len(),
            n == occurrences(s@.subrange(0, i as int), x),
        decreases s@.len() - i,
    {
        proof {
            assert(s@.subrange(0, i + 1).drop_last() =~= s@.subrange(0, i as int));
            lemma_occurrences_bound(s@.subrange(0, i as int), x);
        }
        if s[i] == x {
            n = n + 1;
        }
        i = i + 1;
    }
    assert(s@.subrange(0, i as int) =~= s@);
    n
}

/// A most frequent element of a non-empty sample.
pub fn most_frequent(samples: &Vec<usize>) -> (r: usize)
    requires
        samples@.len() > 0,
    ensures
        samples@.contains(r),
        forall|x: usize| occurrences(samples@, x) <= occurrences(samples@, r),
{
    let mut best = samples[0];
    let mut best_count = count_occurrences(samples, best);
    let mut i: usize = 1;
    while i < samples.len()
        invariant
            1 <= i <= samples@.len(),
            samples@.contains(best),
            best_count == occurrences(samples@, best),
            forall|k: int| 0 <= k < i ==> occurrences(samples@, #[trigger] samples@[k]) <= best_count,
        decreases samples@.len() - i,
    {
        let c = count_occurrences(samples, samples[i]);
        if c > best_count {
            best = samples[i];
            best_count = c;
        }
        i = i + 1;
    }
    proof {
        assert forall|x: usize| occurrences(samples@, x) <= occurrences(samples@, best) by {
            lemma_occurrences_bound(samples@, x);
            if occurrences(samples@, x) > 0 {
                let k = choose|k: int| 0 <= k < samples@.len() && samples@[k] == x;
                assert(occurrences(samples@, samples@[k]) <= best_count);
            }
        }
    }
    best
}

/// The label that turns up most often among `num_samples` (default 1024)
/// labels drawn at random from `comp`.
pub fn sample_frequent_element(comp: &Vec<NodeId>, num_samples: Option<usize>) -> (r: NodeId)
    requires
        comp@.len() > 0,
        num_samples != Some(0usize),
    ensures
        comp@.contains(r),
{
    let num_samples = match num_samples {
        Some(n) => n,
        None => 1024,
    };
    let mut rng = thread_rng();
    let mut samples: Vec<NodeId> = Vec::new();
    let mut i: usize = 0;
    while i < num_samples
        invariant
            i <= num_samples,
            samples@.len() == i,
            comp@.len() > 0,
            forall|k: int| 0 <= k < i ==> #[trigger] comp@.contains(samples@[k]),
        decreases num_samples - i,
    {
        let n = gen_range(&mut rng, 0, comp.len());
        samples.push(comp[n]);
        proof {
            assert(comp@.contains(comp@[n as int]));
        }
        i = i + 1;
    }
    let r = most_frequent(&samples);
    proof {
        let k = choose|k: int| 0 <= k < samples@.len() && samples@[k] == r;
        assert(comp@.contains(samples@[k]));
    }
    r
}

/// The vertex ids `0 .. n`.
pub fn identity_labels(n: usize) -> (comp: Vec<NodeId>)
    ensures
        comp@ == Seq::new(n as nat, |i: int| i as NodeId),
        is_forest(comp@),
{
    let mut comp: Vec<NodeId> = Vec::new();
    let mut i: usize = 0;
    while i < n
        invariant
            i <= n,
            comp@ == Seq::new(i as nat, |k: int| k as NodeId),
        decreases n - i,
    {
        comp.push(i);
        assert(comp@ =~= Seq::new((i + 1) as nat, |k: int| k as NodeId));
        i = i + 1;
    }
    comp
}

/// `x` and `y` are joined by an edge, in either direction, of either the
/// out- or the in-lists.
pub open spec fn linked<V: AsNode, E: AsNode, G: CSRGraph<V, E>>(g: &G, x: NodeId, y: NodeId) -> bool {
    x < g.spec_num_nodes() && y < g.spec_num_nodes() && (g.spec_out(x).contains(y) || g.spec_out(y).contains(x) || g.spec_in(x).contains(y)
        || g.spec_in(y).contains(x))
}

/// A walk: consecutive vertices are linked.
pub open spec fn is_walk<V: AsNode, E: AsNode, G: CSRGraph<V, E>>(g: &G, p: Seq<NodeId>) -> bool {
    p.len() >= 1 && forall|i: int| 0 <= i < p.len() - 1 ==> #[trigger] linked(g, p[i], p[i + 1])
}

/// `x` and `y` lie in the same connected component (edge directions
/// ignored).
pub open spec fn connected<V: AsNode, E: AsNode, G: CSRGraph<V, E>>(g: &G, x: NodeId, y: NodeId) -> bool {
    exists|p: Seq<NodeId>| #[trigger] is_walk(g, p) && p[0] == x && p.last() == y
}

/// Every out-edge is matched by the reverse out-edge, and every in-edge
/// by an out-edge the other way: the adjacency of an undirected graph.
pub open spec fn symmetric<V: AsNode, E: AsNode, G: CSRGraph<V, E>>(g: &G) -> bool {
    &&& forall|x: NodeId, y: NodeId|
        x < g.spec_num_nodes() && y < g.spec_num_nodes() && #[trigger] g.spec_out(x).contains(y)
            ==> g.spec_out(y).contains(x)
    &&& forall|x: NodeId, y: NodeId|
        x < g.spec_num_nodes() && y < g.spec_num_nodes() && #[trigger] g.spec_in(x).contains(y)
            ==> g.spec_out(y).contains(x)
}

pub proof fn lemma_connected_refl<V: AsNode, E: AsNode, G: CSRGraph<V, E>>(g: &G, x: NodeId)
    ensures
        connected(g, x, x),
{
    let p = seq![x];
    assert(is_walk(g, p));
}

pub proof fn lemma_connected_linked<V: AsNode, E: AsNode, G: CSRGraph<V, E>>(g: &G, x: NodeId, y: NodeId)
    requires
        linked(g, x, y),
    ensures
        connected(g, x, y),
{
    let p = seq![x, y];
    assert(linked(g, p[0], p[1]));
    assert(is_walk(g, p));
}

pub proof fn lemma_connected_sym<V: AsNode, E: AsNode, G: CSRGraph<V, E>>(g: &G, x: NodeId, y: NodeId)
    requires
        connected(g, x, y),
    ensures
        connected(g, y, x),
{
    let p = choose|p: Seq<NodeId>| #[trigger] is_walk(g, p) && p[0] == x && p.last() == y;
    let q = p.reverse();
    assert forall|i: int| 0 <= i < q.len() - 1 implies #[trigger] linked(g, q[i], q[i + 1]) by {
        let j = p.len() - 2 - i;
        assert(linked(g, p[j], p[j + 1]));
        assert(q[i] == p[j + 1]);
        assert(q[i + 1] == p[j]);
    }
    assert(is_walk(g, q));
    assert(q[0] == y);
    assert(q.last() == x);
}

pub proof fn lemma_connected_trans<V: AsNode, E: AsNode, G: CSRGraph<V, E>>(
    g: &G,
    x: NodeId,
    y: NodeId,
    z: NodeId,
)
    requires
        connected(g, x, y),
        connected(g, y, z),
    ensures
        connected(g, x, z),
{
    let p = choose|p: Seq<NodeId>| #[trigger] is_walk(g, p) && p[0] == x && p.last() == y;
    let q = choose|q: Seq<NodeId>| #[trigger] is_walk(g, q) && q[0] == y && q.last() == z;
    let w = p + q.drop_first();
    assert forall|i: int| 0 <= i < w.len() - 1 implies #[trigger] linked(g, w[i], w[i + 1]) by {
        if i < p.len() - 1 {
            assert(linked(g, p[i], p[i + 1]));
        } else if i == p.len() - 1 {
            assert(w[i] == q[0]);
            assert(w[i + 1] == q[1]);
            assert(linked(g, q[0], q[1]));
        } else {
            let j = i - p.len() + 1;
            assert(linked(g, q[j], q[j + 1]));
        }
    }
    assert(is_walk(g, w));
    if q.len() == 1 {
        assert(w.last() == p.last());
    } else {
        assert(w.last() == q.last());
    }
}

/// Every vertex is connected to the root of its tree.
pub open spec fn roots_sound<V: AsNode, E: AsNode, G: CSRGraph<V, E>>(g: &G, c: Seq<usize>) -> bool {
    forall|x: NodeId| x < c.len() ==> #[trigger] connected(g, x, root(c, x as int) as NodeId)
}

/// Linking two linked vertices keeps every vertex connected to its root.
proof fn lemma_link_sound<V: AsNode, E: AsNode, G: CSRGraph<V, E>>(
    g: &G,
    c0: Seq<usize>,
    c1: Seq<usize>,
    u: NodeId,
    v: NodeId,
)
    requires
        is_forest(c0),
        u < c0.len(),
        v < c0.len(),
        c1.len() == c0.len(),
        linked(g, u, v),
        roots_sound(g, c0),
        forall|x: int|
            0 <= x < c1.len() ==> #[trigger] root(c1, x) == joined_root(
                root(c0, x),
                root(c0, u as int),
                root(c0, v as int),
            ),
    ensures
        roots_sound(g, c1),
{
    let r1 = root(c0, u as int);
    let r2 = root(c0, v as int);
    lemma_root(c0, u as int);
    lemma_root(c0, v as int);
    assert(connected(g, u, r1 as NodeId));
    assert(connected(g, v, r2 as NodeId));
    lemma_connected_linked(g, u, v);
    lemma_connected_sym(g, u, r1 as NodeId);
    lemma_connected_trans(g, r1 as NodeId, u, v);
    lemma_connected_trans(g, r1 as NodeId, v, r2 as NodeId);
    lemma_connected_sym(g, r1 as NodeId, r2 as NodeId);
    assert forall|x: NodeId| x < c1.len() implies #[trigger] connected(
        g,
        x,
        root(c1, x as int) as NodeId,
    ) by {
        assert(connected(g, x, root(c0, x as int) as NodeId));
        assert(root(c1, x as int) == joined_root(root(c0, x as int), r1, r2));
        if r1 != r2 && root(c0, x as int) == r1 && r1 > r2 {
            lemma_connected_trans(g, x, r1 as NodeId, r2 as NodeId);
        }
        if r1 != r2 && root(c0, x as int) == r2 && r2 > r1 {
            lemma_connected_trans(g, x, r2 as NodeId, r1 as NodeId);
        }
    }
}

/// With every out-edge inside a tree, connected vertices share a root.
proof fn lemma_complete<V: AsNode, E: AsNode, G: CSRGraph<V, E>>(
    g: &G,
    c: Seq<usize>,
    p: Seq<NodeId>,
)
    requires
        c.len() == g.spec_num_nodes(),
        in_matches_out(g),
        is_walk(g, p),
        p[0] < c.len(),
        forall|x: NodeId, y: NodeId|
            x < c.len() && y < c.len() && #[trigger] g.spec_out(x).contains(y) ==> root(c, x as int)
                == root(c, y as int),
    ensures
        p.last() < c.len(),
        root(c, p[0] as int) == root(c, p.last() as int),
    decreases p.len(),
{
    if p.len() > 1 {
        let q = p.drop_last();
        assert forall|i: int| 0 <= i < q.len() - 1 implies #[trigger] linked(g, q[i], q[i + 1]) by {
            assert(linked(g, p[i], p[i + 1]));
        }
        lemma_complete(g, c, q);
        let i = p.len() - 2;
        assert(linked(g, p[i], p[i + 1]));
        let a = p[i];
        let b = p[i + 1];
        assert(a == q.last());
        assert(b == p.last());
        assert(g.spec_out(a).contains(b) || g.spec_out(b).contains(a));
    }
}

/// Every in-edge is matched by an out-edge the other way.
pub open spec fn in_matches_out<V: AsNode, E: AsNode, G: CSRGraph<V, E>>(g: &G) -> bool {
    forall|x: NodeId, y: NodeId|
        x < g.spec_num_nodes() && y < g.spec_num_nodes() && #[trigger] g.spec_in(x).contains(y)
            ==> g.spec_out(y).contains(x)
}

/// The in-edges are exactly the out-edges turned round: the adjacency of a
/// directed graph.
pub open spec fn transposed<V: AsNode, E: AsNode, G: CSRGraph<V, E>>(g: &G) -> bool {
    forall|x: NodeId, y: NodeId|
        x < g.spec_num_nodes() && y < g.spec_num_nodes() ==> (#[trigger] g.spec_out(x).contains(y)
            <==> #[trigger] g.spec_in(y).contains(x))
}

/// Component labels as `afforest` gives them: every vertex is labelled
/// with the least id of its component.
pub proof fn lemma_labels_least<V: AsNode, E: AsNode, G: CSRGraph<V, E>>(g: &G, comp: Seq<NodeId>)
    requires
        is_forest(comp),
        forall|x: NodeId| x < comp.len() ==> #[trigger] connected(g, x, comp[x as int]),
        forall|x: NodeId, y: NodeId|
            #![trigger comp[x as int], comp[y as int]]
            x < comp.len() && y < comp.len() ==> (comp[x as int] == comp[y as int] <==> connected(g, x, y)),
    ensures
        forall|v: NodeId, u: NodeId|
            v < comp.len() && u < comp.len() && #[trigger] connected(g, v, u) ==> comp[v as int] <= u,
        forall|v: NodeId| v < comp.len() ==> #[trigger] comp[v as int] <= v && connected(g, v, comp[v as int]),
{
    assert forall|v: NodeId, u: NodeId|
        v < comp.len() && u < comp.len() && #[trigger] connected(g, v, u) implies comp[v as int] <= u by {
        assert(comp[v as int] == comp[u as int]);
        assert(comp[u as int] <= u);
    }
}

/// Two labellings of the same graph with labels inside their components,
/// equal exactly on connected vertices and never above the vertex, are the
/// same: the labels do not depend on the sampling.
pub proof fn lemma_labels_unique<V: AsNode, E: AsNode, G: CSRGraph<V, E>>(g: &G, c1: Seq<NodeId>, c2: Seq<NodeId>)
    requires
        c1.len() == c2.len(),
        c1.len() <= usize::MAX,
        is_forest(c1),
        is_forest(c2),
        forall|x: NodeId| x < c1.len() ==> #[trigger] connected(g, x, c1[x as int]),
        forall|x: NodeId| x < c2.len() ==> #[trigger] connected(g, x, c2[x as int]),
        forall|x: NodeId, y: NodeId|
            #![trigger c1[x as int], c1[y as int]]
            x < c1.len() && y < c1.len() ==> (c1[x as int] == c1[y as int] <==> connected(g, x, y)),
        forall|x: NodeId, y: NodeId|
            #![trigger c2[x as int], c2[y as int]]
            x < c2.len() && y < c2.len() ==> (c2[x as int] == c2[y as int] <==> connected(g, x, y)),
    ensures
        c1 == c2,
{
    lemma_labels_least(g, c1);
    lemma_labels_least(g, c2);
    assert forall|i: int| 0 <= i < c1.len() implies c1[i] == c2[i] by {
        let v = i as NodeId;
        assert(v as int == i);
        let a = c1[i];
        let b = c2[i];
        assert(connected(g, v, a));
        assert(connected(g, v, b));
        assert(a < c1.len() && b < c1.len()) by {
            assert(a <= v && b <= v);
        }
        assert(a <= b);
        assert(b <= a);
    }
    assert(c1 =~= c2);
}

/// A graph whose out-edges come in pairs and which keeps no in-edges (what
/// building an undirected graph gives) has symmetric adjacency.
pub proof fn lemma_mirrored_symmetric<V: AsNode, E: AsNode, G: CSRGraph<V, E>>(g: &G)
    requires
        forall|v: NodeId| v < g.spec_num_nodes() ==> (#[trigger] g.spec_in(v)).len() == 0,
        forall|v: NodeId, w: NodeId|
            #![trigger g.spec_out(v).contains(w), g.spec_out(w).contains(v)]
            v < g.spec_num_nodes() && w < g.spec_num_nodes() ==> (g.spec_out(v).contains(w) <==> g.spec_out(w).contains(v)),
    ensures
        symmetric(g),
{
    assert forall|x: NodeId, y: NodeId|
        x < g.spec_num_nodes() && y < g.spec_num_nodes() && #[trigger] g.spec_out(x).contains(y) implies g.spec_out(y).contains(x) by {
        assert(g.spec_out(x).contains(y) <==> g.spec_out(y).contains(x));
    }
    assert forall|x: NodeId, y: NodeId|
        x < g.spec_num_nodes() && y < g.spec_num_nodes() && #[trigger] g.spec_in(x).contains(y) implies g.spec_out(y).contains(x) by {
        assert(g.spec_in(x).len() == 0);
    }
}

/// Every in-edge of `x` stays inside the tree of `x`, or `x` shares the
/// tree of `c`.
pub open spec fn settled_in<V: AsNode, E: AsNode, G: CSRGraph<V, E>>(
    g: &G,
    comp: Seq<usize>,
    x: NodeId,
    c: NodeId,
) -> bool {
    (forall|k: int|
        0 <= k < g.spec_in(x).len() ==> root(comp, x as int) == root(
            comp,
            #[trigger] g.spec_in(x)[k] as int,
        )) || root(comp, x as int) == root(comp, c as int)
}

proof fn lemma_settled_in_kept<V: AsNode, E: AsNode, G: CSRGraph<V, E>>(
    g: &G,
    c0: Seq<usize>,
    c1: Seq<usize>,
    upto: int,
    c: NodeId,
)
    requires
        dense(g),
        c0.len() == g.spec_num_nodes(),
        c < c0.len(),
        upto <= c0.len(),
        forall|x: NodeId| x < upto ==> #[trigger] settled_in(g, c0, x, c),
        coarsens(c0, c1, c0.len() as int),
    ensures
        forall|x: NodeId| x < upto ==> #[trigger] settled_in(g, c1, x, c),
{
    assert forall|x: NodeId| x < upto implies #[trigger] settled_in(g, c1, x, c) by {
        assert(settled_in(g, c0, x, c));
        if root(c0, x as int) == root(c0, c as int) {
            assert(root(c1, x as int) == root(c1, c as int));
        } else {
            assert forall|k: int| 0 <= k < g.spec_in(x).len() implies root(c1, x as int) == root(
                c1,
                #[trigger] g.spec_in(x)[k] as int,
            ) by {
                assert(g.spec_in(x)[k] < g.spec_num_nodes());
                assert(root(c0, x as int) == root(c0, g.spec_in(x)[k] as int));
            }
        }
    }
}

/// Every two vertices below `n` that share a root in `c0` share one in
/// `c1`: the components only grow.
pub open spec fn coarsens(c0: Seq<usize>, c1: Seq<usize>, n: int) -> bool {
    forall|a: int, b: int|
        #![trigger root(c1, a), root(c1, b)]
        0 <= a < n && 0 <= b < n && root(c0, a) == root(c0, b) ==> root(c1, a) == root(c1, b)
}

proof fn lemma_link_coarsens(c0: Seq<usize>, c1: Seq<usize>, u: int, v: int)
    requires
        c1.len() == c0.len(),
        forall|x: int|
            0 <= x < c1.len() ==> #[trigger] root(c1, x) == joined_root(
                root(c0, x),
                root(c0, u),
                root(c0, v),
            ),
    ensures
        coarsens(c0, c1, c0.len() as int),
        0 <= u < c0.len() && 0 <= v < c0.len() ==> root(c1, u) == root(c1, v),
{
    assert forall|a: int, b: int|
        #![trigger root(c1, a), root(c1, b)]
        0 <= a < c0.len() && 0 <= b < c0.len() && root(c0, a) == root(c0, b) implies root(c1, a)
        == root(c1, b) by {
        assert(root(c1, a) == joined_root(root(c0, a), root(c0, u), root(c0, v)));
        assert(root(c1, b) == joined_root(root(c0, b), root(c0, u), root(c0, v)));
    }
    if 0 <= u < c0.len() && 0 <= v < c0.len() {
        assert(root(c1, u) == joined_root(root(c0, u), root(c0, u), root(c0, v)));
        assert(root(c1, v) == joined_root(root(c0, v), root(c0, u), root(c0, v)));
    }
}

/// Every out-edge of `x` stays inside the tree of `x`, or `x` shares the
/// tree of `c`.
pub open spec fn settled<V: AsNode, E: AsNode, G: CSRGraph<V, E>>(
    g: &G,
    comp: Seq<usize>,
    x: NodeId,
    c: NodeId,
) -> bool {
    (forall|k: int|
        0 <= k < g.spec_out(x).len() ==> root(comp, x as int) == root(
            comp,
            #[trigger] g.spec_out(x)[k] as int,
        )) || root(comp, x as int) == root(comp, c as int)
}

/// The first `r` out-edges of every vertex stay inside its tree.
pub open spec fn first_edges_joined<V: AsNode, E: AsNode, G: CSRGraph<V, E>>(
    g: &G,
    comp: Seq<usize>,
    r: int,
) -> bool {
    forall|x: NodeId, k: int|
        x < g.spec_num_nodes() && 0 <= k < r && k < g.spec_out(x).len() ==> root(comp, x as int)
            == root(comp, #[trigger] g.spec_out(x)[k] as int)
}

proof fn lemma_first_edges_kept<V: AsNode, E: AsNode, G: CSRGraph<V, E>>(
    g: &G,
    c0: Seq<usize>,
    c1: Seq<usize>,
    r: int,
)
    requires
        dense(g),
        c0.len() == g.spec_num_nodes(),
        first_edges_joined(g, c0, r),
        coarsens(c0, c1, c0.len() as int),
    ensures
        first_edges_joined(g, c1, r),
{
    assert forall|x: NodeId, k: int|
        x < g.spec_num_nodes() && 0 <= k < r && k < g.spec_out(x).len() implies root(
        c1,
        x as int,
    ) == root(c1, #[trigger] g.spec_out(x)[k] as int) by {
        assert(g.spec_out(x)[k] < g.spec_num_nodes());
        assert(root(c0, x as int) == root(c0, g.spec_out(x)[k] as int));
    }
}

proof fn lemma_settled_kept<V: AsNode, E: AsNode, G: CSRGraph<V, E>>(
    g: &G,
    c0: Seq<usize>,
    c1: Seq<usize>,
    upto: int,
    c: NodeId,
)
    requires
        dense(g),
        c0.len() == g.spec_num_nodes(),
        c < c0.len(),
        upto <= c0.len(),
        forall|x: NodeId| x < upto ==> #[trigger] settled(g, c0, x, c),
        coarsens(c0, c1, c0.len() as int),
    ensures
        forall|x: NodeId| x < upto ==> #[trigger] settled(g, c1, x, c),
{
    assert forall|x: NodeId| x < upto implies #[trigger] settled(g, c1, x, c) by {
        assert(settled(g, c0, x, c));
        if root(c0, x as int) == root(c0, c as int) {
            assert(root(c1, x as int) == root(c1, c as int));
        } else {
            assert forall|k: int| 0 <= k < g.spec_out(x).len() implies root(c1, x as int) == root(
                c1,
                #[trigger] g.spec_out(x)[k] as int,
            ) by {
                assert(g.spec_out(x)[k] < g.spec_num_nodes());
                assert(root(c0, x as int) == root(c0, g.spec_out(x)[k] as int));
            }
        }
    }
}

proof fn lemma_roots_kept<V: AsNode, E: AsNode, G: CSRGraph<V, E>>(g: &G, c0: Seq<usize>, c1: Seq<usize>)
    requires
        c1.len() == c0.len(),
        roots_sound(g, c0),
        forall|x: int| 0 <= x < c1.len() ==> #[trigger] root(c1, x) == root(c0, x),
    ensures
        roots_sound(g, c1),
        coarsens(c0, c1, c0.len() as int),
{
    assert forall|x: NodeId| x < c1.len() implies #[trigger] connected(
        g,
        x,
        root(c1, x as int) as NodeId,
    ) by {
        assert(root(c1, x as int) == root(c0, x as int));
    }
    assert forall|a: int, b: int|
        #![trigger root(c1, a), root(c1, b)]
        0 <= a < c0.len() && 0 <= b < c0.len() && root(c0, a) == root(c0, b) implies root(c1, a)
        == root(c1, b) by {
        assert(root(c1, a) == root(c0, a));
        assert(root(c1, b) == root(c0, b));
    }
}

/// Labels every vertex with a component id. `neighbor_rounds` (default
/// 2) sampling rounds link each vertex to its `r`-th out-neighbour; then
/// the most frequent label `c` is sampled, and every vertex not labelled
/// `c` is linked to its remaining out-neighbours (and, in a directed
/// graph, to all its in-neighbours).
///
/// Every vertex is connected to the vertex its label names; two vertices
/// get the same label exactly when they are connected (edge directions
/// ignored), in an undirected graph with symmetric adjacency and in a
/// directed graph whose in-edges are its out-edges turned round; there each
/// label is the least id in its vertex's component, so the result does not
/// depend on what the sampling drew.
pub fn afforest<V: AsNode, E: AsNode, G: CSRGraph<V, E>>(graph: &G, neighbor_rounds: Option<usize>) -> (comp: Vec<NodeId>)
    requires
        dense(graph),
        graph.spec_num_nodes() > 0,
    ensures
        comp@.len() == graph.spec_num_nodes(),
        is_forest(comp@),
        is_compressed(comp@),
        forall|x: NodeId| x < comp@.len() ==> #[trigger] connected(graph, x, comp@[x as int]),
        !graph.spec_directed() && symmetric(graph) ==> forall|x: NodeId, y: NodeId|
            #![trigger comp@[x as int], comp@[y as int]]
            x < comp@.len() && y < comp@.len() ==> (comp@[x as int] == comp@[y as int] <==> connected(
                graph,
                x,
                y,
            )),
        graph.spec_directed() && transposed(graph) ==> forall|x: NodeId, y: NodeId|
            #![trigger comp@[x as int], comp@[y as int]]
            x < comp@.len() && y < comp@.len() ==> (comp@[x as int] == comp@[y as int] <==> connected(
                graph,
                x,
                y,
            )),
        (!graph.spec_directed() && symmetric(graph)) || (graph.spec_directed() && transposed(graph)) ==> {
            &&& forall|v: NodeId, u: NodeId|
                v < comp@.len() && u < comp@.len() && #[trigger] connected(graph, v, u) ==> comp@[v as int] <= u
            &&& forall|v: NodeId| v < comp@.len() ==> #[trigger] comp@[v as int] <= v
        },
{
    let neighbor_rounds = match neighbor_rounds {
        Some(r) => r,
        None => 2,
    };
    let n = graph.num_nodes();
    let mut comp = identity_labels(n);
    proof {
        assert forall|x: NodeId| x < comp@.len() implies #[trigger] connected(
            graph,
            x,
            root(comp@, x as int) as NodeId,
        ) by {
            lemma_connected_refl(graph, x);
        }
    }
    let mut r: usize = 0;
    while r < neighbor_rounds
        invariant
            dense(graph),
            n == graph.spec_num_nodes(),
            comp@.len() == n,
            is_forest(comp@),
            r <= neighbor_rounds,
            roots_sound(graph, comp@),
            first_edges_joined(graph, comp@, r as int),
        decreases neighbor_rounds - r,
    {
        let mut u: usize = 0;
        while u < n
            invariant
                dense(graph),
                n == graph.spec_num_nodes(),
                comp@.len() == n,
                is_forest(comp@),
                u <= n,
                roots_sound(graph, comp@),
                first_edges_joined(graph, comp@, r as int),
                forall|x: NodeId|
                    x < u && r < graph.spec_out(x).len() ==> root(comp@, x as int) == root(
                        comp@,
                        #[trigger] graph.spec_out(x)[r as int] as int,
                    ),
            decreases n - u,
        {
            let neigh = graph.out_neigh(u);
            if r < neigh.len() {
                let v = neigh[r].as_node();
                let ghost c0 = comp@;
                proof {
                    assert(ids(neigh@)[r as int] == v);
                    assert(graph.spec_out(u)[r as int] == v);
                    assert(v < n);
                    assert(graph.spec_out(u).contains(v));
                    assert(linked(graph, u, v));
                }
                link(u, v, &mut comp);
                proof {
                    lemma_link_sound(graph, c0, comp@, u, v);
                    lemma_link_coarsens(c0, comp@, u as int, v as int);
                    lemma_first_edges_kept(graph, c0, comp@, r as int);
                    assert forall|x: NodeId|
                        x < u + 1 && r < graph.spec_out(x).len() implies root(comp@, x as int)
                        == root(comp@, #[trigger] graph.spec_out(x)[r as int] as int) by {
                        if x < u {
                            assert(graph.spec_out(x)[r as int] < n);
                            assert(root(c0, x as int) == root(c0, graph.spec_out(x)[r as int] as int));
                        }
                    }
                }
            }
            u = u + 1;
        }
        let ghost c0 = comp@;
        compress(graph, &mut comp);
        proof {
            lemma_roots_kept(graph, c0, comp@);
            lemma_first_edges_kept(graph, c0, comp@, r as int);
            assert forall|x: NodeId, k: int|
                x < graph.spec_num_nodes() && 0 <= k < r + 1 && k < graph.spec_out(x).len() implies root(
                comp@,
                x as int,
            ) == root(comp@, #[trigger] graph.spec_out(x)[k] as int) by {
                assert(graph.spec_out(x)[k] < n);
                if k == r {
                    assert(root(c0, x as int) == root(c0, graph.spec_out(x)[r as int] as int));
                }
            }
        }
        r = r + 1;
    }
    let c = sample_frequent_element(&comp, None);
    proof {
        let i = choose|i: int| 0 <= i < comp@.len() && comp@[i] == c;
        assert(comp@[i] <= i);
    }
    let directed = graph.directed();
    let mut u: usize = 0;
    while u < n
        invariant
            dense(graph),
            n == graph.spec_num_nodes(),
            directed == graph.spec_directed(),
            comp@.len() == n,
            is_forest(comp@),
            u <= n,
            c < n,
            roots_sound(graph, comp@),
            first_edges_joined(graph, comp@, neighbor_rounds as int),
            forall|x: NodeId| x < u ==> #[trigger] settled(graph, comp@, x, c),
            directed ==> forall|x: NodeId| x < u ==> #[trigger] settled_in(graph, comp@, x, c),
        decreases n - u,
    {
        if comp[u] != c {
            let neigh = graph.out_neigh(u);
            let mut k: usize = neighbor_rounds;
            while k < neigh.len()
                invariant
                    dense(graph),
                    n == graph.spec_num_nodes(),
                    u < n,
                    c < n,
                    ids(neigh@) == graph.spec_out(u),
                    comp@.len() == n,
                    is_forest(comp@),
                    roots_sound(graph, comp@),
                    first_edges_joined(graph, comp@, neighbor_rounds as int),
                    forall|x: NodeId| x < u ==> #[trigger] settled(graph, comp@, x, c),
                    directed == graph.spec_directed(),
                    directed ==> forall|x: NodeId| x < u ==> #[trigger] settled_in(graph, comp@, x, c),
                    forall|j: int|
                        neighbor_rounds <= j < k && j < graph.spec_out(u).len() ==> root(
                            comp@,
                            u as int,
                        ) == root(comp@, #[trigger] graph.spec_out(u)[j] as int),
                decreases neigh@.len() - k,
            {
                let v = neigh[k].as_node();
                let ghost c0 = comp@;
                proof {
                    assert(ids(neigh@)[k as int] == v);
                    assert(graph.spec_out(u)[k as int] == v);
                    assert(v < n);
                    assert(graph.spec_out(u).contains(v));
                    assert(linked(graph, u, v));
                }
                link(u, v, &mut comp);
                proof {
                    lemma_link_sound(graph, c0, comp@, u, v);
                    lemma_link_coarsens(c0, comp@, u as int, v as int);
                    lemma_first_edges_kept(graph, c0, comp@, neighbor_rounds as int);
                    lemma_settled_kept(graph, c0, comp@, u as int, c);
                    if directed {
                        lemma_settled_in_kept(graph, c0, comp@, u as int, c);
                    }
                    assert forall|j: int|
                        neighbor_rounds <= j < k + 1 && j < graph.spec_out(u).len() implies root(
                        comp@,
                        u as int,
                    ) == root(comp@, #[trigger] graph.spec_out(u)[j] as int) by {
                        assert(graph.spec_out(u)[j] < n);
                        if j < k {
                            assert(root(c0, u as int) == root(c0, graph.spec_out(u)[j] as int));
                        }
                    }
                }
                k = k + 1;
            }
            proof {
                assert forall|j: int| 0 <= j < graph.spec_out(u).len() implies root(
                    comp@,
                    u as int,
                ) == root(comp@, #[trigger] graph.spec_out(u)[j] as int) by {
                    if j < neighbor_rounds {
                        assert(root(comp@, u as int) == root(comp@, graph.spec_out(u)[j] as int));
                    }
                }
                assert(settled(graph, comp@, u, c));
            }
            if directed {
                let neigh = graph.in_neigh(u);
                let mut k: usize = 0;
                while k < neigh.len()
                    invariant
                        dense(graph),
                        n == graph.spec_num_nodes(),
                        u < n,
                        c < n,
                        ids(neigh@) == graph.spec_in(u),
                        comp@.len() == n,
                        is_forest(comp@),
                        roots_sound(graph, comp@),
                        first_edges_joined(graph, comp@, neighbor_rounds as int),
                        forall|x: NodeId| x <= u ==> #[trigger] settled(graph, comp@, x, c),
                        forall|x: NodeId| x < u ==> #[trigger] settled_in(graph, comp@, x, c),
                        forall|j: int|
                            0 <= j < k && j < graph.spec_in(u).len() ==> root(comp@, u as int) == root(
                                comp@,
                                #[trigger] graph.spec_in(u)[j] as int,
                            ),
                    decreases neigh@.len() - k,
                {
                    let v = neigh[k].as_node();
                    let ghost c0 = comp@;
                    proof {
                        assert(ids(neigh@)[k as int] == v);
                        assert(graph.spec_in(u)[k as int] == v);
                        assert(v < n);
                        assert(graph.spec_in(u).contains(v));
                        assert(linked(graph, u, v));
                    }
                    link(u, v, &mut comp);
                    proof {
                        lemma_link_sound(graph, c0, comp@, u, v);
                        lemma_link_coarsens(c0, comp@, u as int, v as int);
                        lemma_first_edges_kept(graph, c0, comp@, neighbor_rounds as int);
                        lemma_settled_kept(graph, c0, comp@, u + 1, c);
                        lemma_settled_in_kept(graph, c0, comp@, u as int, c);
                        assert forall|j: int|
                            0 <= j < k + 1 && j < graph.spec_in(u).len() implies root(
                            comp@,
                            u as int,
                        ) == root(comp@, #[trigger] graph.spec_in(u)[j] as int) by {
                            assert(graph.spec_in(u)[j] < n);
                            if j < k {
                                assert(root(c0, u as int) == root(c0, graph.spec_in(u)[j] as int));
                            }
                        }
                    }
                    k = k + 1;
                }
                proof {
                    assert(settled_in(graph, comp@, u, c));
                }
            }
        } else {
            proof {
                lemma_root(comp@, u as int);
                assert(settled(graph, comp@, u, c));
                assert(settled_in(graph, comp@, u, c));
            }
        }
        u = u + 1;
    }
    let ghost c0 = comp@;
    compress(graph, &mut comp);
    proof {
        lemma_roots_kept(graph, c0, comp@);
        lemma_first_edges_kept(graph, c0, comp@, neighbor_rounds as int);
        lemma_settled_kept(graph, c0, comp@, n as int, c);
        if directed {
            lemma_settled_in_kept(graph, c0, comp@, n as int, c);
        }
        assert forall|x: NodeId| x < comp@.len() implies #[trigger] connected(
            graph,
            x,
            comp@[x as int],
        ) by {
            assert(comp@[x as int] == root(comp@, x as int));
            assert(root(comp@, x as int) as NodeId == comp@[x as int]);
            assert(connected(graph, x, root(comp@, x as int) as NodeId));
        }
        if !graph.spec_directed() && symmetric(graph) {
            let cf = comp@;
            assert forall|x: NodeId, y: NodeId|
                x < cf.len() && y < cf.len() && #[trigger] graph.spec_out(x).contains(y) implies root(
                cf,
                x as int,
            ) == root(cf, y as int) by {
                let k = choose|k: int| 0 <= k < graph.spec_out(x).len() && graph.spec_out(x)[k] == y;
                if k < neighbor_rounds {
                    assert(root(cf, x as int) == root(cf, graph.spec_out(x)[k] as int));
                } else {
                    assert(settled(graph, cf, x, c));
                    assert(settled(graph, cf, y, c));
                    assert(graph.spec_out(y).contains(x));
                    if root(cf, x as int) != root(cf, c as int) {
                        assert(root(cf, x as int) == root(cf, graph.spec_out(x)[k] as int));
                    } else if root(cf, y as int) != root(cf, c as int) {
                        let m = choose|m: int|
                            0 <= m < graph.spec_out(y).len() && graph.spec_out(y)[m] == x;
                        assert(root(cf, y as int) == root(cf, graph.spec_out(y)[m] as int));
                    }
                }
            }
            assert forall|x: NodeId, y: NodeId|
                #![trigger cf[x as int], cf[y as int]]
                x < cf.len() && y < cf.len() implies (cf[x as int] == cf[y as int] <==> connected(
                graph,
                x,
                y,
            )) by {
                assert(cf[x as int] == root(cf, x as int));
                assert(cf[y as int] == root(cf, y as int));
                if cf[x as int] == cf[y as int] {
                    let rr = root(cf, x as int) as NodeId;
                    assert(connected(graph, x, rr));
                    assert(connected(graph, y, rr));
                    lemma_connected_sym(graph, y, rr);
                    lemma_connected_trans(graph, x, rr, y);
                }
                if connected(graph, x, y) {
                    let p = choose|p: Seq<NodeId>| #[trigger] is_walk(graph, p) && p[0] == x
                        && p.last() == y;
                    lemma_complete(graph, cf, p);
                }
            }
        }
        if graph.spec_directed() && transposed(graph) {
            let cf = comp@;
            assert forall|x: NodeId, y: NodeId|
                x < cf.len() && y < cf.len() && #[trigger] graph.spec_out(x).contains(y) implies root(
                cf,
                x as int,
            ) == root(cf, y as int) by {
                let k = choose|k: int| 0 <= k < graph.spec_out(x).len() && graph.spec_out(x)[k] == y;
                if k < neighbor_rounds {
                    assert(root(cf, x as int) == root(cf, graph.spec_out(x)[k] as int));
                } else {
                    assert(settled(graph, cf, x, c));
                    assert(settled_in(graph, cf, y, c));
                    assert(graph.spec_in(y).contains(x));
                    if root(cf, x as int) != root(cf, c as int) {
                        assert(root(cf, x as int) == root(cf, graph.spec_out(x)[k] as int));
                    } else if root(cf, y as int) != root(cf, c as int) {
                        let m = choose|m: int|
                            0 <= m < graph.spec_in(y).len() && graph.spec_in(y)[m] == x;
                        assert(root(cf, y as int) == root(cf, graph.spec_in(y)[m] as int));
                    }
                }
            }
            assert forall|x: NodeId, y: NodeId|
                x < graph.spec_num_nodes() && y < graph.spec_num_nodes() && #[trigger] graph.spec_in(x).contains(y)
                implies graph.spec_out(y).contains(x) by {}
            assert forall|x: NodeId, y: NodeId|
                #![trigger cf[x as int], cf[y as int]]
                x < cf.len() && y < cf.len() implies (cf[x as int] == cf[y as int] <==> connected(
                graph,
                x,
                y,
            )) by {
                assert(cf[x as int] == root(cf, x as int));
                assert(cf[y as int] == root(cf, y as int));
                if cf[x as int] == cf[y as int] {
                    let rr = root(cf, x as int) as NodeId;
                    assert(connected(graph, x, rr));
                    assert(connected(graph, y, rr));
                    lemma_connected_sym(graph, y, rr);
                    lemma_connected_trans(graph, x, rr, y);
                }
                if connected(graph, x, y) {
                    let p = choose|p: Seq<NodeId>| #[trigger] is_walk(graph, p) && p[0] == x
                        && p.last() == y;
                    lemma_complete(graph, cf, p);
                }
            }
        }
    }
    proof {
        if (!graph.spec_directed() && symmetric(graph)) || (graph.spec_directed() && transposed(graph)) {
            lemma_labels_least(graph, comp@);
        }
    }
    comp
}


proof fn lemma_coarsens_trans(a: Seq<usize>, b: Seq<usize>, c: Seq<usize>, n: int)
    requires
        coarsens(a, b, n),
        coarsens(b, c, n),
    ensures
        coarsens(a, c, n),
{
    assert forall|x: int, y: int|
        #![trigger root(c, x), root(c, y)]
        0 <= x < n && 0 <= y < n && root(a, x) == root(a, y) implies root(c, x) == root(c, y) by {
        assert(root(b, x) == root(b, y));
    }
}

/// The last phase of Afforest for one vertex `u`: unless `u` is labelled
/// `c` (the sampled largest component), `u` is linked to its out-neighbours
/// past the first `neighbor_rounds` and, in a directed graph, to all its
/// in-neighbours.
pub fn afforest_link_vertex<V: AsNode, E: AsNode, G: CSRGraph<V, E>>(
    graph: &G,
    comp: &mut Vec<NodeId>,
    u: NodeId,
    c: NodeId,
    neighbor_rounds: usize,
)
    requires
        dense(graph),
        is_forest(old(comp)@),
        old(comp)@.len() == graph.spec_num_nodes(),
        u < graph.spec_num_nodes(),
    ensures
        is_forest(final(comp)@),
        final(comp)@.len() == old(comp)@.len(),
        coarsens(old(comp)@, final(comp)@, old(comp)@.len() as int),
        roots_sound(graph, old(comp)@) ==> roots_sound(graph, final(comp)@),
        old(comp)@[u as int] == c ==> final(comp)@ == old(comp)@,
        old(comp)@[u as int] != c ==> forall|j: int|
            neighbor_rounds <= j < graph.spec_out(u).len() ==> root(final(comp)@, u as int) == root(
                final(comp)@,
                #[trigger] graph.spec_out(u)[j] as int,
            ),
        old(comp)@[u as int] != c && graph.spec_directed() ==> forall|j: int|
            0 <= j < graph.spec_in(u).len() ==> root(final(comp)@, u as int) == root(
                final(comp)@,
                #[trigger] graph.spec_in(u)[j] as int,
            ),
{
    let ghost c_start = comp@;
    let ghost sound = roots_sound(graph, c_start);
    let n = graph.num_nodes();
    if comp[u] == c {
        return;
    }
    assert(coarsens(c_start, comp@, n as int));
    let neigh = graph.out_neigh(u);
    let mut k: usize = neighbor_rounds;
    while k < neigh.len()
        invariant
            dense(graph),
            n == graph.spec_num_nodes(),
            u < n,
            ids(neigh@) == graph.spec_out(u),
            comp@.len() == n,
            c_start.len() == n,
            is_forest(comp@),
            coarsens(c_start, comp@, n as int),
            sound == roots_sound(graph, c_start),
            sound ==> roots_sound(graph, comp@),
            forall|j: int|
                neighbor_rounds <= j < k && j < graph.spec_out(u).len() ==> root(comp@, u as int)
                    == root(comp@, #[trigger] graph.spec_out(u)[j] as int),
        decreases neigh@.len() - k,
    {
        let v = neigh[k].as_node();
        let ghost c0 = comp@;
        proof {
            assert(ids(neigh@)[k as int] == v);
            assert(graph.spec_out(u)[k as int] == v);
            assert(v < n);
            assert(graph.spec_out(u).contains(v));
            assert(linked(graph, u, v));
        }
        link(u, v, comp);
        proof {
            if sound {
                lemma_link_sound(graph, c0, comp@, u, v);
            }
            lemma_link_coarsens(c0, comp@, u as int, v as int);
            lemma_coarsens_trans(c_start, c0, comp@, n as int);
            assert forall|j: int|
                neighbor_rounds <= j < k + 1 && j < graph.spec_out(u).len() implies root(comp@, u as int)
                == root(comp@, #[trigger] graph.spec_out(u)[j] as int) by {
                assert(graph.spec_out(u)[j] < n);
                if j < k {
                    assert(root(c0, u as int) == root(c0, graph.spec_out(u)[j] as int));
                }
            }
        }
        k = k + 1;
    }
    let ghost c_out = comp@;
    if graph.directed() {
        let neigh = graph.in_neigh(u);
        let mut k: usize = 0;
        while k < neigh.len()
            invariant
                dense(graph),
                n == graph.spec_num_nodes(),
                u < n,
                ids(neigh@) == graph.spec_in(u),
                comp@.len() == n,
                c_start.len() == n,
                c_out.len() == n,
                is_forest(comp@),
                coarsens(c_start, comp@, n as int),
                coarsens(c_out, comp@, n as int),
                sound == roots_sound(graph, c_start),
                sound ==> roots_sound(graph, comp@),
                forall|j: int|
                    neighbor_rounds <= j < graph.spec_out(u).len() ==> root(c_out, u as int)
                        == root(c_out, #[trigger] graph.spec_out(u)[j] as int),
                forall|j: int|
                    0 <= j < k && j < graph.spec_in(u).len() ==> root(comp@, u as int) == root(
                        comp@,
                        #[trigger] graph.spec_in(u)[j] as int,
                    ),
            decreases neigh@.len() - k,
        {
            let v = neigh[k].as_node();
            let ghost c0 = comp@;
            proof {
                assert(ids(neigh@)[k as int] == v);
                assert(graph.spec_in(u)[k as int] == v);
                assert(v < n);
                assert(graph.spec_in(u).contains(v));
                assert(linked(graph, u, v));
            }
            link(u, v, comp);
            proof {
                if sound {
                    lemma_link_sound(graph, c0, comp@, u, v);
                }
                lemma_link_coarsens(c0, comp@, u as int, v as int);
                lemma_coarsens_trans(c_start, c0, comp@, n as int);
                lemma_coarsens_trans(c_out, c0, comp@, n as int);
                assert forall|j: int|
                    0 <= j < k + 1 && j < graph.spec_in(u).len() implies root(comp@, u as int) == root(
                    comp@,
                    #[trigger] graph.spec_in(u)[j] as int,
                ) by {
                    assert(graph.spec_in(u)[j] < n);
                    if j < k {
                        assert(root(c0, u as int) == root(c0, graph.spec_in(u)[j] as int));
                    }
                }
            }
            k = k + 1;
        }
        proof {
            assert forall|j: int|
                neighbor_rounds <= j < graph.spec_out(u).len() implies root(comp@, u as int) == root(
                comp@,
                #[trigger] graph.spec_out(u)[j] as int,
            ) by {
                assert(graph.spec_out(u)[j] < n);
                assert(root(c_out, u as int) == root(c_out, graph.spec_out(u)[j] as int));
            }
        }
    }
}

/// One step of the labelling check's search from `u`: along an out-edge,
/// or, in a directed graph, along an in-edge as well.
pub open spec fn check_step<V: AsNode, E: AsNode, G: CSRGraph<V, E>>(g: &G, u: NodeId, v: NodeId) -> bool {
    u < g.spec_num_nodes() && (g.spec_out(u).contains(v) || (g.spec_directed() && g.spec_in(u).contains(v)))
}

/// The check's search from `s` reaches `v` in at most `k` steps.
pub open spec fn check_reach_within<V: AsNode, E: AsNode, G: CSRGraph<V, E>>(
    g: &G,
    s: NodeId,
    v: NodeId,
    k: nat,
) -> bool
    decreases k,
{
    if k == 0 {
        v == s
    } else {
        ||| check_reach_within(g, s, v, (k - 1) as nat)
        ||| exists|u: NodeId| check_reach_within(g, s, u, (k - 1) as nat) && #[trigger] check_step(g, u, v)
    }
}

pub open spec fn check_reaches<V: AsNode, E: AsNode, G: CSRGraph<V, E>>(g: &G, s: NodeId, v: NodeId) -> bool {
    exists|k: nat| check_reach_within(g, s, v, k)
}

/// The last vertex below `n` labelled `l`, or `-1`.
pub open spec fn last_labelled(comp: Seq<NodeId>, n: int, l: NodeId) -> int
    decreases n,
{
    if n <= 0 {
        -1
    } else if comp[n - 1] == l {
        n - 1
    } else {
        last_labelled(comp, n - 1, l)
    }
}

/// What the labelling check accepts: for every label, the search from
/// the last vertex with that label reaches exactly the vertices with it.
pub open spec fn labels_check<V: AsNode, E: AsNode, G: CSRGraph<V, E>>(g: &G, comp: Seq<NodeId>) -> bool {
    let n = g.spec_num_nodes() as int;
    &&& forall|x: NodeId|
        x < n ==> #[trigger] check_reaches(g, last_labelled(comp, n, comp[x as int]) as NodeId, x)
    &&& forall|x: NodeId, y: NodeId|
        x < n && #[trigger] check_reaches(g, last_labelled(comp, n, comp[x as int]) as NodeId, y)
            ==> comp[y as int] == comp[x as int]
}

proof fn lemma_last_labelled(comp: Seq<NodeId>, n: int, x: int)
    requires
        0 <= x < n <= comp.len(),
    ensures
        x <= last_labelled(comp, n, comp[x]) < n,
        comp[last_labelled(comp, n, comp[x])] == comp[x],
    decreases n,
{
    if comp[n - 1] != comp[x] {
        lemma_last_labelled(comp, n - 1, x);
    }
}

proof fn lemma_last_labelled_found(comp: Seq<NodeId>, n: int, l: NodeId)
    requires
        n <= comp.len(),
        last_labelled(comp, n, l) >= 0,
    ensures
        last_labelled(comp, n, l) < n,
        comp[last_labelled(comp, n, l)] == l,
    decreases n,
{
    if n > 0 && comp[n - 1] != l {
        lemma_last_labelled_found(comp, n - 1, l);
    }
}

proof fn lemma_check_reach_in_graph<V: AsNode, E: AsNode, G: CSRGraph<V, E>>(g: &G, s: NodeId, v: NodeId, k: nat)
    requires
        dense(g),
        s < g.spec_num_nodes(),
        check_reach_within(g, s, v, k),
    ensures
        v < g.spec_num_nodes(),
    decreases k,
{
    if k > 0 {
        if check_reach_within(g, s, v, (k - 1) as nat) {
            lemma_check_reach_in_graph(g, s, v, (k - 1) as nat);
        } else {
            let u = choose|u: NodeId| check_reach_within(g, s, u, (k - 1) as nat) && #[trigger] check_step(g, u, v);
            if g.spec_out(u).contains(v) {
                let i = choose|i: int| 0 <= i < g.spec_out(u).len() && g.spec_out(u)[i] == v;
                assert(g.spec_out(u)[i] < g.spec_num_nodes());
            } else {
                let i = choose|i: int| 0 <= i < g.spec_in(u).len() && g.spec_in(u)[i] == v;
                assert(g.spec_in(u)[i] < g.spec_num_nodes());
            }
        }
    }
}

/// A set that holds `s` and is closed under the search's steps holds
/// everything the search reaches.
proof fn lemma_check_closed<V: AsNode, E: AsNode, G: CSRGraph<V, E>>(
    g: &G,
    s: NodeId,
    d: Set<NodeId>,
    v: NodeId,
    k: nat,
)
    requires
        d.contains(s),
        forall|u: NodeId, x: NodeId| d.contains(u) && #[trigger] check_step(g, u, x) ==> d.contains(x),
        check_reach_within(g, s, v, k),
    ensures
        d.contains(v),
    decreases k,
{
    if k > 0 {
        if check_reach_within(g, s, v, (k - 1) as nat) {
            lemma_check_closed(g, s, d, v, (k - 1) as nat);
        } else {
            let u = choose|u: NodeId| check_reach_within(g, s, u, (k - 1) as nat) && #[trigger] check_step(g, u, v);
            lemma_check_closed(g, s, d, u, (k - 1) as nat);
        }
    }
}

pub open spec fn count_true(s: Seq<bool>) -> nat
    decreases s.len(),
{
    if s.len() == 0 {
        0
    } else {
        count_true(s.drop_last()) + if s.last() {
            1nat
        } else {
            0nat
        }
    }
}

proof fn lemma_count_true_set(s: Seq<bool>, i: int)
    requires
        0 <= i < s.len(),
        !s[i],
    ensures
        count_true(s.update(i, true)) == count_true(s) + 1,
    decreases s.len(),
{
    if i < s.len() - 1 {
        lemma_count_true_set(s.drop_last(), i);
        assert(s.update(i, true).drop_last() =~= s.drop_last().update(i, true));
    } else {
        assert(s.update(i, true).drop_last() =~= s.drop_last());
    }
}

proof fn lemma_count_true_none(s: Seq<bool>)
    requires
        forall|i: int| 0 <= i < s.len() ==> !s[i],
    ensures
        count_true(s) == 0,
    decreases s.len(),
{
    if s.len() > 0 {
        lemma_count_true_none(s.drop_last());
    }
}

proof fn lemma_count_true_le(s: Seq<bool>)
    ensures
        count_true(s) <= s.len(),
    decreases s.len(),
{
    if s.len() > 0 {
        lemma_count_true_le(s.drop_last());
    }
}

/// Vertices the searches for the first `li` labels reach.
pub open spec fn covered<V: AsNode, E: AsNode, G: CSRGraph<V, E>>(
    g: &G,
    sources: Map<usize, NodeId>,
    labels: Seq<usize>,
    li: int,
    y: NodeId,
) -> bool {
    exists|j: int| 0 <= j < li && #[trigger] check_reaches(g, sources[labels[j]], y)
}

/// Checks a labelling the way the suite checks connected components: for
/// every label, a search from the last vertex with that label (along
/// out-edges, and in-edges too when the graph is directed) may only meet
/// vertices with that label, and every vertex must be met by some search.
pub fn verify_labels<V: AsNode, E: AsNode, G: CSRGraph<V, E>>(graph: &G, comp: &Vec<NodeId>) -> (ok: bool)
    requires
        dense(graph),
        comp@.len() >= graph.spec_num_nodes(),
    ensures
        ok == labels_check(graph, comp@),
{
    let n = graph.num_nodes();
    let ghost ni = n as int;
    let verts = graph.vertices();
    let mut label_to_source: SortedMap<NodeId> = SortedMap::new();
    let mut i: usize = 0;
    assert(ids(verts@).len() == verts@.len());
    while i < verts.len()
        invariant
            dense(graph),
            n == graph.spec_num_nodes(),
            ids(verts@) == Seq::new(n as nat, |x: int| x as NodeId),
            verts@.len() == n,
            comp@.len() >= n,
            i <= verts@.len(),
            label_to_source.wf(),
            forall|l: usize| #[trigger] label_to_source@.contains_key(l) ==> label_to_source@[l]
                == last_labelled(comp@, i as int, l),
            forall|l: usize| #[trigger] label_to_source@.contains_key(l) <==> last_labelled(comp@, i as int, l) >= 0,
        decreases verts@.len() - i,
    {
        let x = verts[i].as_node();
        proof {
            assert(ids(verts@)[i as int] == x);
            assert(x == i);
        }
        label_to_source.insert(comp[x], x);
        i = i + 1;
    }
    proof {
        assert(i == n);
        assert forall|x: NodeId| x < n implies #[trigger] label_to_source@.contains_key(comp@[x as int])
            && label_to_source@[comp@[x as int]] == last_labelled(comp@, ni, comp@[x as int]) by {
            lemma_last_labelled(comp@, ni, x as int);
        }
    }
    let ghost sources = label_to_source@;
    let labels = label_to_source.keys_vec();
    proof {
        assert forall|l: usize| #[trigger] sources.contains_key(l) implies 0 <= sources[l] < n && comp@[sources[l] as int] == l by {
            lemma_last_labelled_found(comp@, ni, l);
        }
        label_to_source.lemma_dom();
        label_to_source.lemma_sorted();
        label_to_source.lemma_len();
    }
    let mut visited: Vec<bool> = Vec::new();
    let mut x: usize = 0;
    while x < n
        invariant
            x <= n,
            visited@ == Seq::new(x as nat, |_i: int| false),
        decreases n - x,
    {
        visited.push(false);
        x = x + 1;
    }
    proof {
        assert forall|y: NodeId| y < n implies (#[trigger] visited@[y as int] <==> covered(
            graph,
            sources,
            labels@,
            0,
            y,
        )) by {}
        lemma_count_true_none(visited@);
    }
    let mut frontier: Vec<NodeId> = Vec::new();
    let mut li: usize = 0;
    while li < labels.len()
        invariant
            dense(graph),
            n == graph.spec_num_nodes(),
            ni == n as int,
            comp@.len() >= n,
            visited@.len() == n,
            labels@ == label_to_source.keys(),
            crate::sortedmap::strictly_sorted(labels@),
            sources == label_to_source@,
            label_to_source.wf(),
            forall|l: usize| #[trigger] sources.contains_key(l) <==> labels@.contains(l),
            forall|l: usize| #[trigger] sources.contains_key(l) ==> sources[l] == last_labelled(comp@, ni, l),
            forall|x: NodeId| x < n ==> #[trigger] sources.contains_key(comp@[x as int]),
            forall|l: usize| #[trigger] sources.contains_key(l) ==> 0 <= sources[l] < n && comp@[sources[l] as int] == l,
            li <= labels@.len(),
            forall|y: NodeId| y < n ==> (#[trigger] visited@[y as int] <==> covered(graph, sources, labels@, li as int, y)),
            forall|j: int, y: NodeId|
                0 <= j < li && #[trigger] check_reaches(graph, sources[labels@[j]], y) ==> comp@[y as int] == labels@[j],
        decreases labels@.len() - li,
    {
        let curr_label = labels[li];
        proof {
            label_to_source.lemma_index_of(li as int);
            assert(labels@.contains(curr_label));
        }
        let source = *label_to_source.value_at(li);
        let ghost vis0 = visited@;
        proof {
            assert(source == sources[curr_label]);
            assert(!covered(graph, sources, labels@, li as int, source)) by {
                if covered(graph, sources, labels@, li as int, source) {
                    let j = choose|j: int| 0 <= j < li && #[trigger] check_reaches(graph, sources[labels@[j]], source);
                    assert(comp@[source as int] == labels@[j]);
                }
            }
            assert(check_reach_within(graph, source, source, 0));
            lemma_count_true_set(visited@, source as int);
            lemma_count_true_le(visited@.update(source as int, true));
        }
        frontier.clear();
        frontier.push(source);
        visited.set(source, true);
        proof {
            assert(frontier@[0] == source);
            assert(frontier@.contains(source));
            assert forall|y: NodeId| y < n implies (#[trigger] visited@[y as int] <==> (covered(graph, sources, labels@, li as int, y)
                || frontier@.contains(y))) by {
                if y != source && frontier@.contains(y) {
                    let k = choose|k: int| 0 <= k < frontier@.len() && frontier@[k] == y;
                }
            }
            assert(check_reaches(graph, source, source));
        }
        let mut head: usize = 0;
        while head < frontier.len()
            invariant
                dense(graph),
                n == graph.spec_num_nodes(),
                comp@.len() >= n,
                visited@.len() == n,
                source < n,
                comp@[source as int] == curr_label,
                curr_label == labels@[li as int],
                li < labels@.len(),
                crate::sortedmap::strictly_sorted(labels@),
                forall|j: int, y: NodeId|
                    0 <= j < li && #[trigger] check_reaches(graph, sources[labels@[j]], y) ==> comp@[y as int] == labels@[j],
                frontier@.no_duplicates(),
                frontier@.len() >= 1,
                frontier@[0] == source,
                forall|k: int| 0 <= k < frontier@.len() ==> {
                    let y = #[trigger] frontier@[k];
                    &&& y < n
                    &&& visited@[y as int]
                    &&& !covered(graph, sources, labels@, li as int, y)
                    &&& check_reaches(graph, source, y)
                    &&& comp@[y as int] == curr_label
                },
                forall|y: NodeId| y < n ==> (#[trigger] visited@[y as int] <==> (covered(graph, sources, labels@, li as int, y)
                    || frontier@.contains(y))),
                forall|p: int, v: NodeId| 0 <= p < head && #[trigger] check_step(graph, frontier@[p], v) ==> frontier@.contains(v),
                head <= frontier@.len(),
                count_true(visited@) <= n,
                count_true(visited@) == count_true(vis0) + frontier@.len(),
                ni == n as int,
                source == last_labelled(comp@, ni, curr_label),
            decreases n - count_true(visited@) + frontier@.len() - head,
        {
            let u = frontier[head];
            let ghost ku = choose|k: nat| check_reach_within(graph, source, u, k);
            proof {
                assert(frontier@[head as int] == u);
            }
            let outs = graph.out_neigh(u);
            let mut j: usize = 0;
            while j < outs.len()
                invariant
                    dense(graph),
                    n == graph.spec_num_nodes(),
                    comp@.len() >= n,
                    visited@.len() == n,
                    source < n,
                    u < n,
                    u == frontier@[head as int],
                    check_reach_within(graph, source, u, ku),
                    ids(outs@) == graph.spec_out(u),
                    comp@[source as int] == curr_label,
                    curr_label == labels@[li as int],
                    li < labels@.len(),
                    crate::sortedmap::strictly_sorted(labels@),
                    forall|jj: int, y: NodeId|
                        0 <= jj < li && #[trigger] check_reaches(graph, sources[labels@[jj]], y) ==> comp@[y as int] == labels@[jj],
                    frontier@.no_duplicates(),
                    frontier@.len() >= 1,
                    frontier@[0] == source,
                    forall|k: int| 0 <= k < frontier@.len() ==> {
                        let y = #[trigger] frontier@[k];
                        &&& y < n
                        &&& visited@[y as int]
                        &&& !covered(graph, sources, labels@, li as int, y)
                        &&& check_reaches(graph, source, y)
                        &&& comp@[y as int] == curr_label
                    },
                    forall|y: NodeId| y < n ==> (#[trigger] visited@[y as int] <==> (covered(graph, sources, labels@, li as int, y)
                        || frontier@.contains(y))),
                    forall|p: int, v: NodeId| 0 <= p < head && #[trigger] check_step(graph, frontier@[p], v) ==> frontier@.contains(v),
                    forall|jj: int| 0 <= jj < j ==> frontier@.contains(#[trigger] graph.spec_out(u)[jj]),
                    head < frontier@.len(),
                    j <= outs@.len(),
                    count_true(visited@) == count_true(vis0) + frontier@.len(),
                    count_true(visited@) <= n,
                    ni == n as int,
                    source == last_labelled(comp@, ni, curr_label),
                decreases outs@.len() - j,
            {
                let v = outs[j].as_node();
                proof {
                    assert(graph.spec_out(u)[j as int] == v);
                    assert(v < n);
                    assert(check_step(graph, u, v));
                    assert(check_reach_within(graph, source, v, ku + 1));
                }
                if comp[v] != curr_label {
                    proof {
                        assert(check_reaches(graph, source, v));
                        assert(last_labelled(comp@, ni, comp@[source as int]) == source);
                        assert(check_reaches(graph, last_labelled(comp@, ni, comp@[source as int]) as NodeId, v));
                    }
                    return false;
                }
                if !visited[v] {
                    let ghost f0 = frontier@;
                    let ghost v0 = visited@;
                    proof {
                        lemma_count_true_set(visited@, v as int);
                        lemma_count_true_le(visited@.update(v as int, true));
                        assert(!f0.contains(v));
                    }
                    visited.set(v, true);
                    frontier.push(v);
                    proof {
                        assert forall|y: NodeId| y < n implies (#[trigger] visited@[y as int] <==> (covered(graph, sources, labels@, li as int, y)
                            || frontier@.contains(y))) by {
                            if frontier@.contains(y) && y != v {
                                let k = choose|k: int| 0 <= k < frontier@.len() && frontier@[k] == y;
                                assert(f0[k] == y);
                            }
                            if f0.contains(y) {
                                let k = choose|k: int| 0 <= k < f0.len() && f0[k] == y;
                                assert(frontier@[k] == y);
                            }
                            if y == v {
                                assert(frontier@[f0.len() as int] == v);
                            }
                        }
                        assert forall|p: int, w: NodeId| 0 <= p < head && #[trigger] check_step(graph, frontier@[p], w) implies frontier@.contains(w) by {
                            assert(frontier@[p] == f0[p]);
                            assert(f0.contains(w));
                            let k = choose|k: int| 0 <= k < f0.len() && f0[k] == w;
                            assert(frontier@[k] == w);
                        }
                        assert forall|jj: int| 0 <= jj < j + 1 implies frontier@.contains(#[trigger] graph.spec_out(u)[jj]) by {
                            if jj < j {
                                let k = choose|k: int| 0 <= k < f0.len() && f0[k] == graph.spec_out(u)[jj];
                                assert(frontier@[k] == graph.spec_out(u)[jj]);
                            } else {
                                assert(frontier@[f0.len() as int] == v);
                            }
                        }
                        assert(!covered(graph, sources, labels@, li as int, v));
                    }
                } else {
                    proof {
                        if covered(graph, sources, labels@, li as int, v) {
                            let jj = choose|jj: int| 0 <= jj < li && #[trigger] check_reaches(graph, sources[labels@[jj]], v);
                            assert(comp@[v as int] == labels@[jj]);
                            assert(labels@[jj] < labels@[li as int]);
                        }
                    }
                }
                j = j + 1;
            }
            if graph.directed() {
                let ins = graph.in_neigh(u);
                let mut j: usize = 0;
                while j < ins.len()
                    invariant
                        dense(graph),
                        graph.spec_directed(),
                        n == graph.spec_num_nodes(),
                        comp@.len() >= n,
                        visited@.len() == n,
                        source < n,
                        u < n,
                        u == frontier@[head as int],
                        check_reach_within(graph, source, u, ku),
                        ids(ins@) == graph.spec_in(u),
                        comp@[source as int] == curr_label,
                        curr_label == labels@[li as int],
                        li < labels@.len(),
                        crate::sortedmap::strictly_sorted(labels@),
                        forall|jj: int, y: NodeId|
                            0 <= jj < li && #[trigger] check_reaches(graph, sources[labels@[jj]], y) ==> comp@[y as int] == labels@[jj],
                        frontier@.no_duplicates(),
                        frontier@.len() >= 1,
                        frontier@[0] == source,
                        forall|k: int| 0 <= k < frontier@.len() ==> {
                            let y = #[trigger] frontier@[k];
                            &&& y < n
                            &&& visited@[y as int]
                            &&& !covered(graph, sources, labels@, li as int, y)
                            &&& check_reaches(graph, source, y)
                            &&& comp@[y as int] == curr_label
                        },
                        forall|y: NodeId| y < n ==> (#[trigger] visited@[y as int] <==> (covered(graph, sources, labels@, li as int, y)
                            || frontier@.contains(y))),
                        forall|p: int, v: NodeId| 0 <= p < head && #[trigger] check_step(graph, frontier@[p], v) ==> frontier@.contains(v),
                        forall|jj: int| 0 <= jj < graph.spec_out(u).len() ==> frontier@.contains(#[trigger] graph.spec_out(u)[jj]),
                        forall|jj: int| 0 <= jj < j ==> frontier@.contains(#[trigger] graph.spec_in(u)[jj]),
                        head < frontier@.len(),
                        j <= ins@.len(),
                        count_true(visited@) == count_true(vis0) + frontier@.len(),
                        count_true(visited@) <= n,
                        ni == n as int,
                        source == last_labelled(comp@, ni, curr_label),
                    decreases ins@.len() - j,
                {
                    let v = ins[j].as_node();
                    proof {
                        assert(graph.spec_in(u)[j as int] == v);
                        assert(v < n);
                        assert(check_step(graph, u, v));
                        assert(check_reach_within(graph, source, v, ku + 1));
                    }
                    if comp[v] != curr_label {
                        proof {
                            assert(check_reaches(graph, source, v));
                            assert(last_labelled(comp@, ni, comp@[source as int]) == source);
                            assert(check_reaches(graph, last_labelled(comp@, ni, comp@[source as int]) as NodeId, v));
                        }
                        return false;
                    }
                    if !visited[v] {
                        let ghost f0 = frontier@;
                        proof {
                            lemma_count_true_set(visited@, v as int);
                            lemma_count_true_le(visited@.update(v as int, true));
                            assert(!f0.contains(v));
                        }
                        visited.set(v, true);
                        frontier.push(v);
                        proof {
                            assert forall|y: NodeId| y < n implies (#[trigger] visited@[y as int] <==> (covered(graph, sources, labels@, li as int, y)
                                || frontier@.contains(y))) by {
                                if frontier@.contains(y) && y != v {
                                    let k = choose|k: int| 0 <= k < frontier@.len() && frontier@[k] == y;
                                    assert(f0[k] == y);
                                }
                                if f0.contains(y) {
                                    let k = choose|k: int| 0 <= k < f0.len() && f0[k] == y;
                                    assert(frontier@[k] == y);
                                }
                                if y == v {
                                    assert(frontier@[f0.len() as int] == v);
                                }
                            }
                            assert forall|p: int, w: NodeId| 0 <= p < head && #[trigger] check_step(graph, frontier@[p], w) implies frontier@.contains(w) by {
                                assert(frontier@[p] == f0[p]);
                                assert(f0.contains(w));
                                let k = choose|k: int| 0 <= k < f0.len() && f0[k] == w;
                                assert(frontier@[k] == w);
                            }
                            assert forall|jj: int| 0 <= jj < graph.spec_out(u).len() implies frontier@.contains(#[trigger] graph.spec_out(u)[jj]) by {
                                let k = choose|k: int| 0 <= k < f0.len() && f0[k] == graph.spec_out(u)[jj];
                                assert(frontier@[k] == graph.spec_out(u)[jj]);
                            }
                            assert forall|jj: int| 0 <= jj < j + 1 implies frontier@.contains(#[trigger] graph.spec_in(u)[jj]) by {
                                if jj < j {
                                    let k = choose|k: int| 0 <= k < f0.len() && f0[k] == graph.spec_in(u)[jj];
                                    assert(frontier@[k] == graph.spec_in(u)[jj]);
                                } else {
                                    assert(frontier@[f0.len() as int] == v);
                                }
                            }
                            assert(!covered(graph, sources, labels@, li as int, v));
                        }
                    } else {
                        proof {
                            if covered(graph, sources, labels@, li as int, v) {
                                let jj = choose|jj: int| 0 <= jj < li && #[trigger] check_reaches(graph, sources[labels@[jj]], v);
                                assert(comp@[v as int] == labels@[jj]);
                                assert(labels@[jj] < labels@[li as int]);
                            }
                        }
                    }
                    j = j + 1;
                }
            }
            proof {
                assert forall|p: int, v: NodeId| 0 <= p < head + 1 && #[trigger] check_step(graph, frontier@[p], v) implies frontier@.contains(v) by {
                    if p == head {
                        if graph.spec_out(u).contains(v) {
                            let jj = choose|jj: int| 0 <= jj < graph.spec_out(u).len() && graph.spec_out(u)[jj] == v;
                            assert(frontier@.contains(graph.spec_out(u)[jj]));
                        } else {
                            let jj = choose|jj: int| 0 <= jj < graph.spec_in(u).len() && graph.spec_in(u)[jj] == v;
                            assert(frontier@.contains(graph.spec_in(u)[jj]));
                        }
                    }
                }
            }
            head = head + 1;
        }
        proof {
            let d = frontier@.to_set();
            assert forall|w: NodeId, y: NodeId| d.contains(w) && #[trigger] check_step(graph, w, y) implies d.contains(y) by {
                let p = choose|p: int| 0 <= p < frontier@.len() && frontier@[p] == w;
                assert(check_step(graph, frontier@[p], y));
            }
            assert(d.contains(source)) by {
                assert(frontier@[0] == source);
            }
            assert forall|y: NodeId| #[trigger] check_reaches(graph, source, y) implies frontier@.contains(y) by {
                let k = choose|k: nat| check_reach_within(graph, source, y, k);
                lemma_check_closed(graph, source, d, y, k);
            }
            assert forall|y: NodeId| y < n implies (#[trigger] visited@[y as int] <==> covered(
                graph,
                sources,
                labels@,
                li + 1,
                y,
            )) by {
                if covered(graph, sources, labels@, li + 1, y) {
                    let jj = choose|jj: int| 0 <= jj < li + 1 && #[trigger] check_reaches(graph, sources[labels@[jj]], y);
                    if jj < li {
                        assert(covered(graph, sources, labels@, li as int, y));
                    } else {
                        assert(frontier@.contains(y));
                    }
                }
                if visited@[y as int] && !covered(graph, sources, labels@, li as int, y) {
                    let k = choose|k: int| 0 <= k < frontier@.len() && frontier@[k] == y;
                    assert(check_reaches(graph, sources[labels@[li as int]], y));
                }
            }
            assert forall|jj: int, y: NodeId|
                0 <= jj < li + 1 && #[trigger] check_reaches(graph, sources[labels@[jj]], y) implies comp@[y as int] == labels@[jj] by {
                if jj == li {
                    assert(frontier@.contains(y));
                    let k = choose|k: int| 0 <= k < frontier@.len() && frontier@[k] == y;
                }
            }
        }
        li = li + 1;
    }
    let mut x: usize = 0;
    while x < n
        invariant
            dense(graph),
            n == graph.spec_num_nodes(),
            ni == n as int,
            comp@.len() >= n,
            visited@.len() == n,
            x <= n,
            labels@ == label_to_source.keys(),
            sources == label_to_source@,
            forall|l: usize| #[trigger] sources.contains_key(l) <==> labels@.contains(l),
            forall|l: usize| #[trigger] sources.contains_key(l) ==> sources[l] == last_labelled(comp@, ni, l),
            forall|x: NodeId| x < n ==> #[trigger] sources.contains_key(comp@[x as int]),
            forall|y: NodeId| y < n ==> (#[trigger] visited@[y as int] <==> covered(graph, sources, labels@, labels@.len() as int, y)),
            forall|j: int, y: NodeId|
                0 <= j < labels@.len() && #[trigger] check_reaches(graph, sources[labels@[j]], y) ==> comp@[y as int] == labels@[j],
            forall|y: NodeId| y < x ==> #[trigger] visited@[y as int],
        decreases n - x,
    {
        if !visited[x] {
            proof {
                let l = comp@[x as int];
                assert(sources.contains_key(l));
                let j = choose|j: int| 0 <= j < labels@.len() && labels@[j] == l;
                if check_reaches(graph, last_labelled(comp@, ni, l) as NodeId, x) {
                    assert(check_reaches(graph, sources[labels@[j]], x));
                }
            }
            return false;
        }
        x = x + 1;
    }
    proof {
        assert forall|y: NodeId| y < n implies #[trigger] check_reaches(
            graph,
            last_labelled(comp@, ni, comp@[y as int]) as NodeId,
            y,
        ) by {
            assert(visited@[y as int]);
            let j = choose|j: int| 0 <= j < labels@.len() && #[trigger] check_reaches(graph, sources[labels@[j]], y);
            assert(comp@[y as int] == labels@[j]);
            assert(labels@.contains(labels@[j]));
            assert(sources.contains_key(labels@[j]));
        }
        assert forall|x: NodeId, y: NodeId|
            x < n && #[trigger] check_reaches(graph, last_labelled(comp@, ni, comp@[x as int]) as NodeId, y)
                implies comp@[y as int] == comp@[x as int] by {
            let l = comp@[x as int];
            assert(sources.contains_key(l));
            let j = choose|j: int| 0 <= j < labels@.len() && labels@[j] == l;
            assert(check_reaches(graph, sources[labels@[j]], y));
        }
    }
    true
}


/// In an undirected graph the check's search reaches only connected vertices.
proof fn lemma_check_reach_connected<V: AsNode, E: AsNode, G: CSRGraph<V, E>>(g: &G, s: NodeId, v: NodeId, k: nat)
    requires
        dense(g),
        s < g.spec_num_nodes(),
        !g.spec_directed(),
        check_reach_within(g, s, v, k),
    ensures
        connected(g, s, v),
    decreases k,
{
    if k == 0 {
        lemma_connected_refl(g, s);
    } else if check_reach_within(g, s, v, (k - 1) as nat) {
        lemma_check_reach_connected(g, s, v, (k - 1) as nat);
    } else {
        let u = choose|u: NodeId| check_reach_within(g, s, u, (k - 1) as nat) && #[trigger] check_step(g, u, v);
        lemma_check_reach_connected(g, s, u, (k - 1) as nat);
        lemma_check_reach_in_graph(g, s, u, (k - 1) as nat);
        lemma_check_reach_in_graph(g, s, v, k);
        lemma_connected_linked(g, u, v);
        lemma_connected_trans(g, s, u, v);
    }
}

/// With symmetric adjacency, the check's search reaches every vertex of a
/// walk from its start.
proof fn lemma_walk_check_reach<V: AsNode, E: AsNode, G: CSRGraph<V, E>>(g: &G, p: Seq<NodeId>, i: int)
    requires
        symmetric(g),
        is_walk(g, p),
        0 <= i < p.len(),
    ensures
        check_reach_within(g, p[0], p[i], i as nat),
    decreases i,
{
    if i > 0 {
        lemma_walk_check_reach(g, p, i - 1);
        let a = p[i - 1];
        let b = p[i];
        assert(linked(g, p[i - 1], p[(i - 1) + 1]));
        if g.spec_out(b).contains(a) || g.spec_in(a).contains(b) || g.spec_in(b).contains(a) {
            if g.spec_in(b).contains(a) {
                assert(g.spec_out(a).contains(b));
            } else if g.spec_in(a).contains(b) {
                assert(g.spec_out(b).contains(a));
            }
        }
        assert(g.spec_out(a).contains(b));
        assert(check_step(g, a, b));
        assert(check_reach_within(g, p[0], a, (i - 1) as nat));
    }
}

/// A labelling in which two vertices share a label exactly when they are
/// connected, such as the one `afforest` computes for an undirected graph
/// with symmetric adjacency, passes `verify_labels`.
pub proof fn lemma_component_labels_pass_check<V: AsNode, E: AsNode, G: CSRGraph<V, E>>(g: &G, comp: Seq<NodeId>)
    requires
        dense(g),
        !g.spec_directed(),
        symmetric(g),
        comp.len() == g.spec_num_nodes(),
        g.spec_num_nodes() <= usize::MAX,
        forall|x: NodeId, y: NodeId|
            #![trigger comp[x as int], comp[y as int]]
            x < comp.len() && y < comp.len() ==> (comp[x as int] == comp[y as int] <==> connected(g, x, y)),
    ensures
        labels_check(g, comp),
{
    let n = g.spec_num_nodes() as int;
    assert forall|x: NodeId| x < n implies #[trigger] check_reaches(g, last_labelled(comp, n, comp[x as int]) as NodeId, x) by {
        lemma_last_labelled(comp, n, x as int);
        let s = last_labelled(comp, n, comp[x as int]) as NodeId;
        assert(comp[s as int] == comp[x as int]);
        assert(connected(g, s, x));
        let p = choose|p: Seq<NodeId>| #[trigger] is_walk(g, p) && p[0] == s && p.last() == x;
        lemma_walk_check_reach(g, p, p.len() - 1);
    }
    assert forall|x: NodeId, y: NodeId|
        x < n && #[trigger] check_reaches(g, last_labelled(comp, n, comp[x as int]) as NodeId, y) implies comp[y as int]
            == comp[x as int] by {
        lemma_last_labelled(comp, n, x as int);
        let s = last_labelled(comp, n, comp[x as int]) as NodeId;
        let k = choose|k: nat| check_reach_within(g, s, y, k);
        lemma_check_reach_connected(g, s, y, k);
        lemma_check_reach_in_graph(g, s, y, k);
        assert(comp[s as int] == comp[x as int]);
    }
}

} // verus!
