//! Generates edge lists: `num_nodes = 2^scale` vertices joined by edges
//! whose endpoints are drawn uniformly at random.

use crate::random::{drawn, shuffle, thread_rng, RecordedRng};
use crate::types::{Edge, EdgeList, NodeId, DEGREE};
use vstd::prelude::*;

verus! {

pub struct Generator {
    scale: usize,
    num_nodes: usize,
    num_edges: usize,
    block_size: usize,
}

/// Every edge joins two of the first `n` vertices.
pub open spec fn endpoints_below(edge_list: Seq<Edge>, n: nat) -> bool {
    forall|i: int| 0 <= i < edge_list.len() ==> #[trigger] edge_list[i].0 < n && edge_list[i].1 < n
}

/// The edge carries a weight in `1 .. 256`.
pub open spec fn has_small_weight(e: Edge) -> bool {
    match e.2 {
        Some(w) => 1 <= w < 256,
        None => false,
    }
}

/// `edge_list` pairs up the draws `d` in order: edge `i` runs from the
/// value of draw `2 i` to that of draw `2 i + 1`, without a weight, and
/// every draw was made from all of `0 .. n`.
pub open spec fn paired_draws(edge_list: Seq<Edge>, d: Seq<(usize, usize, usize)>, n: nat) -> bool {
    &&& d.len() == 2 * edge_list.len()
    &&& forall|k: int| 0 <= k < d.len() ==> (#[trigger] d[k]).0 == 0 && d[k].1 == n
    &&& forall|i: int|
        0 <= i < edge_list.len() ==> #[trigger] edge_list[i] == (d[2 * i].2, d[2 * i + 1].2, None::<NodeId>)
}

/// `after` is `before` with draw `i` of `d` as the weight of edge `i`,
/// every draw made from `1 .. 256`.
pub open spec fn weighted_by_draws(before: Seq<Edge>, after: Seq<Edge>, d: Seq<(usize, usize, usize)>) -> bool {
    &&& d.len() == before.len()
    &&& after.len() == before.len()
    &&& forall|k: int|
        0 <= k < d.len() ==> (#[trigger] d[k]).0 == 1 && d[k].1 == 256 && after[k] == (
            before[k].0,
            before[k].1,
            Some(d[k].2),
        )
}

impl Generator {
    pub closed spec fn spec_scale(&self) -> nat {
        self.scale as nat
    }

    pub closed spec fn spec_num_nodes(&self) -> nat {
        self.num_nodes as nat
    }

    pub closed spec fn spec_num_edges(&self) -> nat {
        self.num_edges as nat
    }

    pub closed spec fn spec_block_size(&self) -> nat {
        self.block_size as nat
    }

    /// A generator for `2^scale` vertices and `(DEGREE + 1) * 2^scale`
    /// edges (the number of edges the suite's tests expect of a generated
    /// list; the `degree` argument does not change it).
    pub fn new(scale: usize, degree: usize) -> (g: Self)
        requires
            scale < 64,
            vstd::arithmetic::power2::pow2(scale as nat) * (DEGREE + 1) <= usize::MAX,
        ensures
            g.spec_scale() == scale,
            g.spec_num_nodes() == vstd::arithmetic::power2::pow2(scale as nat),
            g.spec_num_edges() == g.spec_num_nodes() * (DEGREE + 1),
            g.spec_block_size() == vstd::arithmetic::power2::pow2(18),
    {
        proof {
            vstd::arithmetic::power2::lemma2_to64();
            vstd::arithmetic::power2::lemma_pow2_pos(scale as nat);
            let p = vstd::arithmetic::power2::pow2(scale as nat);
            assert(p <= p * (DEGREE + 1)) by (nonlinear_arith)
                requires
                    p > 0,
            ;
        }
        let num_nodes = shift_one(scale);
        let num_edges = num_nodes * (DEGREE + 1);
        let block_size = shift_one(18);
        Generator { scale, num_nodes, num_edges, block_size }
    }

    /// Renames the vertices by a random permutation of `0 .. num_nodes`;
    /// the weights are dropped.
    pub fn permutate_ids(&self, edge_list: &mut EdgeList)
        requires
            endpoints_below(old(edge_list)@, self.spec_num_nodes()),
        ensures
            final(edge_list)@.len() == old(edge_list)@.len(),
            exists|perm: Seq<NodeId>|
                #![trigger perm.to_multiset()]
                perm.to_multiset() == Seq::new(self.spec_num_nodes(), |i: int| i as NodeId).to_multiset()
                    && perm.len() == self.spec_num_nodes() && forall|i: int|
                    0 <= i < final(edge_list)@.len() ==> #[trigger] final(edge_list)@[i] == (
                        perm[old(edge_list)@[i].0 as int],
                        perm[old(edge_list)@[i].1 as int],
                        None::<NodeId>,
                    ),
    {
        let mut permutation = identity(self.num_nodes);
        let mut rng = thread_rng();
        let ghost id = permutation@;
        shuffle(&mut permutation, &mut rng);
        proof {
            permutation@.to_multiset_ensures();
            id.to_multiset_ensures();
            assert(permutation@.len() == self.spec_num_nodes());
        }
        let ghost e0 = edge_list@;
        let mut i: usize = 0;
        while i < edge_list.len()
            invariant
                edge_list@.len() == e0.len(),
                endpoints_below(e0, self.spec_num_nodes()),
                permutation@.len() == self.spec_num_nodes(),
                i <= e0.len(),
                forall|k: int| i <= k < e0.len() ==> #[trigger] edge_list@[k] == e0[k],
                forall|k: int|
                    0 <= k < i ==> #[trigger] edge_list@[k] == (
                        permutation@[e0[k].0 as int],
                        permutation@[e0[k].1 as int],
                        None::<NodeId>,
                    ),
            decreases e0.len() - i,
        {
            let (a, b, _) = edge_list[i];
            assert(e0[i as int].0 < self.spec_num_nodes());
            let e = (permutation[a], permutation[b], None);
            edge_list.set(i, e);
            i = i + 1;
        }
        assert(permutation@.to_multiset() == Seq::new(self.spec_num_nodes(), |i: int| i as NodeId).to_multiset());
    }

    /// `num_edges` edges, each endpoint drawn uniformly from
    /// `0 .. num_nodes`, without weights: edge `i` joins the values of the
    /// draws `2 i` and `2 i + 1` of one generator, each drawn separately.
    pub fn make_uniform_edge_list(&self) -> (edge_list: EdgeList)
        requires
            self.spec_num_nodes() > 0,
        ensures
            edge_list@.len() == self.spec_num_edges(),
            endpoints_below(edge_list@, self.spec_num_nodes()),
            forall|i: int| 0 <= i < edge_list@.len() ==> (#[trigger] edge_list@[i]).2 is None,
            exists|d: Seq<(usize, usize, usize)>| #[trigger] drawn(d) && paired_draws(edge_list@, d, self.spec_num_nodes()),
    {
        let mut edge_list: EdgeList = Vec::new();
        let mut rng = RecordedRng::new();
        let mut i: usize = 0;
        while i < self.num_edges
            invariant
                self.num_nodes > 0,
                i <= self.num_edges,
                edge_list@.len() == i,
                endpoints_below(edge_list@, self.spec_num_nodes()),
                forall|k: int| 0 <= k < edge_list@.len() ==> (#[trigger] edge_list@[k]).2 is None,
                paired_draws(edge_list@, rng.draws(), self.spec_num_nodes()),
            decreases self.num_edges - i,
        {
            let ghost d0 = rng.draws();
            let u = rng.draw(0, self.num_nodes);
            let v = rng.draw(0, self.num_nodes);
            let ghost e0 = edge_list@;
            edge_list.push((u, v, None));
            proof {
                let d = rng.draws();
                assert(d == d0.push((0, self.num_nodes, u)).push((0, self.num_nodes, v)));
                assert forall|k: int| 0 <= k < d.len() implies (#[trigger] d[k]).0 == 0 && d[k].1
                    == self.spec_num_nodes() by {
                    if k < d0.len() {
                        assert(d[k] == d0[k]);
                    }
                }
                assert forall|j: int| 0 <= j < edge_list@.len() implies #[trigger] edge_list@[j] == (
                    d[2 * j].2,
                    d[2 * j + 1].2,
                    None::<NodeId>,
                ) by {
                    if j < e0.len() {
                        assert(edge_list@[j] == e0[j]);
                        assert(d[2 * j] == d0[2 * j]);
                        assert(d[2 * j + 1] == d0[2 * j + 1]);
                    }
                }
            }
            i = i + 1;
        }
        proof {
            assert(drawn(rng.draws()));
        }
        edge_list
    }

    /// A uniform random edge list (the R-MAT distribution is not offered, so
    /// `uniform` must hold).
    pub fn generate_edge_list(&self, uniform: bool) -> (edge_list: EdgeList)
        requires
            uniform,
            self.spec_num_nodes() > 0,
        ensures
            edge_list@.len() == self.spec_num_edges(),
            endpoints_below(edge_list@, self.spec_num_nodes()),
            forall|i: int| 0 <= i < edge_list@.len() ==> (#[trigger] edge_list@[i]).2 is None,
            exists|d: Seq<(usize, usize, usize)>| #[trigger] drawn(d) && paired_draws(edge_list@, d, self.spec_num_nodes()),
    {
        self.make_uniform_edge_list()
    }

    /// Gives every edge a weight drawn uniformly from `1 .. 256`: edge `i`
    /// gets the value of draw `i` of one generator.
    pub fn insert_weights(edge_list: &mut EdgeList)
        ensures
            final(edge_list)@.len() == old(edge_list)@.len(),
            forall|i: int|
                0 <= i < final(edge_list)@.len() ==> (#[trigger] final(edge_list)@[i]).0 == old(
                    edge_list,
                )@[i].0 && final(edge_list)@[i].1 == old(edge_list)@[i].1 && has_small_weight(
                    final(edge_list)@[i],
                ),
            exists|d: Seq<(usize, usize, usize)>| #[trigger] drawn(d) && weighted_by_draws(old(edge_list)@, final(edge_list)@, d),
    {
        let mut rng = RecordedRng::new();
        let ghost e0 = edge_list@;
        let mut i: usize = 0;
        while i < edge_list.len()
            invariant
                edge_list@.len() == e0.len(),
                i <= e0.len(),
                forall|k: int| i <= k < e0.len() ==> #[trigger] edge_list@[k] == e0[k],
                forall|k: int|
                    0 <= k < i ==> (#[trigger] edge_list@[k]).0 == e0[k].0 && edge_list@[k].1
                        == e0[k].1 && has_small_weight(edge_list@[k]),
                rng.draws().len() == i,
                forall|k: int|
                    0 <= k < i ==> (#[trigger] rng.draws()[k]).0 == 1 && rng.draws()[k].1 == 256
                        && edge_list@[k] == (e0[k].0, e0[k].1, Some(rng.draws()[k].2)),
            decreases e0.len() - i,
        {
            let (a, b, _) = edge_list[i];
            let ghost d0 = rng.draws();
            let w = rng.draw(1, 256);
            edge_list.set(i, (a, b, Some(w)));
            proof {
                assert forall|k: int| 0 <= k < i + 1 implies (#[trigger] rng.draws()[k]).0 == 1
                    && rng.draws()[k].1 == 256 && edge_list@[k] == (e0[k].0, e0[k].1, Some(rng.draws()[k].2)) by {
                    if k < i {
                        assert(rng.draws()[k] == d0[k]);
                    }
                }
            }
            i = i + 1;
        }
        proof {
            assert(drawn(rng.draws()));
        }
    }
}

/// `1 << s`.
fn shift_one(s: usize) -> (r: usize)
    requires
        s < 64,
        vstd::arithmetic::power2::pow2(s as nat) <= usize::MAX,
    ensures
        r == vstd::arithmetic::power2::pow2(s as nat),
{
    let mut r: usize = 1;
    let mut i: usize = 0;
    proof {
        vstd::arithmetic::power2::lemma2_to64();
    }
    while i < s
        invariant
            i <= s < 64,
            r == vstd::arithmetic::power2::pow2(i as nat),
            vstd::arithmetic::power2::pow2(s as nat) <= usize::MAX,
        decreases s - i,
    {
        proof {
            vstd::arithmetic::power2::lemma_pow2_unfold((i + 1) as nat);
            if i + 1 < s {
                vstd::arithmetic::power2::lemma_pow2_strictly_increases((i + 1) as nat, s as nat);
            }
        }
        r = r * 2;
        i = i + 1;
    }
    r
}

/// The ids `0 .. n` in order.
pub fn identity(n: usize) -> (v: Vec<NodeId>)
    ensures
        v@ == Seq::new(n as nat, |i: int| i as NodeId),
{
    let mut v: Vec<NodeId> = Vec::new();
    let mut i: usize = 0;
    while i < n
        invariant
            i <= n,
            v@ == Seq::new(i as nat, |k: int| k as NodeId),
        decreases n - i,
    {
        v.push(i);
        assert(v@ =~= Seq::new((i + 1) as nat, |k: int| k as NodeId));
        i = i + 1;
    }
    v
}

} // verus!
