//! The tree work of the GC benchmark: the sizes of its trees, and trees
//! built top-down (`Populate`) and bottom-up (`MakeTree`).

use crate::treenodes::{Forest, Node, TreeNode};
use crate::types::kStretchTreeDepth;
use vstd::arithmetic::power2::{lemma2_to64, lemma_pow2_pos, lemma_pow2_strictly_increases, lemma_pow2_unfold, pow2};
use vstd::bits::lemma_u32_shl_is_mul;
use vstd::prelude::*;

verus! {

/// Nodes of a perfect binary tree of depth `i` (none for depth `-1`).
pub open spec fn tree_size(i: int) -> int {
    pow2((i + 1) as nat) - 1
}

/// Node `n` roots a perfect binary tree of depth `d` (a lone node for
/// `d <= 0`) whose other nodes all have an index of at least `lo`.
pub open spec fn perfect(f: Seq<Node>, n: int, d: int, lo: int) -> bool
    decreases d,
{
    &&& 0 <= n < f.len()
    &&& if d <= 0 {
        f[n].left is None && f[n].right is None
    } else {
        &&& f[n].left matches Some(l) && lo <= l && perfect(f, l as int, d - 1, lo)
        &&& f[n].right matches Some(r) && lo <= r && perfect(f, r as int, d - 1, lo)
    }
}

/// Following left children from `n`, the `k`-th node is the first without one.
pub open spec fn left_ends(f: Seq<Node>, n: int, k: nat) -> bool
    decreases k,
{
    &&& 0 <= n < f.len()
    &&& match f[n].left {
        None => k == 0,
        Some(l) => k > 0 && left_ends(f, l as int, (k - 1) as nat),
    }
}

/// Following right children from `n`, the `k`-th node is the first without one.
pub open spec fn right_ends(f: Seq<Node>, n: int, k: nat) -> bool
    decreases k,
{
    &&& 0 <= n < f.len()
    &&& match f[n].right {
        None => k == 0,
        Some(r) => k > 0 && right_ends(f, r as int, (k - 1) as nat),
    }
}

proof fn lemma_tree_size_step(d: int)
    requires
        d >= 0,
    ensures
        tree_size(d) == 2 * tree_size(d - 1) + 1,
        tree_size(d) >= 1,
        tree_size(d - 1) >= 0,
        d == 0 ==> tree_size(d) == 1,
{
    lemma_pow2_unfold((d + 1) as nat);
    lemma_pow2_pos(d as nat);
    lemma2_to64();
}

proof fn lemma_perfect_lo<>(f: Seq<Node>, n: int, d: int, lo: int, lo2: int)
    requires
        perfect(f, n, d, lo),
        lo2 <= lo,
    ensures
        perfect(f, n, d, lo2),
    decreases d,
{
    if d > 0 {
        lemma_perfect_lo(f, f[n].left.unwrap() as int, d - 1, lo, lo2);
        lemma_perfect_lo(f, f[n].right.unwrap() as int, d - 1, lo, lo2);
    }
}

/// A tree stays perfect where its root and every node from `lo` up are
/// kept.
proof fn lemma_perfect_frame(f: Seq<Node>, g: Seq<Node>, n: int, d: int, lo: int)
    requires
        perfect(f, n, d, lo),
        g.len() >= f.len(),
        g[n] == f[n],
        forall|k: int| lo <= k < f.len() ==> #[trigger] g[k] == f[k],
    ensures
        perfect(g, n, d, lo),
    decreases d,
{
    if d > 0 {
        lemma_perfect_frame(f, g, f[n].left.unwrap() as int, d - 1, lo);
        lemma_perfect_frame(f, g, f[n].right.unwrap() as int, d - 1, lo);
    }
}

/// The left and the right spine of a perfect tree of depth `d` have `d` edges.
pub proof fn lemma_perfect_spines(f: Seq<Node>, n: int, d: int, lo: int)
    requires
        perfect(f, n, d, lo),
        d >= 0,
    ensures
        left_ends(f, n, d as nat),
        right_ends(f, n, d as nat),
    decreases d,
{
    if d > 0 {
        lemma_perfect_spines(f, f[n].left.unwrap() as int, d - 1, lo);
        lemma_perfect_spines(f, f[n].right.unwrap() as int, d - 1, lo);
    }
}

proof fn lemma_left_ends_unique(f: Seq<Node>, n: int, k1: nat, k2: nat)
    requires
        left_ends(f, n, k1),
        left_ends(f, n, k2),
    ensures
        k1 == k2,
    decreases k1,
{
    if k1 > 0 && k2 > 0 {
        lemma_left_ends_unique(f, f[n].left.unwrap() as int, (k1 - 1) as nat, (k2 - 1) as nat);
    }
}

proof fn lemma_right_ends_unique(f: Seq<Node>, n: int, k1: nat, k2: nat)
    requires
        right_ends(f, n, k1),
        right_ends(f, n, k2),
    ensures
        k1 == k2,
    decreases k1,
{
    if k1 > 0 && k2 > 0 {
        lemma_right_ends_unique(f, f[n].right.unwrap() as int, (k1 - 1) as nat, (k2 - 1) as nat);
    }
}

/// Number of nodes of a perfect binary tree of depth `i`.
#[allow(non_snake_case)]
pub fn TreeSize(i: i32) -> (r: i32)
    requires
        -1 <= i <= 29,
    ensures
        r == tree_size(i as int),
{
    let s: i32 = i + 1;
    proof {
        assert((1i32 << (s as u32)) == (1u32 << (s as u32)) as i32) by (bit_vector)
            requires
                0 <= s <= 30,
        ;
        lemma2_to64();
        if s < 30 {
            lemma_pow2_strictly_increases(s as nat, 30);
        }
        lemma_u32_shl_is_mul(1u32, s as u32);
    }
    (1i32 << (s as u32)) - 1
}

/// How many trees of depth `i` hold as many nodes as two stretch trees.
#[allow(non_snake_case)]
pub fn NumIters(i: i32) -> (r: i32)
    requires
        0 <= i <= 29,
    ensures
        r == 2 * tree_size(kStretchTreeDepth as int) / tree_size(i as int),
{
    proof {
        lemma2_to64();
        lemma_pow2_strictly_increases(0, (i + 1) as nat);
    }
    2 * TreeSize(kStretchTreeDepth) / TreeSize(i)
}

/// Makes node `thisNode` the root of a perfect tree of depth `iDepth`,
/// built top-down from new nodes; leaves it as it is for `iDepth <= 0`.
#[allow(non_snake_case)]
pub fn Populate(iDepth: i32, thisNode: usize, forest: &mut Forest)
    requires
        old(forest).wf(),
        thisNode < old(forest)@.len(),
        iDepth > 0 ==> old(forest)@.len() + tree_size(iDepth as int) <= usize::MAX,
    ensures
        final(forest).wf(),
        iDepth <= 0 ==> final(forest)@ == old(forest)@,
        iDepth > 0 ==> {
            &&& perfect(final(forest)@, thisNode as int, iDepth as int, old(forest)@.len() as int)
            &&& final(forest)@.len() == old(forest)@.len() + tree_size(iDepth as int) - 1
            &&& forall|k: int|
                0 <= k < old(forest)@.len() && k != thisNode ==> #[trigger] final(forest)@[k] == old(
                    forest,
                )@[k]
        },
    decreases iDepth,
{
    if iDepth <= 0 {
        return;
    } else {
        let ghost f0 = forest@;
        proof {
            lemma_tree_size_step(iDepth as int);
            lemma_tree_size_step(iDepth - 1);
        }
        let l = forest.add_node();
        let r = forest.add_node();
        forest.set_edges(thisNode, l, r);
        let ghost f1 = forest@;
        let left = forest.node(thisNode).left().unwrap();
        Populate(iDepth - 1, left, forest);
        let ghost f2 = forest@;
        let right = forest.node(thisNode).right().unwrap();
        Populate(iDepth - 1, right, forest);
        proof {
            let f3 = forest@;
            let lo = f0.len() as int;
            if iDepth - 1 > 0 {
                lemma_perfect_frame(f2, f3, l as int, iDepth - 1, f1.len() as int);
                lemma_perfect_lo(f3, l as int, iDepth - 1, f1.len() as int, lo);
                lemma_perfect_lo(f3, r as int, iDepth - 1, f2.len() as int, lo);
            } else {
                assert(perfect(f3, l as int, 0, lo));
                assert(perfect(f3, r as int, 0, lo));
            }
            assert(f3[thisNode as int] == f1[thisNode as int]);
        }
    }
}

/// A perfect tree of depth `iDepth` (a lone node for `iDepth <= 0`), built
/// bottom-up from new nodes; returns its root, the last node added.
#[allow(non_snake_case)]
pub fn MakeTree(iDepth: i32, forest: &mut Forest) -> (root: usize)
    requires
        old(forest).wf(),
        old(forest)@.len() + tree_size(if iDepth <= 0 { 0 } else { iDepth as int }) <= usize::MAX,
    ensures
        final(forest).wf(),
        root == final(forest)@.len() - 1,
        perfect(final(forest)@, root as int, iDepth as int, old(forest)@.len() as int),
        final(forest)@.len() == old(forest)@.len() + tree_size(
            if iDepth <= 0 {
                0
            } else {
                iDepth as int
            },
        ),
        final(forest)@.subrange(0, old(forest)@.len() as int) == old(forest)@,
    decreases iDepth,
{
    proof {
        lemma_tree_size_step(0);
    }
    if iDepth <= 0 {
        let root = forest.add_node();
        proof {
            assert(forest@.subrange(0, old(forest)@.len() as int) =~= old(forest)@);
        }
        root
    } else {
        let ghost f0 = forest@;
        proof {
            lemma_tree_size_step(iDepth as int);
            lemma_tree_size_step(iDepth - 1);
        }
        let left = MakeTree(iDepth - 1, forest);
        let ghost f1 = forest@;
        let right = MakeTree(iDepth - 1, forest);
        let ghost f2 = forest@;
        let result = forest.add_node();
        forest.set_edges(result, left, right);
        proof {
            let f3 = forest@;
            let lo = f0.len() as int;
            assert forall|k: int| lo <= k < f1.len() implies #[trigger] f2[k] == f1[k] by {
                assert(f2.subrange(0, f1.len() as int)[k] == f2[k]);
            }
            lemma_perfect_frame(f1, f2, left as int, iDepth - 1, lo);
            lemma_perfect_lo(f2, right as int, iDepth - 1, f1.len() as int, lo);
            lemma_perfect_frame(f2, f3, left as int, iDepth - 1, lo);
            lemma_perfect_frame(f2, f3, right as int, iDepth - 1, lo);
            assert(f3.subrange(0, lo) =~= f0) by {
                assert forall|k: int| 0 <= k < lo implies f3[k] == f0[k] by {
                    assert(f1.subrange(0, lo)[k] == f1[k]);
                    assert(f2.subrange(0, f1.len() as int)[k] == f2[k]);
                }
            }
        }
        result
    }
}

/// `depth` plus the number of left edges from `n` down to the first node
/// without a left child.
pub fn left_depth(depth: u64, n: usize, forest: &Forest) -> (r: u64)
    requires
        forest.wf(),
        exists|k: nat| left_ends(forest@, n as int, k),
        depth + (choose|k: nat| left_ends(forest@, n as int, k)) <= u64::MAX,
    ensures
        r == depth + (choose|k: nat| left_ends(forest@, n as int, k)),
    decreases choose|k: nat| left_ends(forest@, n as int, k),
{
    let ghost k = choose|k: nat| left_ends(forest@, n as int, k);
    if let Some(left) = forest.node(n).left() {
        proof {
            let k2 = choose|k2: nat| left_ends(forest@, left as int, k2);
            assert(left_ends(forest@, left as int, (k - 1) as nat));
            lemma_left_ends_unique(forest@, left as int, k2, (k - 1) as nat);
        }
        left_depth(depth + 1, left, forest)
    } else {
        depth
    }
}

/// `depth` plus the number of right edges from `n` down to the first node
/// without a right child.
pub fn right_depth(depth: u64, n: usize, forest: &Forest) -> (r: u64)
    requires
        forest.wf(),
        exists|k: nat| right_ends(forest@, n as int, k),
        depth + (choose|k: nat| right_ends(forest@, n as int, k)) <= u64::MAX,
    ensures
        r == depth + (choose|k: nat| right_ends(forest@, n as int, k)),
    decreases choose|k: nat| right_ends(forest@, n as int, k),
{
    let ghost k = choose|k: nat| right_ends(forest@, n as int, k);
    if let Some(right) = forest.node(n).right() {
        proof {
            let k2 = choose|k2: nat| right_ends(forest@, right as int, k2);
            assert(right_ends(forest@, right as int, (k - 1) as nat));
            lemma_right_ends_unique(forest@, right as int, k2, (k - 1) as nat);
        }
        right_depth(depth + 1, right, forest)
    } else {
        depth
    }
}

/// The benchmark's diagnostics hook; it reports nothing.
#[allow(non_snake_case)]
pub fn PrintDiagnostics() {
}

/// Both spines of a tree that `MakeTree(d)` built have `d` edges.
pub proof fn lemma_made_tree_depths(f: Seq<Node>, root: int, d: int, lo: int)
    requires
        perfect(f, root, d, lo),
        d >= 0,
    ensures
        (choose|k: nat| left_ends(f, root, k)) == d,
        (choose|k: nat| right_ends(f, root, k)) == d,
{
    lemma_perfect_spines(f, root, d, lo);
    lemma_left_ends_unique(f, root, choose|k: nat| left_ends(f, root, k), d as nat);
    lemma_right_ends_unique(f, root, choose|k: nat| right_ends(f, root, k), d as nat);
}

} // verus!
