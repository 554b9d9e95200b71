//! Breadth-first search over a table of vertices: how many vertices a
//! search from a start vertex discovers.

use crate::graphmodels::node::NodeTable;
use crate::sortedmap::{strictly_sorted, SortedMap};
use crate::types::NodeId;
use vstd::prelude::*;

verus! {

/// `v` is reached from `s` by at most `k` out-edges of `t`.
pub open spec fn reaches<T>(t: NodeTable<T>, s: NodeId, v: NodeId, k: nat) -> bool
    decreases k,
{
    if k == 0 {
        v == s
    } else {
        ||| reaches(t, s, v, (k - 1) as nat)
        ||| exists|u: NodeId|
            reaches(t, s, u, (k - 1) as nat) && t.has(u) && #[trigger] t.node(u).out_map().contains_key(v)
    }
}

/// The vertices some walk from `s` reaches.
pub open spec fn reachable<T>(t: NodeTable<T>, s: NodeId) -> Set<NodeId> {
    Set::new(|v: NodeId| exists|k: nat| reaches(t, s, v, k))
}

/// `g` is the end of an out-edge of some vertex reachable from `s`.
pub open spec fn hit_from<T>(t: NodeTable<T>, s: NodeId, g: NodeId) -> bool {
    exists|u: NodeId| #[trigger] reachable(t, s).contains(u) && t.has(u) && t.node(u).out_map().contains_key(g)
}

proof fn lemma_reaches_member<T>(t: NodeTable<T>, s: NodeId, v: NodeId, k: nat)
    requires
        t.wf(),
        t.has(s),
        reaches(t, s, v, k),
    ensures
        t.has(v),
    decreases k,
{
    t.lemma_wf();
    if k > 0 {
        if reaches(t, s, v, (k - 1) as nat) {
            lemma_reaches_member(t, s, v, (k - 1) as nat);
        } else {
            let u = choose|u: NodeId|
                reaches(t, s, u, (k - 1) as nat) && t.has(u) && #[trigger] t.node(u).out_map().contains_key(v);
            t.node(u).lemma_keys();
            let i = t.out(u).index_of(v);
            assert(t.out(u).to_set().contains(v));
            assert(t.has(t.out(u)[i]));
        }
    }
}

/// Every vertex reachable from `s` lies in a set that holds `s` and the
/// out-neighbours of each of its members.
proof fn lemma_closed_holds_reachable<T>(t: NodeTable<T>, s: NodeId, d: Set<NodeId>, v: NodeId, k: nat)
    requires
        d.contains(s),
        forall|u: NodeId, x: NodeId|
            d.contains(u) && t.has(u) && #[trigger] t.node(u).out_map().contains_key(x) ==> d.contains(x),
        reaches(t, s, v, k),
    ensures
        d.contains(v),
    decreases k,
{
    if k > 0 {
        if reaches(t, s, v, (k - 1) as nat) {
            lemma_closed_holds_reachable(t, s, d, v, (k - 1) as nat);
        } else {
            let u = choose|u: NodeId|
                reaches(t, s, u, (k - 1) as nat) && t.has(u) && #[trigger] t.node(u).out_map().contains_key(v);
            lemma_closed_holds_reachable(t, s, d, u, (k - 1) as nat);
        }
    }
}

proof fn lemma_sorted_len<V>(m: SortedMap<V>)
    requires
        m.wf(),
    ensures
        m@.dom().len() == m.keys().len(),
        m@.dom().finite(),
{
    m.lemma_dom();
    m.lemma_sorted();
    assert(m.keys().no_duplicates());
    m.keys().unique_seq_to_set();
}

/// Breadth-first search from `start`: the number of vertices discovered,
/// taking out-edges in increasing order of their end. With a `goal`, the
/// search stops at the first out-edge that ends there and answers how
/// many vertices it had discovered by then.
pub fn bfs_count<T>(t: &NodeTable<T>, start: NodeId, goal: Option<NodeId>) -> (r: usize)
    requires
        t.wf(),
        t.has(start),
    ensures
        reachable(*t, start).finite(),
        1 <= r <= reachable(*t, start).len(),
        (goal is None || !hit_from(*t, start, goal.unwrap())) ==> r == reachable(*t, start).len(),
{
    let ghost reach = reachable(*t, start);
    let ghost members = t.ids().to_set();
    proof {
        t.lemma_wf();
        assert(reaches(*t, start, start, 0));
        assert forall|v: NodeId| reach.contains(v) implies members.contains(v) by {
            let k = choose|k: nat| reaches(*t, start, v, k);
            lemma_reaches_member(*t, start, v, k);
        }
        vstd::set_lib::lemma_len_subset(reach, members);
        t.ids().unique_seq_to_set();
    }
    let mut discovered: SortedMap<bool> = SortedMap::new();
    discovered.insert(start, true);
    let mut queue: Vec<NodeId> = Vec::new();
    queue.push(start);
    let mut head: usize = 0;
    proof {
        assert(queue@.to_set() =~= discovered@.dom());
        lemma_sorted_len(discovered);
    }
    while head < queue.len()
        invariant
            t.wf(),
            reach == reachable(*t, start),
            members == t.ids().to_set(),
            forall|v: NodeId| #[trigger] members.contains(v) <==> t.has(v),
            members.len() == t.ids().len(),
            discovered.wf(),
            discovered@.dom().contains(start),
            discovered@.dom().subset_of(reach),
            reach.subset_of(members),
            queue@.to_set() == discovered@.dom(),
            queue@.no_duplicates(),
            queue@.len() == discovered.keys().len(),
            discovered@.dom().len() == discovered.keys().len(),
            head <= queue@.len(),
            forall|j: int, x: NodeId|
                0 <= j < head && #[trigger] t.node(queue@[j]).out_map().contains_key(x)
                    ==> discovered@.dom().contains(x),
            goal is Some ==> forall|j: int|
                0 <= j < head ==> !#[trigger] t.node(queue@[j]).out_map().contains_key(goal.unwrap()),
        decreases t.ids().len() - head,
    {
        proof {
            vstd::set_lib::lemma_len_subset(discovered@.dom(), members);
        }
        let u = queue[head];
        proof {
            assert(queue@.to_set().contains(u));
            assert(reach.contains(u));
        }
        let node = match t.get(u) {
            Some(node) => node,
            None => {
                proof {
                    assert(members.contains(u));
                }
                return 0;
            },
        };
        let ghost ku = choose|k: nat| reaches(*t, start, u, k);
        proof {
            t.lemma_wf();
            assert(members.contains(u));
            node.lemma_keys();
        }
        let keys = node.out_key_list();
        let n = keys.len();
        let mut i: usize = 0;
        while i < n
            invariant
                t.wf(),
                keys@ == node.out_keys(),
                reach == reachable(*t, start),
                members == t.ids().to_set(),
                forall|v: NodeId| #[trigger] members.contains(v) <==> t.has(v),
                members.len() == t.ids().len(),
                t.has(u),
                *node == t.node(u),
                node.wf(),
                node.out_keys().to_set() == node.out_map().dom(),
                n == node.out_keys().len(),
                reaches(*t, start, u, ku),
                u == queue@[head as int],
                discovered.wf(),
                discovered@.dom().contains(start),
                discovered@.dom().subset_of(reach),
                reach.subset_of(members),
                queue@.to_set() == discovered@.dom(),
                queue@.no_duplicates(),
                queue@.len() == discovered.keys().len(),
                discovered@.dom().len() == discovered.keys().len(),
                head < queue@.len(),
                i <= n,
                forall|j: int, x: NodeId|
                    0 <= j < head && #[trigger] t.node(queue@[j]).out_map().contains_key(x)
                        ==> discovered@.dom().contains(x),
                forall|ii: int| 0 <= ii < i ==> discovered@.dom().contains(#[trigger] node.out_keys()[ii]),
                goal is Some ==> forall|j: int|
                    0 <= j < head ==> !#[trigger] t.node(queue@[j]).out_map().contains_key(goal.unwrap()),
                goal is Some ==> forall|ii: int| 0 <= ii < i ==> #[trigger] node.out_keys()[ii] != goal.unwrap(),
            decreases n - i,
        {
            let v = keys[i];
            proof {
                assert(node.out_keys().to_set().contains(v));
                assert(node.out_map().contains_key(v));
                assert(reaches(*t, start, v, ku + 1));
                assert(reach.contains(v));
            }
            if let Some(g) = goal {
                if g == v {
                    proof {
                        lemma_sorted_len(discovered);
                        vstd::set_lib::lemma_len_subset(discovered@.dom(), reach);
                        assert(reach.contains(u) && t.has(u) && t.node(u).out_map().contains_key(g));
                        assert(hit_from(*t, start, g));
                    }
                    return discovered.len();
                }
            }
            if !discovered.contains_key(v) {
                let ghost q0 = queue@;
                let ghost d0 = discovered@.dom();
                discovered.insert(v, true);
                queue.push(v);
                proof {
                    lemma_sorted_len(discovered);
                    assert(queue@.to_set() =~= d0.insert(v)) by {
                        q0.lemma_push_to_set_commute(v);
                    }
                    assert(discovered@.dom() =~= d0.insert(v));
                    assert forall|a: int, b: int| 0 <= a < b < queue@.len() implies queue@[a] != queue@[b] by {
                        if b == q0.len() {
                            assert(q0.to_set().contains(q0[a]));
                        }
                    }
                    assert forall|j: int, x: NodeId|
                        0 <= j < head && #[trigger] t.node(queue@[j]).out_map().contains_key(x)
                            implies discovered@.dom().contains(x) by {
                        assert(queue@[j] == q0[j]);
                    }
                    if goal is Some {
                        assert forall|j: int| 0 <= j < head implies !#[trigger] t.node(queue@[j]).out_map().contains_key(
                            goal.unwrap(),
                        ) by {
                            assert(queue@[j] == q0[j]);
                        }
                    }
                }
            }
            i = i + 1;
        }
        proof {
            assert forall|j: int, x: NodeId|
                0 <= j < head + 1 && #[trigger] t.node(queue@[j]).out_map().contains_key(x)
                    implies discovered@.dom().contains(x) by {
                if j == head {
                    assert(node.out_keys().to_set().contains(x));
                    let ii = node.out_keys().index_of(x);
                    assert(discovered@.dom().contains(node.out_keys()[ii]));
                }
            }
            if goal is Some {
                assert forall|j: int| 0 <= j < head + 1 implies !#[trigger] t.node(queue@[j]).out_map().contains_key(
                    goal.unwrap(),
                ) by {
                    if j == head && t.node(queue@[j]).out_map().contains_key(goal.unwrap()) {
                        assert(node.out_keys().to_set().contains(goal.unwrap()));
                        let ii = node.out_keys().index_of(goal.unwrap());
                        assert(node.out_keys()[ii] != goal.unwrap());
                    }
                }
            }
        }
        head = head + 1;
    }
    proof {
        let d = discovered@.dom();
        assert forall|uu: NodeId, x: NodeId|
            d.contains(uu) && t.has(uu) && #[trigger] t.node(uu).out_map().contains_key(x) implies d.contains(x) by {
            assert(queue@.to_set().contains(uu));
            let j = queue@.index_of(uu);
            assert(t.node(queue@[j]).out_map().contains_key(x));
        }
        assert forall|v: NodeId| reach.contains(v) implies d.contains(v) by {
            let k = choose|k: nat| reaches(*t, start, v, k);
            lemma_closed_holds_reachable(*t, start, d, v, k);
        }
        assert(d =~= reach);
        if goal is Some && hit_from(*t, start, goal.unwrap()) {
        }
    }
    discovered.len()
}

} // verus!
