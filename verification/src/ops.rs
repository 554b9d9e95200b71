//! The OPS benchmark: a random mix of vertex and edge insertions and
//! deletions on the region-allocated graph.

use crate::graph::CSRGraph;
use crate::graphmodels::arena::{CustomIndex, Graph};
use crate::random::{gen_range, thread_rng};
use vstd::prelude::*;

verus! {

/// The operations of the mix.
#[derive(Clone, Copy, PartialEq, Eq, Structural)]
pub enum Op {
    AddVertex,
    DeleteVertex,
    AddEdge,
    DeleteEdge,
    FindVertex,
}

/// The operation a roll picks: up to 40 adds a vertex, up to 80 deletes
/// one, up to 90 adds an edge, up to 100 deletes one; anything else looks
/// a vertex up.
pub open spec fn spec_op_for_roll(roll: usize) -> Op {
    if 1 <= roll <= 40 {
        Op::AddVertex
    } else if 41 <= roll <= 80 {
        Op::DeleteVertex
    } else if 81 <= roll <= 90 {
        Op::AddEdge
    } else if 91 <= roll <= 100 {
        Op::DeleteEdge
    } else {
        Op::FindVertex
    }
}

/// The mix the rolls make: of the rolls `1 ..= 100`, the forty lowest add a
/// vertex, the next forty delete one, the next ten add an edge and the last
/// ten delete one; no other roll changes the graph.
pub proof fn lemma_roll_mix(roll: usize)
    ensures
        (spec_op_for_roll(roll) == Op::AddVertex) == (0 < roll && roll < 41),
        (spec_op_for_roll(roll) == Op::DeleteVertex) == (40 < roll && roll < 81),
        (spec_op_for_roll(roll) == Op::AddEdge) == (80 < roll && roll < 91),
        (spec_op_for_roll(roll) == Op::DeleteEdge) == (90 < roll && roll < 101),
        (spec_op_for_roll(roll) == Op::FindVertex) == (roll == 0 || roll > 100),
{
}

pub fn op_for_roll(roll: usize) -> (op: Op)
    ensures
        op == spec_op_for_roll(roll),
        (op == Op::AddVertex) == (0 < roll && roll < 41),
        (op == Op::DeleteVertex) == (40 < roll && roll < 81),
        (op == Op::AddEdge) == (80 < roll && roll < 91),
        (op == Op::DeleteEdge) == (90 < roll && roll < 101),
        (op == Op::FindVertex) == (roll == 0 || roll > 100),
{
    if 1 <= roll && roll <= 40 {
        Op::AddVertex
    } else if 41 <= roll && roll <= 80 {
        Op::DeleteVertex
    } else if 81 <= roll && roll <= 90 {
        Op::AddEdge
    } else if 91 <= roll && roll <= 100 {
        Op::DeleteEdge
    } else {
        Op::FindVertex
    }
}

/// `after` is `before` with vertex `v` added, as `op_add_vertex` states it:
/// a fresh slot holds `v` and the cache maps `v` to it.
pub open spec fn added_vertex<T>(before: Graph<T>, after: Graph<T>, v: usize) -> bool {
    &&& exists|index: (usize, u64)|
        !before.slots().contains_key(index) && after.slots() == before.slots().insert(index, v)
            && after.spec_cache() == before.spec_cache().insert(v, index)
    &&& after.spec_generation() == before.spec_generation()
    &&& after.spec_n_edges() == before.spec_n_edges()
}

/// `after` is `before` with the vertex cached for `v` removed where it is
/// alive, as `op_delete_vertex` states it.
pub open spec fn deleted_vertex<T>(before: Graph<T>, after: Graph<T>, v: usize) -> bool {
    &&& after.spec_cache() == before.spec_cache()
    &&& after.spec_n_edges() == before.spec_n_edges()
    &&& before.live(v) ==> after.slots() == before.slots().remove(before.spec_cache()[v])
        && after.spec_generation() == before.spec_generation() + 1
    &&& !before.live(v) ==> after.slots() == before.slots() && after.spec_generation()
        == before.spec_generation()
}

/// `after` is `before` with the edge `v - e` added, as `op_add_edge` states
/// it: the vertices stay, and where both ends are alive the out-edges of
/// `v` gain the unweighted edge to `e`.
pub open spec fn added_edge<T>(before: Graph<T>, after: Graph<T>, v: usize, e: usize) -> bool {
    &&& after.slots() == before.slots()
    &&& after.spec_generation() == before.spec_generation()
    &&& after.spec_cache() == before.spec_cache()
    &&& after.spec_n_edges() <= before.spec_n_edges() + 1
    &&& before.live(v) && before.live(e) ==> after.node_at(before.spec_cache()[v].0).out_edges@.to_set()
        == before.node_at(before.spec_cache()[v].0).out_edges@.to_set().insert(
        CustomIndex { index: before.spec_cache()[e], weight: None },
    )
}

/// `after` is `before` with the unweighted edge from `v` to `e` removed, as
/// `op_delete_edge` states it; nothing changes unless `v` is alive and `e`
/// cached.
pub open spec fn deleted_edge<T>(before: Graph<T>, after: Graph<T>, v: usize, e: usize) -> bool {
    &&& after.slots() == before.slots()
    &&& after.spec_generation() == before.spec_generation()
    &&& after.spec_cache() == before.spec_cache()
    &&& after.spec_n_edges() == before.spec_n_edges()
    &&& !(before.live(v) && before.spec_cache().contains_key(e)) ==> after.node_map() == before.node_map()
    &&& before.live(v) && before.spec_cache().contains_key(e) ==> {
        let k = before.spec_cache()[v].0;
        let gone = CustomIndex { index: before.spec_cache()[e], weight: None };
        &&& after.node_at(k).out_edges@ == before.node_at(k).out_edges@.filter(|x: CustomIndex| x != gone)
        &&& after.node_at(k).in_edges@ == before.node_at(k).in_edges@
        &&& forall|j: usize| j != k && #[trigger] before.node_map().contains_key(j) ==> after.node_map()[j]
            == before.node_map()[j]
    }
}

/// `after` is `before` after the operation that `roll` picks, on the ids
/// `v` (and `e`, for the edge operations).
pub open spec fn op_step_by<T>(before: Graph<T>, after: Graph<T>, roll: usize, v: usize, e: usize) -> bool {
    &&& after.wf()
    &&& match spec_op_for_roll(roll) {
        Op::AddVertex => added_vertex(before, after, v),
        Op::DeleteVertex => deleted_vertex(before, after, v),
        Op::AddEdge => added_edge(before, after, v, e),
        Op::DeleteEdge => deleted_edge(before, after, v, e),
        Op::FindVertex => after == before,
    }
}

/// One round of the mix: a roll drawn from `1 .. 100` and ids drawn from
/// `1 ..` the number of vertices of `before`.
pub open spec fn op_step<T>(before: Graph<T>, after: Graph<T>) -> bool {
    exists|roll: usize, v: usize, e: usize|
        1 <= roll < 100 && 1 <= v < before.spec_num_nodes() && 1 <= e < before.spec_num_nodes()
            && #[trigger] op_step_by(before, after, roll, v, e)
}

/// A thousand operations, each drawn by a roll in `1 .. 100`, on vertex ids
/// drawn from `1 ..` the number of vertices at the time. Every operation
/// changes the number of vertices by at most one, so with more than a
/// thousand vertices to start with an id can always be drawn.
pub fn ops<T>(graph: &mut Graph<T>)
    requires
        old(graph).wf(),
        old(graph).spec_num_nodes() > 1000,
        old(graph).spec_n_edges() + 1000 < usize::MAX,
        old(graph).spec_generation() + 1000 < u64::MAX,
    ensures
        final(graph).wf(),
        old(graph).spec_num_nodes() - 1000 <= final(graph).spec_num_nodes() <= old(graph).spec_num_nodes() + 1000,
        final(graph).spec_n_edges() <= old(graph).spec_n_edges() + 1000,
        exists|trace: Seq<Graph<T>>|
            trace.len() == 1001 && trace[0] == *old(graph) && trace[1000] == *final(graph) && forall|i: int|
                0 <= i < 1000 ==> #[trigger] op_step(trace[i], trace[i + 1]),
{
    let ghost n0 = graph.spec_num_nodes();
    let ghost e0 = graph.spec_n_edges();
    let ghost g0 = graph.spec_generation();
    let ghost trace: Seq<Graph<T>> = seq![*graph];
    let mut rng = thread_rng();
    let mut round: usize = 0;
    while round < 1000
        invariant
            round <= 1000,
            graph.wf(),
            n0 > 1000,
            e0 + 1000 < usize::MAX,
            g0 + 1000 < u64::MAX,
            n0 - round <= graph.spec_num_nodes() <= n0 + round,
            graph.spec_n_edges() <= e0 + round,
            graph.spec_generation() <= g0 + round,
            trace.len() == round + 1,
            trace[0] == *old(graph),
            trace[round as int] == *graph,
            forall|i: int| 0 <= i < round ==> #[trigger] op_step(trace[i], trace[i + 1]),
        decreases 1000 - round,
    {
        proof {
            graph.lemma_wf();
        }
        let n = graph.num_nodes();
        let ghost before = *graph;
        let roll = gen_range(&mut rng, 1, 100);
        let v = gen_range(&mut rng, 1, n);
        let e = match op_for_roll(roll) {
            Op::AddEdge | Op::DeleteEdge => gen_range(&mut rng, 1, n),
            _ => v,
        };
        match op_for_roll(roll) {
            Op::AddVertex => {
                graph.op_add_vertex(v);
            },
            Op::DeleteVertex => {
                graph.op_delete_vertex(v);
            },
            Op::AddEdge => {
                graph.op_add_edge(v, e);
            },
            Op::DeleteEdge => {
                graph.op_delete_edge(v, e);
            },
            Op::FindVertex => {
                graph.op_find_vertex(v);
            },
        }
        proof {
            graph.lemma_num_nodes_step(before);
            assert(op_step_by(before, *graph, roll, v, e));
            assert(op_step(before, *graph));
            trace = trace.push(*graph);
        }
        round = round + 1;
    }
}

} // verus!
