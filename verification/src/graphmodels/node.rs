//! A vertex that knows its in- and out-neighbours by id, and the table of
//! vertices, keyed by id, that the map-based graph models keep.

use crate::graph::{has_edge, lemma_has_edge_push};
use crate::sortedmap::SortedMap;
use crate::types::Edge;
use crate::types::{NodeId, Weight};
use vstd::prelude::*;

verus! {

pub struct Node<T> {
    node_id: NodeId,
    value: Option<T>,
    /// Weight carried by the vertex itself (the vertex-weighted `gc` model keeps edge
    /// weights on the vertex an edge points to).
    weight: Option<Weight>,
    in_edges: SortedMap<Option<Weight>>,
    out_edges: SortedMap<Option<Weight>>,
}

impl<T> Node<T> {
    pub closed spec fn id(&self) -> NodeId {
        self.node_id
    }

    pub closed spec fn spec_value(&self) -> Option<T> {
        self.value
    }

    pub closed spec fn spec_weight(&self) -> Option<Weight> {
        self.weight
    }

    /// Out-edges: neighbour id to the weight the edge carries.
    pub closed spec fn out_map(&self) -> Map<NodeId, Option<Weight>> {
        self.out_edges@
    }

    pub closed spec fn in_map(&self) -> Map<NodeId, Option<Weight>> {
        self.in_edges@
    }

    /// Out-neighbours in increasing order of id.
    pub closed spec fn out_keys(&self) -> Seq<NodeId> {
        self.out_edges.keys()
    }

    pub closed spec fn in_keys(&self) -> Seq<NodeId> {
        self.in_edges.keys()
    }

    pub closed spec fn wf(&self) -> bool {
        self.in_edges.wf() && self.out_edges.wf()
    }

    /// The out-list has one entry per key of the out-map.
    pub proof fn lemma_out_len(&self)
        requires
            self.wf(),
        ensures
            self.out_map().dom().finite(),
            self.out_keys().len() == self.out_map().dom().len(),
    {
        self.lemma_keys();
        let k = self.out_keys();
        assert(k.no_duplicates()) by {
            assert forall|i: int, j: int| 0 <= i < k.len() && 0 <= j < k.len() && i != j implies k[i] != k[j] by {
                if i < j {
                    assert(k[i] < k[j]);
                } else {
                    assert(k[j] < k[i]);
                }
            }
        }
        k.unique_seq_to_set();
    }

    pub proof fn lemma_keys(&self)
        requires
            self.wf(),
        ensures
            self.out_keys().to_set() == self.out_map().dom(),
            self.in_keys().to_set() == self.in_map().dom(),
            crate::sortedmap::strictly_sorted(self.out_keys()),
            crate::sortedmap::strictly_sorted(self.in_keys()),
    {
        self.out_edges.lemma_dom();
        self.in_edges.lemma_dom();
        self.out_edges.lemma_sorted();
        self.in_edges.lemma_sorted();
    }

    pub fn new(node_id: NodeId, value: Option<T>) -> (n: Self)
        ensures
            n.wf(),
            n.id() == node_id,
            n.spec_value() == value,
            n.spec_weight() is None,
            n.out_map() == Map::<NodeId, Option<Weight>>::empty(),
            n.in_map() == Map::<NodeId, Option<Weight>>::empty(),
            n.out_keys() == Seq::<NodeId>::empty(),
            n.in_keys() == Seq::<NodeId>::empty(),
    {
        Node {
            node_id,
            value,
            weight: None,
            in_edges: SortedMap::new(),
            out_edges: SortedMap::new(),
        }
    }

    pub fn get_id(&self) -> (id: NodeId)
        ensures
            id == self.id(),
    {
        self.node_id
    }

    pub fn get_weight_of_node(&self) -> (w: Option<Weight>)
        ensures
            w == self.spec_weight(),
    {
        self.weight
    }

    pub fn set_weight_of_node(&mut self, w: Weight)
        requires
            old(self).wf(),
        ensures
            final(self).wf(),
            final(self).spec_weight() == Some(w),
            final(self).id() == old(self).id(),
            final(self).spec_value() == old(self).spec_value(),
            final(self).out_map() == old(self).out_map(),
            final(self).out_keys() == old(self).out_keys(),
            final(self).in_map() == old(self).in_map(),
            final(self).in_keys() == old(self).in_keys(),
    {
        self.weight = Some(w);
    }

    /// Records an edge coming in from `edge`; self-edges are refused.
    /// Returns whether `edge` was not an in-neighbour before.
    pub fn add_in_edge(&mut self, edge: NodeId, weight: Option<Weight>) -> (added: bool)
        requires
            old(self).wf(),
        ensures
            final(self).wf(),
            final(self).id() == old(self).id(),
            final(self).spec_value() == old(self).spec_value(),
            final(self).spec_weight() == old(self).spec_weight(),
            final(self).out_map() == old(self).out_map(),
            final(self).out_keys() == old(self).out_keys(),
            edge == old(self).id() ==> final(self).in_map() == old(self).in_map()
                && final(self).in_keys() == old(self).in_keys() && !added,
            edge != old(self).id() ==> final(self).in_map() == old(self).in_map().insert(
                edge,
                weight,
            ) && added == !old(self).in_map().contains_key(edge),
    {
        if self.node_id == edge {
            return false;
        }
        self.in_edges.insert(edge, weight)
    }

    /// Records an edge going out to `edge`; self-edges are refused.
    /// Returns whether `edge` was not an out-neighbour before.
    pub fn add_out_edge(&mut self, edge: NodeId, weight: Option<Weight>) -> (added: bool)
        requires
            old(self).wf(),
        ensures
            final(self).wf(),
            final(self).id() == old(self).id(),
            final(self).spec_value() == old(self).spec_value(),
            final(self).spec_weight() == old(self).spec_weight(),
            final(self).in_map() == old(self).in_map(),
            final(self).in_keys() == old(self).in_keys(),
            edge == old(self).id() ==> final(self).out_map() == old(self).out_map()
                && final(self).out_keys() == old(self).out_keys() && !added,
            edge != old(self).id() ==> final(self).out_map() == old(self).out_map().insert(
                edge,
                weight,
            ) && added == !old(self).out_map().contains_key(edge),
    {
        if self.node_id == edge {
            return false;
        }
        self.out_edges.insert(edge, weight)
    }

    pub fn out_degree(&self) -> (d: usize)
        ensures
            d == self.out_keys().len(),
    {
        self.out_edges.len()
    }

    pub fn in_degree(&self) -> (d: usize)
        ensures
            d == self.in_keys().len(),
    {
        self.in_edges.len()
    }

    /// The out-neighbours, in increasing order.
    pub fn out_key_list(&self) -> (r: Vec<NodeId>)
        ensures
            r@ == self.out_keys(),
    {
        self.out_edges.keys_vec()
    }

    /// The in-neighbours, in increasing order.
    pub fn in_key_list(&self) -> (r: Vec<NodeId>)
        ensures
            r@ == self.in_keys(),
    {
        self.in_edges.keys_vec()
    }

    /// The weight of the out-edge to `k`, which must be there.
    pub fn out_weight_of(&self, k: NodeId) -> (w: Option<Weight>)
        requires
            self.wf(),
            self.out_map().contains_key(k),
        ensures
            w == self.out_map()[k],
    {
        *self.out_edges.get(k).unwrap()
    }

    /// The weight of the in-edge from `k`, which must be there.
    pub fn in_weight_of(&self, k: NodeId) -> (w: Option<Weight>)
        requires
            self.wf(),
            self.in_map().contains_key(k),
        ensures
            w == self.in_map()[k],
    {
        *self.in_edges.get(k).unwrap()
    }

    pub fn has_out_edge(&self, to: NodeId) -> (b: bool)
        requires
            self.wf(),
        ensures
            b == self.out_map().contains_key(to),
    {
        self.out_edges.contains_key(to)
    }

    /// Drops the out-edge to `to`, if any; returns whether there was one.
    pub fn remove_out_edge(&mut self, to: NodeId) -> (removed: bool)
        requires
            old(self).wf(),
        ensures
            final(self).wf(),
            final(self).id() == old(self).id(),
            final(self).spec_value() == old(self).spec_value(),
            final(self).spec_weight() == old(self).spec_weight(),
            final(self).in_map() == old(self).in_map(),
            final(self).in_keys() == old(self).in_keys(),
            final(self).out_map() == old(self).out_map().remove(to),
            removed == old(self).out_map().contains_key(to),
    {
        match self.out_edges.remove(to) {
            Some(_) => true,
            None => false,
        }
    }

    /// Replaces the out-edges by edges to `targets` (a later duplicate
    /// overrides an earlier one).
    pub fn set_out_edges(&mut self, targets: &Vec<(NodeId, Option<Weight>)>)
        requires
            old(self).wf(),
        ensures
            final(self).wf(),
            final(self).id() == old(self).id(),
            final(self).spec_value() == old(self).spec_value(),
            final(self).spec_weight() == old(self).spec_weight(),
            final(self).in_map() == old(self).in_map(),
            final(self).in_keys() == old(self).in_keys(),
            final(self).out_map().dom() == targets@.map_values(|t: (NodeId, Option<Weight>)| t.0).to_set(),
    {
        self.out_edges = map_from_pairs(targets);
    }

    /// Replaces the in-edges by edges from `sources`.
    pub fn set_in_edges(&mut self, sources: &Vec<(NodeId, Option<Weight>)>)
        requires
            old(self).wf(),
        ensures
            final(self).wf(),
            final(self).id() == old(self).id(),
            final(self).spec_value() == old(self).spec_value(),
            final(self).spec_weight() == old(self).spec_weight(),
            final(self).out_map() == old(self).out_map(),
            final(self).out_keys() == old(self).out_keys(),
            final(self).in_map().dom() == sources@.map_values(|t: (NodeId, Option<Weight>)| t.0).to_set(),
    {
        self.in_edges = map_from_pairs(sources);
    }
}

/// The map whose keys are the first components of `pairs`.
pub fn map_from_pairs(pairs: &Vec<(NodeId, Option<Weight>)>) -> (m: SortedMap<Option<Weight>>)
    ensures
        m.wf(),
        m@.dom() == pairs@.map_values(|t: (NodeId, Option<Weight>)| t.0).to_set(),
{
    let mut m: SortedMap<Option<Weight>> = SortedMap::new();
    let mut i: usize = 0;
    while i < pairs.len()
        invariant
            i <= pairs@.len(),
            m.wf(),
            m@.dom() == pairs@.subrange(0, i as int).map_values(
                |t: (NodeId, Option<Weight>)| t.0,
            ).to_set(),
        decreases pairs@.len() - i,
    {
        let (k, w) = pairs[i];
        m.insert(k, w);
        proof {
            let f = |t: (NodeId, Option<Weight>)| t.0;
            assert(pairs@.subrange(0, i + 1).map_values(f) =~= pairs@.subrange(
                0,
                i as int,
            ).map_values(f).push(k));
            pairs@.subrange(0, i as int).map_values(f).lemma_push_to_set_commute(k);
        }
        i = i + 1;
    }
    assert(pairs@.subrange(0, i as int) =~= pairs@);
    m
}

} // verus!

verus! {

/// The vertices of a map-based graph, keyed by id. Every edge joins two
/// vertices of the table (an edge is a handle to a live vertex).
pub struct NodeTable<T> {
    nodes: SortedMap<Node<T>>,
}

impl<T> NodeTable<T> {
    pub closed spec fn wf(&self) -> bool {
        &&& self.nodes.wf()
        &&& forall|k: NodeId| #[trigger]
            self.nodes@.contains_key(k) ==> self.nodes@[k].wf() && self.nodes@[k].id() == k
        &&& forall|k: NodeId, x: NodeId|
            self.nodes@.contains_key(k) && #[trigger] self.nodes@[k].out_map().contains_key(x)
                ==> self.nodes@.contains_key(x)
        &&& forall|k: NodeId, x: NodeId|
            self.nodes@.contains_key(k) && #[trigger] self.nodes@[k].in_map().contains_key(x)
                ==> self.nodes@.contains_key(x)
    }

    pub closed spec fn has(&self, v: NodeId) -> bool {
        self.nodes@.contains_key(v)
    }

    pub closed spec fn node(&self, v: NodeId) -> Node<T> {
        self.nodes@[v]
    }

    /// The vertex ids, in increasing order.
    pub closed spec fn ids(&self) -> Seq<NodeId> {
        self.nodes.keys()
    }

    pub open spec fn out(&self, v: NodeId) -> Seq<NodeId> {
        self.node(v).out_keys()
    }

    pub open spec fn inn(&self, v: NodeId) -> Seq<NodeId> {
        self.node(v).in_keys()
    }

    pub proof fn lemma_wf(&self)
        requires
            self.wf(),
        ensures
            self.ids().to_set() == Set::new(|v: NodeId| self.has(v)),
            crate::sortedmap::strictly_sorted(self.ids()),
            forall|v: NodeId| #[trigger] self.has(v) ==> self.node(v).wf() && self.node(v).id() == v,
            forall|v: NodeId, i: int|
                self.has(v) && 0 <= i < self.out(v).len() ==> #[trigger] self.has(self.out(v)[i]),
            forall|v: NodeId, i: int|
                self.has(v) && 0 <= i < self.inn(v).len() ==> #[trigger] self.has(self.inn(v)[i]),
    {
        self.nodes.lemma_dom();
        self.nodes.lemma_sorted();
        assert(self.ids().to_set() =~= Set::new(|v: NodeId| self.has(v)));
        assert forall|v: NodeId, i: int|
            self.has(v) && 0 <= i < self.out(v).len() implies #[trigger] self.has(
            self.out(v)[i],
        ) by {
            self.node(v).lemma_keys();
            assert(self.out(v).to_set().contains(self.out(v)[i]));
        }
        assert forall|v: NodeId, i: int|
            self.has(v) && 0 <= i < self.inn(v).len() implies #[trigger] self.has(
            self.inn(v)[i],
        ) by {
            self.node(v).lemma_keys();
            assert(self.inn(v).to_set().contains(self.inn(v)[i]));
        }
    }

    /// A vertex's neighbours are listed once each.
    pub proof fn lemma_no_dup(&self, v: NodeId)
        requires
            self.wf(),
            self.has(v),
        ensures
            self.out(v).no_duplicates(),
            self.inn(v).no_duplicates(),
            crate::sortedmap::strictly_sorted(self.out(v)),
            crate::sortedmap::strictly_sorted(self.inn(v)),
    {
        self.lemma_wf();
        self.node(v).lemma_keys();
    }

    pub fn new() -> (t: Self)
        ensures
            t.wf(),
            t.ids() == Seq::<NodeId>::empty(),
            forall|v: NodeId| !t.has(v),
    {
        NodeTable { nodes: SortedMap::new() }
    }

    pub fn len(&self) -> (n: usize)
        ensures
            n == self.ids().len(),
    {
        self.nodes.len()
    }

    pub fn contains(&self, v: NodeId) -> (b: bool)
        requires
            self.wf(),
        ensures
            b == self.has(v),
    {
        self.nodes.contains_key(v)
    }

    pub fn get(&self, v: NodeId) -> (r: Option<&Node<T>>)
        requires
            self.wf(),
        ensures
            match r {
                Some(n) => self.has(v) && *n == self.node(v),
                None => !self.has(v),
            },
    {
        self.nodes.get(v)
    }

    /// Adds a vertex `node_id` unless there is one; returns whether it was
    /// added.
    pub fn add_vertex(&mut self, node_id: NodeId, value: Option<T>) -> (added: bool)
        requires
            old(self).wf(),
        ensures
            final(self).wf(),
            added == !old(self).has(node_id),
            forall|v: NodeId| #[trigger] final(self).has(v) == (old(self).has(v) || v == node_id),
            forall|v: NodeId| #[trigger] old(self).has(v) ==> final(self).node(v) == old(self).node(v),
            added ==> final(self).node(node_id).spec_value() == value,
            added ==> final(self).out(node_id) == Seq::<NodeId>::empty(),
            added ==> final(self).inn(node_id) == Seq::<NodeId>::empty(),
            added ==> final(self).node(node_id).spec_weight() is None,
            !added ==> *final(self) == *old(self),
            (forall|j: int| 0 <= j < old(self).ids().len() ==> old(self).ids()[j] < node_id)
                ==> final(self).ids() == old(self).ids().push(node_id),
            final(self).ids().to_set() == old(self).ids().to_set().insert(node_id),
    {
        let ghost old_t = *self;
        let added = self.nodes.insert_if_absent(node_id, Node::new(node_id, value));
        proof {
            if added {
                assert forall|k: NodeId, x: NodeId|
                    self.nodes@.contains_key(k) && #[trigger] self.nodes@[k].out_map().contains_key(
                        x,
                    ) implies self.nodes@.contains_key(x) by {
                    if k != node_id {
                        assert(old_t.nodes@.contains_key(k));
                    }
                }
                assert forall|k: NodeId, x: NodeId|
                    self.nodes@.contains_key(k) && #[trigger] self.nodes@[k].in_map().contains_key(
                        x,
                    ) implies self.nodes@.contains_key(x) by {
                    if k != node_id {
                        assert(old_t.nodes@.contains_key(k));
                    }
                }
                if forall|j: int| 0 <= j < old_t.ids().len() ==> old_t.ids()[j] < node_id {
                    assert forall|j: int| 0 <= j < old_t.nodes.keys().len() implies old_t.nodes.keys()[j] < node_id by {
                        assert(old_t.ids()[j] < node_id);
                    }
                    old_t.nodes.lemma_dom();
                    self.nodes.lemma_sorted();
                    old_t.nodes.lemma_sorted();
                    lemma_sorted_push(old_t.nodes.keys(), self.nodes.keys(), node_id);
                }
            } else {
                old_t.nodes.lemma_dom();
                assert(old_t.ids().to_set().contains(node_id));
                assert(old_t.ids().to_set().insert(node_id) =~= old_t.ids().to_set());
            }
        }
        added
    }

    /// Takes the vertex `v` out for an update; a placeholder stands in.
    fn take(&mut self, v: NodeId) -> (n: Node<T>)
        requires
            old(self).wf(),
            old(self).has(v),
        ensures
            n == old(self).node(v),
            final(self).nodes.keys() == old(self).nodes.keys(),
            final(self).nodes.wf(),
            final(self).nodes@ == old(self).nodes@.insert(v, final(self).nodes@[v]),
    {
        match self.nodes.replace(v, Node::new(v, None)) {
            Some(n) => n,
            None => {
                proof {
                    assert(false);
                }
                Node::new(v, None)
            },
        }
    }

    /// Records an edge from `vertex` to `edge` (and, back, an out-edge of
    /// `edge` when `directed` is false, an in-edge when it is true);
    /// self-edges are refused. Returns whether the out-edge of `vertex`
    /// was new.
    pub fn connect(&mut self, vertex: NodeId, edge: NodeId, weight: Option<Weight>, directed: bool) -> (added: bool)
        requires
            old(self).wf(),
            old(self).has(vertex),
            old(self).has(edge),
        ensures
            final(self).wf(),
            final(self).ids() == old(self).ids(),
            forall|v: NodeId| #[trigger] final(self).has(v) == old(self).has(v),
            forall|v: NodeId|
                v != vertex && v != edge ==> #[trigger] final(self).node(v) == old(self).node(v),
            vertex == edge ==> *final(self) == *old(self) && !added,
            vertex != edge ==> {
                &&& added == !old(self).node(vertex).out_map().contains_key(edge)
                &&& final(self).node(vertex).out_map() == old(self).node(vertex).out_map().insert(
                    edge,
                    weight,
                )
                &&& final(self).node(vertex).in_map() == old(self).node(vertex).in_map()
                &&& final(self).node(vertex).spec_value() == old(self).node(vertex).spec_value()
                &&& final(self).node(vertex).spec_weight() == old(self).node(vertex).spec_weight()
                &&& !directed ==> final(self).node(edge).out_map() == old(self).node(
                    edge,
                ).out_map().insert(vertex, weight) && final(self).node(edge).in_map() == old(
                    self,
                ).node(edge).in_map()
                &&& directed ==> final(self).node(edge).in_map() == old(self).node(
                    edge,
                ).in_map().insert(vertex, weight) && final(self).node(edge).out_map() == old(
                    self,
                ).node(edge).out_map()
                &&& final(self).node(edge).spec_value() == old(self).node(edge).spec_value()
                &&& final(self).node(edge).spec_weight() == old(self).node(edge).spec_weight()
            },
    {
        if vertex == edge {
            return false;
        }
        let ghost t0 = *self;
        let mut en = self.take(edge);
        if !directed {
            en.add_out_edge(vertex, weight);
        } else {
            en.add_in_edge(vertex, weight);
        }
        self.nodes.replace(edge, en);
        let ghost t1 = *self;
        proof {
            assert(self.nodes@ == t0.nodes@.insert(edge, en));
        }
        let mut vn = self.take(vertex);
        let added = vn.add_out_edge(edge, weight);
        self.nodes.replace(vertex, vn);
        proof {
            assert(self.nodes@ == t1.nodes@.insert(vertex, vn));
            assert forall|k: NodeId| #[trigger] self.nodes@.contains_key(k) == t0.nodes@.contains_key(k) by {}
            assert forall|k: NodeId, x: NodeId|
                self.nodes@.contains_key(k) && #[trigger] self.nodes@[k].out_map().contains_key(x)
                    implies self.nodes@.contains_key(x) by {
                if k != vertex && k != edge {
                    assert(t0.nodes@[k] == self.nodes@[k]);
                } else if k == edge && x != vertex {
                    assert(t0.nodes@[k].out_map().contains_key(x));
                } else if k == vertex && x != edge {
                    assert(t0.nodes@[k].out_map().contains_key(x));
                }
            }
            assert forall|k: NodeId, x: NodeId|
                self.nodes@.contains_key(k) && #[trigger] self.nodes@[k].in_map().contains_key(x)
                    implies self.nodes@.contains_key(x) by {
                if k != vertex && k != edge {
                    assert(t0.nodes@[k] == self.nodes@[k]);
                } else if k == edge && x != vertex {
                    assert(t0.nodes@[k].in_map().contains_key(x));
                } else if k == vertex {
                    assert(t0.nodes@[k].in_map().contains_key(x));
                }
            }
        }
        added
    }

    /// Sets the weight carried by vertex `v`.
    pub fn set_node_weight(&mut self, v: NodeId, w: Weight)
        requires
            old(self).wf(),
            old(self).has(v),
        ensures
            final(self).wf(),
            final(self).ids() == old(self).ids(),
            forall|x: NodeId| #[trigger] final(self).has(x) == old(self).has(x),
            forall|x: NodeId| x != v ==> #[trigger] final(self).node(x) == old(self).node(x),
            final(self).node(v).spec_weight() == Some(w),
            final(self).node(v).out_map() == old(self).node(v).out_map(),
            final(self).node(v).in_map() == old(self).node(v).in_map(),
            final(self).node(v).out_keys() == old(self).node(v).out_keys(),
            final(self).node(v).in_keys() == old(self).node(v).in_keys(),
            final(self).node(v).spec_value() == old(self).node(v).spec_value(),
    {
        let ghost t0 = *self;
        let mut n = self.take(v);
        n.set_weight_of_node(w);
        self.nodes.replace(v, n);
        proof {
            assert forall|k: NodeId| #[trigger] self.nodes@.contains_key(k) == t0.nodes@.contains_key(k) by {}
            assert forall|k: NodeId, x: NodeId|
                self.nodes@.contains_key(k) && #[trigger] self.nodes@[k].out_map().contains_key(x)
                    implies self.nodes@.contains_key(x) by {
                if k != v {
                    assert(t0.nodes@[k] == self.nodes@[k]);
                }
            }
            assert forall|k: NodeId, x: NodeId|
                self.nodes@.contains_key(k) && #[trigger] self.nodes@[k].in_map().contains_key(x)
                    implies self.nodes@.contains_key(x) by {
                if k != v {
                    assert(t0.nodes@[k] == self.nodes@[k]);
                }
            }
        }
    }

    /// Replaces the out-edges (`out` true) or in-edges of `v` by edges to
    /// the vertices of `pairs`; every one of them must be a vertex.
    pub fn replace_edges(&mut self, v: NodeId, pairs: &Vec<(NodeId, Option<Weight>)>, out: bool)
        requires
            old(self).wf(),
            forall|i: int| 0 <= i < pairs@.len() ==> #[trigger] old(self).has(pairs@[i].0),
        ensures
            final(self).wf(),
            final(self).ids() == old(self).ids(),
            forall|x: NodeId| #[trigger] final(self).has(x) == old(self).has(x),
            forall|x: NodeId| x != v ==> #[trigger] final(self).node(x) == old(self).node(x),
            !old(self).has(v) ==> *final(self) == *old(self),
            old(self).has(v) && out ==> final(self).out(v).to_set() == pairs@.map_values(
                |t: (NodeId, Option<Weight>)| t.0,
            ).to_set() && final(self).inn(v) == old(self).inn(v),
            old(self).has(v) && !out ==> final(self).inn(v).to_set() == pairs@.map_values(
                |t: (NodeId, Option<Weight>)| t.0,
            ).to_set() && final(self).out(v) == old(self).out(v),
    {
        if !self.nodes.contains_key(v) {
            return;
        }
        let ghost t0 = *self;
        let mut n = self.take(v);
        if out {
            n.set_out_edges(pairs);
        } else {
            n.set_in_edges(pairs);
        }
        self.nodes.replace(v, n);
        proof {
            n.lemma_keys();
            let f = |t: (NodeId, Option<Weight>)| t.0;
            assert forall|k: NodeId| #[trigger] self.nodes@.contains_key(k) == t0.nodes@.contains_key(k) by {}
            assert forall|k: NodeId, x: NodeId|
                self.nodes@.contains_key(k) && #[trigger] self.nodes@[k].out_map().contains_key(x)
                    implies self.nodes@.contains_key(x) by {
                if k != v {
                    assert(t0.nodes@[k] == self.nodes@[k]);
                } else if out {
                    assert(pairs@.map_values(f).to_set().contains(x));
                    let i = choose|i: int| 0 <= i < pairs@.map_values(f).len() && pairs@.map_values(f)[i] == x;
                    assert(t0.has(pairs@[i].0));
                } else {
                    assert(t0.nodes@[k].out_map().contains_key(x));
                }
            }
            assert forall|k: NodeId, x: NodeId|
                self.nodes@.contains_key(k) && #[trigger] self.nodes@[k].in_map().contains_key(x)
                    implies self.nodes@.contains_key(x) by {
                if k != v {
                    assert(t0.nodes@[k] == self.nodes@[k]);
                } else if !out {
                    assert(pairs@.map_values(f).to_set().contains(x));
                    let i = choose|i: int| 0 <= i < pairs@.map_values(f).len() && pairs@.map_values(f)[i] == x;
                    assert(t0.has(pairs@[i].0));
                } else {
                    assert(t0.nodes@[k].in_map().contains_key(x));
                }
            }
        }
    }

    /// The vertex ids in increasing order.
    pub fn ids_vec(&self) -> (r: Vec<NodeId>)
        ensures
            r@ == self.ids(),
    {
        self.nodes.keys_vec()
    }
}

/// Appending a key larger than all others to a sorted sequence.
proof fn lemma_sorted_push(old_keys: Seq<NodeId>, new_keys: Seq<NodeId>, k: NodeId)
    requires
        crate::sortedmap::strictly_sorted(old_keys),
        crate::sortedmap::strictly_sorted(new_keys),
        forall|j: int| 0 <= j < old_keys.len() ==> old_keys[j] < k,
        new_keys.to_set() == old_keys.to_set().insert(k),
        !old_keys.contains(k),
    ensures
        new_keys == old_keys.push(k),
{
    let p = old_keys.push(k);
    assert forall|i: int, j: int| 0 <= i < j < p.len() implies p[i] < p[j] by {
        if j == old_keys.len() {
            assert(p[i] == old_keys[i]);
        }
    }
    old_keys.lemma_push_to_set_commute(k);
    crate::sortedmap::lemma_sorted_unique(new_keys, p);
}

/// The table's edges among the vertices below `n` are those of `edge_list`
/// (self-edges aside): out-edges, and in a directed graph in-edges too.
pub open spec fn table_matches<T>(t: NodeTable<T>, edge_list: Seq<Edge>, n: nat, directed: bool) -> bool {
    &&& forall|v: NodeId, w: NodeId|
        v < n && w < n && v != w ==> (#[trigger] t.node(v).out_map().dom().contains(w) <==> has_edge(
            edge_list,
            v,
            w,
            directed,
        ))
    &&& directed ==> forall|v: NodeId, w: NodeId|
        v < n && w < n && v != w ==> (#[trigger] t.node(w).in_map().dom().contains(v) <==> has_edge(
            edge_list,
            v,
            w,
            true,
        ))
    &&& forall|x: NodeId|
        x < n ==> !(#[trigger] t.node(x)).out_map().dom().contains(x) && !t.node(x).in_map().dom().contains(x)
    &&& !directed ==> forall|x: NodeId| x < n ==> (#[trigger] t.node(x)).in_map().dom() == Set::<NodeId>::empty()
}

/// Adding the edge `edge_list[i]` to a table that matched the edges before
/// it makes the table match the edges up to it.
pub proof fn lemma_table_matches_step<T>(
    t0: NodeTable<T>,
    t1: NodeTable<T>,
    edge_list: Seq<Edge>,
    i: int,
    n: nat,
    directed: bool,
)
    requires
        0 <= i < edge_list.len(),
        edge_list[i].0 < n,
        edge_list[i].1 < n,
        table_matches(t0, edge_list.subrange(0, i), n, directed),
        ({
            let a = edge_list[i].0;
            let b = edge_list[i].1;
            &&& forall|v: NodeId| v != a && v != b ==> #[trigger] t1.node(v) == t0.node(v)
            &&& a == b ==> t1.node(a) == t0.node(a)
            &&& a != b ==> {
                &&& t1.node(a).out_map().dom() == t0.node(a).out_map().dom().insert(b)
                &&& t1.node(a).in_map().dom() == t0.node(a).in_map().dom()
                &&& !directed ==> t1.node(b).out_map().dom() == t0.node(b).out_map().dom().insert(a)
                    && t1.node(b).in_map().dom() == t0.node(b).in_map().dom()
                &&& directed ==> t1.node(b).in_map().dom() == t0.node(b).in_map().dom().insert(a)
                    && t1.node(b).out_map().dom() == t0.node(b).out_map().dom()
            }
        }),
    ensures
        table_matches(t1, edge_list.subrange(0, i + 1), n, directed),
{
    let a = edge_list[i].0;
    let b = edge_list[i].1;
    let e = edge_list[i];
    assert forall|v: NodeId, w: NodeId| v < n && w < n && v != w implies (#[trigger] t1.node(v).out_map().dom().contains(w)
        <==> has_edge(edge_list.subrange(0, i + 1), v, w, directed)) by {
        lemma_has_edge_push(edge_list, i, v, w, directed);
        assert(t0.node(v).out_map().dom().contains(w) <==> has_edge(edge_list.subrange(0, i), v, w, directed));
    }
    if directed {
        assert forall|v: NodeId, w: NodeId| v < n && w < n && v != w implies (#[trigger] t1.node(w).in_map().dom().contains(v)
            <==> has_edge(edge_list.subrange(0, i + 1), v, w, true)) by {
            lemma_has_edge_push(edge_list, i, v, w, true);
            assert(t0.node(w).in_map().dom().contains(v) <==> has_edge(edge_list.subrange(0, i), v, w, true));
        }
    }
    assert forall|x: NodeId| x < n implies !(#[trigger] t1.node(x)).out_map().dom().contains(x)
        && !t1.node(x).in_map().dom().contains(x) by {
        assert(!t0.node(x).out_map().dom().contains(x) && !t0.node(x).in_map().dom().contains(x));
    }
    if !directed {
        assert forall|x: NodeId| x < n implies (#[trigger] t1.node(x)).in_map().dom() == Set::<NodeId>::empty() by {
            assert(t0.node(x).in_map().dom() == Set::<NodeId>::empty());
        }
    }
}

/// Adding an edge `a -> b` (and `b -> a` where undirected) lengthens the
/// out-list of `a`, and of `b` where undirected, by at most one, and no
/// other out-list.
pub proof fn lemma_out_len_step<T>(t0: NodeTable<T>, t1: NodeTable<T>, a: NodeId, b: NodeId, directed: bool)
    requires
        t0.wf(),
        t1.wf(),
        t0.has(a),
        t0.has(b),
        forall|v: NodeId| #[trigger] t1.has(v) == t0.has(v),
        forall|v: NodeId| v != a && v != b ==> #[trigger] t1.node(v) == t0.node(v),
        a == b ==> t1 == t0,
        a != b ==> t1.node(a).out_map().dom() == t0.node(a).out_map().dom().insert(b),
        a != b && directed ==> t1.node(b).out_map().dom() == t0.node(b).out_map().dom(),
        a != b && !directed ==> t1.node(b).out_map().dom() == t0.node(b).out_map().dom().insert(a),
    ensures
        forall|v: NodeId| #[trigger] t0.has(v) ==> t1.out(v).len() <= t0.out(v).len() + (if v == a { 1int } else { 0int }) + (
            if !directed && v == b { 1int } else { 0int }),
{
    t0.lemma_wf();
    t1.lemma_wf();
    assert forall|v: NodeId| #[trigger] t0.has(v) implies t1.out(v).len() <= t0.out(v).len() + (if v == a { 1int } else { 0int }) + (
        if !directed && v == b { 1int } else { 0int }) by {
        if a != b && (v == a || v == b) {
            assert(t1.has(v));
            t0.node(v).lemma_out_len();
            t1.node(v).lemma_out_len();
        }
    }
}

} // verus!
