//! The region-allocated graph model: the vertices live in a generational
//! arena, an edge names the arena slot (and generation) of its end, and a
//! vertex keeps its in- and out-edges as sets of such names with the
//! weight each was added with. Vertex ids are found through a cache from
//! id to arena index. A handle's vertex is its arena slot.

use crate::graph::{has_edge, ids, lemma_has_edge_push, CSRGraph};
use crate::sortedmap::SortedMap;
use crate::types::{AsNode, Edge, EdgeList, NodeId, Weight, WeightedEdge};
use generational_arena::{Arena, Index};
use vstd::prelude::*;

verus! {

#[verifier::external_type_specification]
#[verifier::external_body]
#[verifier::reject_recursive_types(T)]
pub struct ExArena<T>(Arena<T>);

/// Arena elements by index (slot and generation).
pub type ArenaSlots = Map<(usize, u64), usize>;

/// The elements of an arena of vertex ids, by index (slot and generation).
pub uninterp spec fn arena_contents(a: Arena<usize>) -> ArenaSlots;

/// The arena's generation: it starts at 0 and each removal raises it by one.
pub uninterp spec fn arena_generation(a: Arena<usize>) -> u64;

/// The arena is packed: its generation is 0, its elements fill the slots
/// below its length, and its free list runs through the remaining slots in
/// ascending order (as `Arena::with_capacity` and `Arena::reserve` lay it out).
pub uninterp spec fn arena_packed(a: Arena<usize>) -> bool;

/// `Arena::new`: an empty arena of generation 0, its free list the slots
/// of the default capacity in ascending order.
#[verifier::external_body]
fn arena_new() -> (a: Arena<usize>)
    ensures
        arena_contents(a) == ArenaSlots::empty(),
        arena_generation(a) == 0,
        arena_packed(a),
{
    Arena::new()
}

/// `Arena::insert`, its index taken apart by `Index::into_raw_parts`: the
/// value is stored under a slot that held nothing, in the arena's current
/// generation. A packed arena takes the head of its free list, the first
/// slot past its elements (growing by `reserve` keeps the free list in
/// ascending order), so the occupied slots are exactly those below the new
/// one and the arena stays packed.
#[verifier::external_body]
fn arena_insert(a: &mut Arena<usize>, v: usize) -> (i: (usize, u64))
    ensures
        i.1 == arena_generation(*old(a)),
        forall|g: u64| !arena_contents(*old(a)).contains_key((i.0, g)),
        arena_contents(*final(a)) == arena_contents(*old(a)).insert(i, v),
        arena_generation(*final(a)) == arena_generation(*old(a)),
        arena_packed(*old(a)) ==> arena_packed(*final(a)) && arena_generation(*old(a)) == 0 && forall|
            s: usize,
            g: u64,
        | #[trigger] arena_contents(*old(a)).contains_key((s, g)) <==> (s < i.0 && g == 0),
{
    a.insert(v).into_raw_parts()
}

/// `Arena::get` at `Index::from_raw_parts(i.0, i.1)`.
#[verifier::external_body]
fn arena_get(a: &Arena<usize>, i: (usize, u64)) -> (r: Option<usize>)
    ensures
        r == if arena_contents(*a).contains_key(i) {
            Some(arena_contents(*a)[i])
        } else {
            None::<usize>
        },
{
    match a.get(Index::from_raw_parts(i.0, i.1)) {
        Some(v) => Some(*v),
        None => None,
    }
}

/// `Arena::remove` at `Index::from_raw_parts(i.0, i.1)`: takes the element
/// out if it is there, raising the generation. The generation must not be
/// at its limit.
#[verifier::external_body]
fn arena_remove(a: &mut Arena<usize>, i: (usize, u64)) -> (r: Option<usize>)
    requires
        arena_generation(*old(a)) < u64::MAX,
    ensures
        arena_contents(*old(a)).contains_key(i) ==> {
            &&& r == Some(arena_contents(*old(a))[i])
            &&& arena_contents(*final(a)) == arena_contents(*old(a)).remove(i)
            &&& arena_generation(*final(a)) == arena_generation(*old(a)) + 1
        },
        !arena_contents(*old(a)).contains_key(i) ==> r is None && arena_contents(*final(a))
            == arena_contents(*old(a)) && arena_generation(*final(a)) == arena_generation(*old(a)),
{
    a.remove(Index::from_raw_parts(i.0, i.1))
}

/// `Arena::len`: the number of elements.
#[verifier::external_body]
fn arena_len(a: &Arena<usize>) -> (n: usize)
    ensures
        n == arena_contents(*a).dom().len(),
{
    a.len()
}

/// The indices `Arena::iter` visits, in the order it visits them: by slot.
#[verifier::external_body]
fn arena_indices(a: &Arena<usize>) -> (r: Vec<(usize, u64)>)
    ensures
        r@.to_set() == arena_contents(*a).dom(),
        forall|x: int, y: int| 0 <= x < y < r@.len() ==> r@[x].0 < r@[y].0,
{
    let mut r = Vec::new();
    for (i, _) in a.iter() {
        r.push(i.into_raw_parts());
    }
    r
}

/// An edge: the arena index of the vertex it leads to, and its weight.
#[derive(Clone, Copy)]
pub struct CustomIndex {
    pub index: (usize, u64),
    pub weight: Option<Weight>,
}

impl AsNode for CustomIndex {
    open spec fn node_of(&self) -> NodeId {
        self.index.0
    }

    fn as_node(&self) -> (r: NodeId) {
        self.index.0
    }
}

impl WeightedEdge for CustomIndex {
    open spec fn weight_of(&self) -> Option<Weight> {
        self.weight
    }

    fn get_weight(&self) -> (w: usize) {
        self.weight.unwrap()
    }

    fn set_weight(&mut self, weight: usize) {
        self.weight = Some(weight);
    }
}

fn same_edge(a: &CustomIndex, b: &CustomIndex) -> (r: bool)
    ensures
        r == (*a == *b),
{
    let same_weight = match (a.weight, b.weight) {
        (Some(x), Some(y)) => x == y,
        (None, None) => true,
        _ => false,
    };
    a.index.0 == b.index.0 && a.index.1 == b.index.1 && same_weight
}

/// Whether `set` holds `e`.
fn set_contains(set: &Vec<CustomIndex>, e: &CustomIndex) -> (r: bool)
    ensures
        r == set@.contains(*e),
{
    let mut i: usize = 0;
    while i < set.len()
        invariant
            i <= set@.len(),
            forall|k: int| 0 <= k < i ==> set@[k] != *e,
        decreases set@.len() - i,
    {
        if same_edge(&set[i], e) {
            return true;
        }
        i = i + 1;
    }
    false
}

/// Adds `e` to `set` unless it is there; returns whether it was added.
fn set_insert(set: &mut Vec<CustomIndex>, e: CustomIndex) -> (added: bool)
    ensures
        added == !old(set)@.contains(e),
        final(set)@ == if added {
            old(set)@.push(e)
        } else {
            old(set)@
        },
{
    if set_contains(set, &e) {
        false
    } else {
        set.push(e);
        true
    }
}

/// `set` without `e`; returns whether it was there.
fn set_remove(set: &mut Vec<CustomIndex>, e: &CustomIndex) -> (removed: bool)
    ensures
        removed == old(set)@.contains(*e),
        final(set)@ == old(set)@.filter(|x: CustomIndex| x != *e),
{
    let ghost s0 = set@;
    let mut kept: Vec<CustomIndex> = Vec::new();
    let mut removed = false;
    let mut i: usize = 0;
    while i < set.len()
        invariant
            s0 == set@,
            i <= set@.len(),
            kept@ == set@.subrange(0, i as int).filter(|x: CustomIndex| x != *e),
            removed == set@.subrange(0, i as int).contains(*e),
        decreases set@.len() - i,
    {
        let x = set[i];
        proof {
            let f = |x: CustomIndex| x != *e;
            assert(set@.subrange(0, i + 1).drop_last() =~= set@.subrange(0, i as int));
            reveal(Seq::filter);
            assert(set@.subrange(0, i + 1).last() == x);
        }
        if same_edge(&x, e) {
            removed = true;
            proof {
                assert(set@.subrange(0, i + 1)[i as int] == x);
            }
        } else {
            kept.push(x);
            proof {
                if set@.subrange(0, i + 1).contains(*e) {
                    let k = choose|k: int| #![trigger set@.subrange(0, i + 1)[k]] 0 <= k < i + 1 && set@.subrange(0, i + 1)[k] == *e;
                    assert(set@.subrange(0, i as int)[k] == *e);
                }
            }
        }
        i = i + 1;
    }
    proof {
        assert(set@.subrange(0, i as int) =~= set@);
    }
    *set = kept;
    removed
}

/// The distinct elements of `edges`, in the order they first occur.
fn edge_set(edges: &Vec<CustomIndex>) -> (r: Vec<CustomIndex>)
    ensures
        r@.to_set() == edges@.to_set(),
        r@.no_duplicates(),
        edges@.no_duplicates() ==> r@ == edges@,
{
    let mut r: Vec<CustomIndex> = Vec::new();
    let mut i: usize = 0;
    while i < edges.len()
        invariant
            i <= edges@.len(),
            r@.to_set() == edges@.subrange(0, i as int).to_set(),
            r@.no_duplicates(),
            edges@.no_duplicates() ==> r@ == edges@.subrange(0, i as int),
        decreases edges@.len() - i,
    {
        let ghost r0 = r@;
        let e = edges[i];
        set_insert(&mut r, e);
        proof {
            if edges@.no_duplicates() {
                assert(!r0.contains(e)) by {
                    if r0.contains(e) {
                        let j = choose|j: int| 0 <= j < r0.len() && r0[j] == e;
                        assert(edges@[j] == edges@[i as int]);
                    }
                }
                assert(r@ =~= edges@.subrange(0, i + 1));
            }
            assert(edges@.subrange(0, i + 1) =~= edges@.subrange(0, i as int).push(e));
            edges@.subrange(0, i as int).lemma_push_to_set_commute(e);
            if r@ != r0 {
                r0.lemma_push_to_set_commute(e);
                assert forall|a: int, b: int| 0 <= a < b < r@.len() implies r@[a] != r@[b] by {
                    if b == r0.len() {
                        assert(r0.contains(r0[a]));
                    }
                }
            } else {
                assert(r0.to_set().contains(e));
                assert(r0.to_set().insert(e) =~= r0.to_set());
            }
        }
        i = i + 1;
    }
    proof {
        assert(edges@.subrange(0, i as int) =~= edges@);
    }
    r
}

/// A vertex: its id, its value, and its sets of in- and out-edges.
pub struct ArenaNode<T> {
    pub node_id: usize,
    pub value: Option<T>,
    pub in_edges: Vec<CustomIndex>,
    pub out_edges: Vec<CustomIndex>,
}

impl<T> ArenaNode<T> {
    pub fn new(node_id: usize, value: Option<T>) -> (n: Self)
        ensures
            n.node_id == node_id,
            n.value == value,
            n.in_edges@ == Seq::<CustomIndex>::empty(),
            n.out_edges@ == Seq::<CustomIndex>::empty(),
    {
        ArenaNode { node_id, value, in_edges: Vec::new(), out_edges: Vec::new() }
    }

    pub open spec fn wf(&self) -> bool {
        self.in_edges@.no_duplicates() && self.out_edges@.no_duplicates()
    }
}


/// The vertex slots of an arena, in increasing order.
pub open spec fn slot_order(m: ArenaSlots) -> Seq<NodeId> {
    choose|s: Seq<NodeId>|
        crate::sortedmap::strictly_sorted(s) && s.to_set() == Set::new(|x: NodeId| exists|g: u64| m.contains_key((x, g)))
}

pub struct Graph<T> {
    vertices: Arena<usize>,
    nodes: SortedMap<ArenaNode<T>>,
    directed: bool,
    cache: SortedMap<(usize, u64)>,
    n_edges: usize,
    num_edges: usize,
}

impl<T> Graph<T> {
    /// The arena's elements: the vertex id stored under each index.
    pub closed spec fn slots(&self) -> ArenaSlots {
        arena_contents(self.vertices)
    }

    /// The arena has only been filled, in slot order, since it was made.
    pub closed spec fn spec_packed(&self) -> bool {
        arena_packed(self.vertices)
    }

    pub closed spec fn spec_generation(&self) -> u64 {
        arena_generation(self.vertices)
    }

    /// The vertex stored in a slot.
    pub closed spec fn node_at(&self, slot: usize) -> ArenaNode<T> {
        self.nodes@[slot]
    }

    /// The vertices by slot.
    pub closed spec fn node_map(&self) -> Map<usize, ArenaNode<T>> {
        self.nodes@
    }

    /// The cache from vertex id to arena index.
    pub closed spec fn spec_cache(&self) -> Map<usize, (usize, u64)> {
        self.cache@
    }

    pub closed spec fn spec_n_edges(&self) -> nat {
        self.n_edges as nat
    }

    pub closed spec fn spec_num_edges_added(&self) -> nat {
        self.num_edges as nat
    }

    pub closed spec fn spec_is_directed(&self) -> bool {
        self.directed
    }

    /// Vertex `v` is in the cache and its index still names an element.
    pub open spec fn live(&self, v: NodeId) -> bool {
        self.spec_cache().contains_key(v) && self.slots().contains_key(self.spec_cache()[v])
    }

    pub closed spec fn wf(&self) -> bool {
        &&& self.nodes.wf()
        &&& self.cache.wf()
        &&& self.slots().dom().finite()
        &&& forall|i: (usize, u64)| #[trigger] self.slots().contains_key(i) ==> self.nodes@.contains_key(i.0)
            && self.nodes@[i.0].node_id == self.slots()[i]
        &&& forall|k: usize| #[trigger] self.nodes@.contains_key(k) ==> self.nodes@[k].wf()
        &&& forall|k: usize, g1: u64, g2: u64|
            #![trigger self.slots().contains_key((k, g1)), self.slots().contains_key((k, g2))]
            self.slots().contains_key((k, g1)) && self.slots().contains_key((k, g2)) ==> g1 == g2
        &&& forall|x: usize| #[trigger] self.cache@.contains_key(x) ==> self.slots().contains_key(self.cache@[x])
            || self.cache@[x].1 < self.spec_generation()
        &&& forall|i: (usize, u64)| #[trigger] self.slots().contains_key(i) ==> i.1 <= self.spec_generation()
        &&& forall|x: usize, y: usize|
            #![trigger self.cache@.contains_key(x), self.cache@.contains_key(y)]
            self.cache@.contains_key(x) && self.cache@.contains_key(y) && x != y ==> self.cache@[x] != self.cache@[y]
    }

    pub fn new(directed: bool) -> (g: Self)
        ensures
            g.wf(),
            g.slots() == ArenaSlots::empty(),
            g.spec_generation() == 0,
            g.spec_packed(),
            g.spec_cache() == Map::<usize, (usize, u64)>::empty(),
            g.node_map().dom() == Set::<usize>::empty(),
            g.spec_n_edges() == 0,
            g.spec_num_edges_added() == 0,
            g.spec_is_directed() == directed,
    {
        Graph {
            vertices: arena_new(),
            nodes: SortedMap::new(),
            directed,
            cache: SortedMap::new(),
            n_edges: 0,
            num_edges: 0,
        }
    }

    /// Stores a new vertex `key` in the arena and points the cache at it
    /// (an earlier vertex with that id stays in the arena); returns its index.
    pub fn add_vertex(&mut self, key: usize, value: Option<T>) -> (index: (usize, u64))
        requires
            old(self).wf(),
        ensures
            final(self).wf(),
            !old(self).slots().contains_key(index),
            final(self).slots() == old(self).slots().insert(index, key),
            final(self).spec_generation() == old(self).spec_generation(),
            index.1 == old(self).spec_generation(),
            old(self).spec_packed() ==> final(self).spec_packed() && old(self).spec_generation() == 0
                && forall|k: usize, g: u64|
                #[trigger] old(self).slots().contains_key((k, g)) <==> (k < index.0 && g == 0),
            final(self).spec_cache() == old(self).spec_cache().insert(key, index),
            final(self).node_at(index.0).in_edges@ == Seq::<CustomIndex>::empty(),
            final(self).node_at(index.0).out_edges@ == Seq::<CustomIndex>::empty(),
            final(self).node_map().dom() == old(self).node_map().dom().insert(index.0),
            forall|j: usize| j != index.0 && #[trigger] old(self).node_map().contains_key(j) ==> final(self).node_map()[j]
                == old(self).node_map()[j],
            forall|i: (usize, u64)| #[trigger] old(self).slots().contains_key(i) ==> final(self).node_at(i.0) == old(
                self,
            ).node_at(i.0),
            final(self).spec_n_edges() == old(self).spec_n_edges(),
            final(self).spec_num_edges_added() == old(self).spec_num_edges_added(),
            final(self).spec_is_directed() == old(self).spec_is_directed(),
    {
        let node = ArenaNode::new(key, value);
        let index = arena_insert(&mut self.vertices, key);
        self.nodes.insert(index.0, node);
        self.cache.insert(key, index);
        proof {
            assert forall|x: usize, y: usize|
                #![trigger self.cache@.contains_key(x), self.cache@.contains_key(y)]
                self.cache@.contains_key(x) && self.cache@.contains_key(y) && x != y implies self.cache@[x] != self.cache@[y] by {
                if x == key && old(self).cache@.contains_key(y) {
                    assert(old(self).cache@.contains_key(y));
                } else if y == key && old(self).cache@.contains_key(x) {
                    assert(old(self).cache@.contains_key(x));
                } else if old(self).cache@.contains_key(x) && old(self).cache@.contains_key(y) {
                }
            }
            assert forall|i: (usize, u64)| #[trigger] old(self).slots().contains_key(i) implies i.0 != index.0 by {
                if i.0 == index.0 {
                    assert(!old(self).slots().contains_key((index.0, i.1)));
                }
            }
            assert forall|k: usize, g1: u64, g2: u64|
                #![trigger self.slots().contains_key((k, g1)), self.slots().contains_key((k, g2))]
                self.slots().contains_key((k, g1)) && self.slots().contains_key((k, g2)) implies g1 == g2 by {
                if k == index.0 {
                    assert(!old(self).slots().contains_key((k, g1)));
                    assert(!old(self).slots().contains_key((k, g2)));
                } else {
                    assert(old(self).slots().contains_key((k, g1)));
                    assert(old(self).slots().contains_key((k, g2)));
                }
            }
        }
        index
    }

    /// The arena index the cache holds for `node_id`.
    pub fn find_vertex(&self, node_id: usize) -> (r: Option<(usize, u64)>)
        requires
            self.wf(),
        ensures
            r == if self.spec_cache().contains_key(node_id) {
                Some(self.spec_cache()[node_id])
            } else {
                None::<(usize, u64)>
            },
    {
        match self.cache.get(node_id) {
            Some(i) => Some(*i),
            None => None,
        }
    }

    /// An edge handle, without weight, to the vertex the cache holds for `node_id`.
    pub fn get_vertex(&self, node_id: usize) -> (r: Option<CustomIndex>)
        requires
            self.wf(),
        ensures
            r == if self.spec_cache().contains_key(node_id) {
                Some(CustomIndex { index: self.spec_cache()[node_id], weight: None })
            } else {
                None::<CustomIndex>
            },
    {
        match self.cache.get(node_id) {
            Some(i) => Some(CustomIndex { index: *i, weight: None }),
            None => None,
        }
    }

    /// Adds `e` to the out-edges (`out`) or in-edges of the vertex in slot
    /// `k`; returns whether it was new.
    fn insert_edge_at(&mut self, k: usize, e: CustomIndex, out: bool) -> (added: bool)
        requires
            old(self).wf(),
            old(self).nodes@.contains_key(k),
        ensures
            final(self).wf(),
            final(self).slots() == old(self).slots(),
            final(self).spec_generation() == old(self).spec_generation(),
            final(self).spec_cache() == old(self).spec_cache(),
            final(self).spec_n_edges() == old(self).spec_n_edges(),
            final(self).spec_num_edges_added() == old(self).spec_num_edges_added(),
            final(self).spec_is_directed() == old(self).spec_is_directed(),
            forall|j: usize| j != k ==> #[trigger] final(self).nodes@.contains_key(j) == old(self).nodes@.contains_key(j),
            forall|j: usize| j != k && #[trigger] old(self).nodes@.contains_key(j) ==> final(self).nodes@[j] == old(self).nodes@[j],
            final(self).nodes@.contains_key(k),
            final(self).nodes@[k].node_id == old(self).nodes@[k].node_id,
            out ==> added == !old(self).nodes@[k].out_edges@.contains(e) && final(self).nodes@[k].out_edges@ == if added {
                old(self).nodes@[k].out_edges@.push(e)
            } else {
                old(self).nodes@[k].out_edges@
            } && final(self).nodes@[k].in_edges@ == old(self).nodes@[k].in_edges@,
            !out ==> added == !old(self).nodes@[k].in_edges@.contains(e) && final(self).nodes@[k].in_edges@ == if added {
                old(self).nodes@[k].in_edges@.push(e)
            } else {
                old(self).nodes@[k].in_edges@
            } && final(self).nodes@[k].out_edges@ == old(self).nodes@[k].out_edges@,
    {
        let mut node = self.nodes.remove(k).unwrap();
        let added = if out {
            set_insert(&mut node.out_edges, e)
        } else {
            set_insert(&mut node.in_edges, e)
        };
        proof {
            let s = if out { node.out_edges@ } else { node.in_edges@ };
            if added {
                assert forall|a: int, b: int| 0 <= a < b < s.len() implies s[a] != s[b] by {
                    if b == s.len() - 1 {
                        if out {
                            assert(old(self).nodes@[k].out_edges@.contains(s[a]));
                        } else {
                            assert(old(self).nodes@[k].in_edges@.contains(s[a]));
                        }
                    }
                }
            }
        }
        self.nodes.insert(k, node);
        added
    }

    /// Adds the edge `node1 -> node2` with `weight`: an out-edge of
    /// `node1` to `node2` and, back, an out-edge (undirected) or in-edge
    /// (directed) of `node2` to `node1`, each only where the cached index
    /// still names a vertex; nothing where an id is not cached. The edge
    /// count grows when the out-edge of `node1` is new.
    pub fn add_edge(&mut self, node1: usize, node2: usize, weight: &Option<Weight>, directed: bool)
        requires
            old(self).wf(),
            old(self).spec_n_edges() < usize::MAX,
        ensures
            final(self).wf(),
            final(self).slots() == old(self).slots(),
            final(self).spec_generation() == old(self).spec_generation(),
            final(self).spec_cache() == old(self).spec_cache(),
            final(self).spec_num_edges_added() == old(self).spec_num_edges_added(),
            final(self).spec_is_directed() == old(self).spec_is_directed(),
            final(self).spec_n_edges() <= old(self).spec_n_edges() + 1,
            final(self).node_map().dom() == old(self).node_map().dom(),
            forall|k: usize, x: CustomIndex|
                final(self).node_map().contains_key(k) && #[trigger] final(self).node_map()[k].out_edges@.contains(x) ==> old(
                    self,
                ).node_map()[k].out_edges@.contains(x) || (x.weight == *weight && (x.index == old(self).spec_cache()[node1]
                    || x.index == old(self).spec_cache()[node2])),
            forall|k: usize, x: CustomIndex|
                final(self).node_map().contains_key(k) && #[trigger] final(self).node_map()[k].in_edges@.contains(x) ==> old(
                    self,
                ).node_map()[k].in_edges@.contains(x) || (x.weight == *weight && (x.index == old(self).spec_cache()[node1]
                    || x.index == old(self).spec_cache()[node2])),
            !(old(self).spec_cache().contains_key(node1) && old(self).spec_cache().contains_key(node2))
                ==> final(self).node_map() == old(self).node_map() && final(self).spec_n_edges() == old(self).spec_n_edges(),
            forall|i: (usize, u64)|
                #[trigger] old(self).slots().contains_key(i) && i != old(self).spec_cache()[node1] && i != old(
                    self,
                ).spec_cache()[node2] ==> final(self).node_at(i.0) == old(self).node_at(i.0),
            old(self).live(node1) && old(self).live(node2) ==> {
                let v = old(self).spec_cache()[node1];
                let e = old(self).spec_cache()[node2];
                let to_e = CustomIndex { index: e, weight: *weight };
                let to_v = CustomIndex { index: v, weight: *weight };
                &&& final(self).node_at(v.0).out_edges@.to_set() == old(self).node_at(v.0).out_edges@.to_set().insert(
                    to_e,
                )
                &&& v != e && !directed ==> final(self).node_at(e.0).out_edges@.to_set() == old(self).node_at(
                    e.0,
                ).out_edges@.to_set().insert(to_v)
                &&& directed ==> final(self).node_at(e.0).in_edges@.to_set() == old(self).node_at(
                    e.0,
                ).in_edges@.to_set().insert(to_v)
                &&& !directed ==> final(self).node_at(v.0).in_edges@ == old(self).node_at(v.0).in_edges@
                    && final(self).node_at(e.0).in_edges@ == old(self).node_at(e.0).in_edges@
                &&& directed && v != e ==> final(self).node_at(v.0).in_edges@ == old(self).node_at(v.0).in_edges@
                    && final(self).node_at(e.0).out_edges@ == old(self).node_at(e.0).out_edges@
                &&& final(self).spec_n_edges() == old(self).spec_n_edges() + if old(self).node_at(
                    v.0,
                ).out_edges@.contains(to_e) || (!directed && v == e) {
                    0int
                } else {
                    1int
                }
            },
    {
        let ghost g0 = *self;
        proof {
            if g0.live(node1) && g0.live(node2) {
                let v = g0.spec_cache()[node1];
                let e = g0.spec_cache()[node2];
                assert(g0.slots().contains_key((v.0, v.1)));
                assert(g0.slots().contains_key((e.0, e.1)));
                if v.0 == e.0 {
                    assert(v.1 == e.1);
                    assert(v == e);
                }
            }
        }
        if let (Some(vertex), Some(edge)) = (self.get_vertex(node1), self.get_vertex(node2)) {
            let to_vertex = CustomIndex { index: vertex.index, weight: *weight };
            if arena_get(&self.vertices, edge.index).is_some() {
                self.insert_edge_at(edge.index.0, to_vertex, !directed);
                proof {
                    let ss = if !directed { g0.nodes@[edge.index.0].out_edges@ } else { g0.nodes@[edge.index.0].in_edges@ };
                    ss.lemma_push_to_set_commute(to_vertex);
                    if ss.contains(to_vertex) {
                        assert(ss.to_set().insert(to_vertex) =~= ss.to_set());
                    }
                }
            }
            let ghost g1 = *self;
            let to_edge = CustomIndex { index: edge.index, weight: *weight };
            if arena_get(&self.vertices, vertex.index).is_some() {
                if self.insert_edge_at(vertex.index.0, to_edge, true) {
                    self.n_edges = self.n_edges + 1;
                }
                proof {
                    let ss = g1.nodes@[vertex.index.0].out_edges@;
                    ss.lemma_push_to_set_commute(to_edge);
                    if ss.contains(to_edge) {
                        assert(ss.to_set().insert(to_edge) =~= ss.to_set());
                    }
                    if !directed && vertex.index == edge.index {
                        let s0 = g0.nodes@[vertex.index.0].out_edges@;
                        s0.lemma_push_to_set_commute(to_vertex);
                        if s0.contains(to_vertex) {
                            assert(s0.to_set().insert(to_vertex) =~= s0.to_set());
                        }
                        assert(ss.contains(to_edge)) by {
                            if !s0.contains(to_vertex) {
                                assert(ss == s0.push(to_vertex));
                                assert(ss[s0.len() as int] == to_edge);
                            }
                        }
                    }
                }
            }
        }
        proof {
            assert(self.node_map().dom() =~= g0.node_map().dom());
            assert forall|k: usize, x: CustomIndex|
                self.node_map().contains_key(k) && #[trigger] self.node_map()[k].out_edges@.contains(x) implies g0.node_map()[k].out_edges@.contains(
                    x,
                ) || (x.weight == *weight && (x.index == g0.spec_cache()[node1] || x.index == g0.spec_cache()[node2])) by {
                if !g0.node_map()[k].out_edges@.contains(x) {
                    let j = choose|j: int| 0 <= j < self.node_map()[k].out_edges@.len() && self.node_map()[k].out_edges@[j] == x;
                }
            }
            assert forall|k: usize, x: CustomIndex|
                self.node_map().contains_key(k) && #[trigger] self.node_map()[k].in_edges@.contains(x) implies g0.node_map()[k].in_edges@.contains(
                    x,
                ) || (x.weight == *weight && (x.index == g0.spec_cache()[node1] || x.index == g0.spec_cache()[node2])) by {
                if !g0.node_map()[k].in_edges@.contains(x) {
                    let j = choose|j: int| 0 <= j < self.node_map()[k].in_edges@.len() && self.node_map()[k].in_edges@[j] == x;
                }
            }
            assert forall|i: (usize, u64)|
                #[trigger] g0.slots().contains_key(i) && i != g0.spec_cache()[node1] && i != g0.spec_cache()[node2]
                    implies self.node_at(i.0) == g0.node_at(i.0) by {
                if g0.spec_cache().contains_key(node1) && g0.slots().contains_key(g0.spec_cache()[node1]) {
                    let v = g0.spec_cache()[node1];
                    if i.0 == v.0 {
                        assert(g0.slots().contains_key((i.0, i.1)));
                        assert(g0.slots().contains_key((v.0, v.1)));
                    }
                }
                if g0.spec_cache().contains_key(node2) && g0.slots().contains_key(g0.spec_cache()[node2]) {
                    let e = g0.spec_cache()[node2];
                    if i.0 == e.0 {
                        assert(g0.slots().contains_key((i.0, i.1)));
                        assert(g0.slots().contains_key((e.0, e.1)));
                    }
                }
            }
        }
    }
}


/// The slots of the elements `m` holds.
pub open spec fn slot_set(m: ArenaSlots) -> Set<NodeId> {
    Set::new(|x: NodeId| exists|g: u64| m.contains_key((x, g)))
}

proof fn lemma_slot_order(m: ArenaSlots, s: Seq<NodeId>)
    requires
        crate::sortedmap::strictly_sorted(s),
        s.to_set() == slot_set(m),
    ensures
        slot_order(m) == s,
{
    let c = slot_order(m);
    assert(crate::sortedmap::strictly_sorted(c) && c.to_set() == Set::new(
        |x: NodeId| exists|g: u64| m.contains_key((x, g)),
    ));
    crate::sortedmap::lemma_sorted_unique(c, s);
}

/// Edge handles taken one for one.
fn copy_edges(edges: &Vec<CustomIndex>) -> (r: Vec<CustomIndex>)
    ensures
        r@ == edges@,
{
    let mut r: Vec<CustomIndex> = Vec::new();
    let mut i: usize = 0;
    while i < edges.len()
        invariant
            i <= edges@.len(),
            r@ == edges@.subrange(0, i as int),
        decreases edges@.len() - i,
    {
        r.push(edges[i]);
        assert(r@ =~= edges@.subrange(0, i + 1));
        i = i + 1;
    }
    assert(edges@.subrange(0, i as int) =~= edges@);
    r
}

/// Distinct edges taken from a list whose ends are distinct have distinct
/// ends.
proof fn lemma_ids_no_dup(r: Seq<CustomIndex>, edges: Seq<CustomIndex>)
    requires
        r.to_set() == edges.to_set(),
        r.no_duplicates(),
        ids(edges).no_duplicates(),
    ensures
        ids(r).no_duplicates(),
{
    assert forall|a: int, b: int| 0 <= a < b < ids(r).len() implies ids(r)[a] != ids(r)[b] by {
        if ids(r)[a] == ids(r)[b] {
            assert(r.to_set().contains(r[a]));
            assert(r.to_set().contains(r[b]));
            let ia = choose|ia: int| 0 <= ia < edges.len() && edges[ia] == r[a];
            let ib = choose|ib: int| 0 <= ib < edges.len() && edges[ib] == r[b];
            assert(ids(edges)[ia] == ids(edges)[ib]);
            assert(r[a] == r[b]);
        }
    }
}

/// Edges with distinct ends are distinct.
proof fn lemma_ids_no_dup_seq(edges: Seq<CustomIndex>)
    requires
        ids(edges).no_duplicates(),
    ensures
        edges.no_duplicates(),
{
    assert forall|a: int, b: int| 0 <= a < b < edges.len() implies edges[a] != edges[b] by {
        assert(ids(edges)[a] != ids(edges)[b]);
    }
}

proof fn lemma_ids_to_set(a: Seq<CustomIndex>, b: Seq<CustomIndex>)
    requires
        a.to_set() == b.to_set(),
    ensures
        ids(a).to_set() == ids(b).to_set(),
{
    assert forall|x: NodeId| ids(a).to_set().contains(x) implies ids(b).to_set().contains(x) by {
        let i = choose|i: int| 0 <= i < ids(a).len() && ids(a)[i] == x;
        assert(a.to_set().contains(a[i]));
        let j = choose|j: int| 0 <= j < b.len() && b[j] == a[i];
        assert(ids(b)[j] == x);
    }
    assert forall|x: NodeId| ids(b).to_set().contains(x) implies ids(a).to_set().contains(x) by {
        let i = choose|i: int| 0 <= i < ids(b).len() && ids(b)[i] == x;
        assert(b.to_set().contains(b[i]));
        let j = choose|j: int| 0 <= j < a.len() && a[j] == b[i];
        assert(ids(a)[j] == x);
    }
    assert(ids(a).to_set() =~= ids(b).to_set());
}

impl<T> Graph<T> {
    /// Sets the out-edges (`out`) or in-edges of vertex `v` to the
    /// distinct elements of `edges`, where `v` is cached and alive.
    fn replace_edges(&mut self, v: NodeId, edges: Vec<CustomIndex>, out: bool)
        requires
            old(self).wf(),
        ensures
            final(self).wf(),
            final(self).slots() == old(self).slots(),
            final(self).spec_generation() == old(self).spec_generation(),
            final(self).spec_cache() == old(self).spec_cache(),
            final(self).spec_n_edges() == old(self).spec_n_edges(),
            final(self).spec_num_edges_added() == old(self).spec_num_edges_added(),
            final(self).spec_is_directed() == old(self).spec_is_directed(),
            !old(self).live(v) ==> final(self).node_map() == old(self).node_map(),
            old(self).live(v) ==> {
                let k = old(self).spec_cache()[v].0;
                &&& forall|j: usize| j != k ==> #[trigger] final(self).node_map().contains_key(j) == old(self).node_map().contains_key(j)
                &&& forall|j: usize| j != k && #[trigger] old(self).node_map().contains_key(j) ==> final(self).node_map()[j] == old(
                    self,
                ).node_map()[j]
                &&& out ==> final(self).node_at(k).out_edges@.to_set() == edges@.to_set() && final(self).node_at(
                    k,
                ).in_edges@ == old(self).node_at(k).in_edges@
                &&& !out ==> final(self).node_at(k).in_edges@.to_set() == edges@.to_set() && final(self).node_at(
                    k,
                ).out_edges@ == old(self).node_at(k).out_edges@
                &&& out && edges@.no_duplicates() ==> final(self).node_at(k).out_edges@ == edges@
                &&& !out && edges@.no_duplicates() ==> final(self).node_at(k).in_edges@ == edges@
            },
    {
        if let Some(found) = self.get_vertex(v) {
            if arena_get(&self.vertices, found.index).is_some() {
                let k = found.index.0;
                let set = edge_set(&edges);
                let mut node = self.nodes.remove(k).unwrap();
                if out {
                    node.out_edges = set;
                } else {
                    node.in_edges = set;
                }
                self.nodes.insert(k, node);
            }
        }
    }

    /// Adds vertex `v` without a value.
    pub fn op_add_vertex(&mut self, v: NodeId)
        requires
            old(self).wf(),
        ensures
            final(self).wf(),
            exists|index: (usize, u64)|
                !old(self).slots().contains_key(index) && final(self).slots() == old(self).slots().insert(index, v)
                    && final(self).spec_cache() == old(self).spec_cache().insert(v, index),
            final(self).spec_generation() == old(self).spec_generation(),
            final(self).spec_n_edges() == old(self).spec_n_edges(),
    {
        let index = self.add_vertex(v, None);
        assert(!old(self).slots().contains_key(index) && self.slots() == old(self).slots().insert(index, v)
            && self.spec_cache() == old(self).spec_cache().insert(v, index));
    }

    /// Adds the undirected edge `v - e` without a weight.
    pub fn op_add_edge(&mut self, v: NodeId, e: NodeId)
        requires
            old(self).wf(),
            old(self).spec_n_edges() < usize::MAX,
        ensures
            final(self).wf(),
            final(self).slots() == old(self).slots(),
            final(self).spec_generation() == old(self).spec_generation(),
            final(self).spec_cache() == old(self).spec_cache(),
            final(self).spec_n_edges() <= old(self).spec_n_edges() + 1,
            old(self).live(v) && old(self).live(e) ==> final(self).node_at(old(self).spec_cache()[v].0).out_edges@.to_set()
                == old(self).node_at(old(self).spec_cache()[v].0).out_edges@.to_set().insert(
                CustomIndex { index: old(self).spec_cache()[e], weight: None },
            ),
    {
        self.add_edge(v, e, &None, false);
    }

    /// Removes from the out-edges of `v` the edge without weight to `e`,
    /// where `v` is cached and alive and `e` is cached.
    pub fn op_delete_edge(&mut self, v: NodeId, e: NodeId)
        requires
            old(self).wf(),
        ensures
            final(self).wf(),
            final(self).slots() == old(self).slots(),
            final(self).spec_generation() == old(self).spec_generation(),
            final(self).spec_cache() == old(self).spec_cache(),
            final(self).spec_n_edges() == old(self).spec_n_edges(),
            !(old(self).live(v) && old(self).spec_cache().contains_key(e)) ==> final(self).node_map() == old(
                self,
            ).node_map(),
            old(self).live(v) && old(self).spec_cache().contains_key(e) ==> {
                let k = old(self).spec_cache()[v].0;
                let gone = CustomIndex { index: old(self).spec_cache()[e], weight: None };
                &&& final(self).node_at(k).out_edges@ == old(self).node_at(k).out_edges@.filter(
                    |x: CustomIndex| x != gone,
                )
                &&& final(self).node_at(k).in_edges@ == old(self).node_at(k).in_edges@
                &&& forall|j: usize| j != k && #[trigger] old(self).node_map().contains_key(j) ==> final(self).node_map()[j]
                    == old(self).node_map()[j]
            },
    {
        if let Some(idx) = self.get_vertex(v) {
            if arena_get(&self.vertices, idx.index).is_some() {
                if let Some(edge) = self.get_vertex(e) {
                    let k = idx.index.0;
                    let mut node = self.nodes.remove(k).unwrap();
                    let ghost before = node.out_edges@;
                    set_remove(&mut node.out_edges, &edge);
                    proof {
                        let f = |x: CustomIndex| x != edge;
                        assert forall|a: int, b: int| 0 <= a < b < node.out_edges@.len() implies node.out_edges@[a]
                            != node.out_edges@[b] by {
                            lemma_filter_no_dup(before, f, a, b);
                        }
                    }
                    self.nodes.insert(k, node);
                }
            }
        }
    }

    /// Removes the vertex the cache holds for `v` from the arena (the cache
    /// keeps its entry).
    pub fn op_delete_vertex(&mut self, v: NodeId)
        requires
            old(self).wf(),
            old(self).spec_generation() < u64::MAX,
        ensures
            final(self).wf(),
            final(self).spec_cache() == old(self).spec_cache(),
            final(self).spec_n_edges() == old(self).spec_n_edges(),
            old(self).live(v) ==> final(self).slots() == old(self).slots().remove(old(self).spec_cache()[v])
                && final(self).spec_generation() == old(self).spec_generation() + 1,
            !old(self).live(v) ==> final(self).slots() == old(self).slots() && final(self).spec_generation() == old(
                self,
            ).spec_generation(),
    {
        if let Some(idx) = self.get_vertex(v) {
            let ghost g0 = *self;
            let removed = arena_remove(&mut self.vertices, idx.index);
            if removed.is_some() {
                self.nodes.remove(idx.index.0);
                proof {
                    assert forall|i: (usize, u64)| #[trigger] self.slots().contains_key(i) implies self.nodes@.contains_key(i.0)
                        && self.nodes@[i.0].node_id == self.slots()[i] by {
                        assert(g0.slots().contains_key(i));
                        if i.0 == idx.index.0 {
                            assert(g0.slots().contains_key((i.0, i.1)));
                            assert(g0.slots().contains_key((idx.index.0, idx.index.1)));
                        }
                    }
                    assert forall|k: usize, g1: u64, g2: u64|
                        #![trigger self.slots().contains_key((k, g1)), self.slots().contains_key((k, g2))]
                        self.slots().contains_key((k, g1)) && self.slots().contains_key((k, g2)) implies g1 == g2 by {
                        assert(g0.slots().contains_key((k, g1)));
                        assert(g0.slots().contains_key((k, g2)));
                    }
                    assert forall|x: usize| #[trigger] self.cache@.contains_key(x) implies self.slots().contains_key(
                        self.cache@[x],
                    ) || self.cache@[x].1 < self.spec_generation() by {
                        assert(g0.cache@.contains_key(x));
                        if g0.slots().contains_key(g0.cache@[x]) {
                            assert(g0.cache@[x].1 <= g0.spec_generation());
                        }
                    }
                    assert forall|i: (usize, u64)| #[trigger] self.slots().contains_key(i) implies i.1 <= self.spec_generation() by {
                        assert(g0.slots().contains_key(i));
                    }
                }
            }
        }
    }

    /// Looks vertex `v` up (and drops the answer).
    pub fn op_find_vertex(&self, v: NodeId)
        requires
            self.wf(),
    {
        let _ = self.find_vertex(v);
    }
}

proof fn lemma_filter_no_dup(s: Seq<CustomIndex>, f: spec_fn(CustomIndex) -> bool, a: int, b: int)
    requires
        s.no_duplicates(),
        0 <= a < b < s.filter(f).len(),
    ensures
        s.filter(f)[a] != s.filter(f)[b],
    decreases s.len(),
{
    reveal(Seq::filter);
    let fs = s.drop_last().filter(f);
    assert(s.drop_last().no_duplicates()) by {
        assert forall|x: int, y: int| 0 <= x < y < s.drop_last().len() implies s.drop_last()[x] != s.drop_last()[y] by {
            assert(s[x] != s[y]);
        }
    }
    if f(s.last()) {
        assert(s.filter(f) == fs.push(s.last()));
        if b == fs.len() {
            assert(fs[a] == s.filter(f)[a]);
            assert(fs.contains(fs[a]));
            s.drop_last().lemma_filter_contains_rev(f, fs[a]);
            assert(s.drop_last().contains(fs[a]));
            let i = choose|i: int| 0 <= i < s.drop_last().len() && s.drop_last()[i] == fs[a];
            assert(s[i] != s[s.len() - 1]);
        } else {
            lemma_filter_no_dup(s.drop_last(), f, a, b);
        }
    } else {
        assert(s.filter(f) == fs);
        lemma_filter_no_dup(s.drop_last(), f, a, b);
    }
}


impl<T> CSRGraph<CustomIndex, CustomIndex> for Graph<T> {
    closed spec fn spec_wf(&self) -> bool {
        self.wf()
    }

    closed spec fn spec_directed(&self) -> bool {
        self.directed
    }

    closed spec fn spec_num_nodes(&self) -> nat {
        self.slots().dom().len()
    }

    closed spec fn spec_num_edges(&self) -> nat {
        self.n_edges as nat
    }

    closed spec fn spec_num_edges_directed(&self) -> nat {
        if self.directed {
            self.num_edges as nat
        } else {
            (self.num_edges * 2) as nat
        }
    }

    closed spec fn spec_vertices(&self) -> Seq<NodeId> {
        slot_order(self.slots())
    }

    closed spec fn spec_has_vertex(&self, v: NodeId) -> bool {
        self.live(v)
    }

    closed spec fn spec_out(&self, v: NodeId) -> Seq<NodeId> {
        ids(self.spec_out_edges(v))
    }

    closed spec fn spec_in(&self, v: NodeId) -> Seq<NodeId> {
        ids(self.in_of(v))
    }

    closed spec fn spec_out_edges(&self, v: NodeId) -> Seq<CustomIndex> {
        self.out_of(v)
    }

    fn build_directed(num_nodes: usize, edge_list: &EdgeList) -> (g: Self)
        ensures
            g.spec_num_edges_directed() == edge_list@.len(),
    {
        let g = build(num_nodes, edge_list, true);
        proof {
            g.lemma_out_len_bound();
            g.lemma_built_neighbours(num_nodes as nat);
            assert forall|v: NodeId, w: NodeId| v < num_nodes && w < num_nodes implies (g.spec_out(v).contains(w)
                <==> has_edge(edge_list@, v, w, true)) && (g.spec_in(w).contains(v) <==> has_edge(edge_list@, v, w, true)) by {
                assert(arena_out_has(g, v, w) <==> has_edge(edge_list@, v, w, true));
                assert(arena_in_has(g, w, v) <==> has_edge(edge_list@, v, w, true));
            }
            assert forall|v: NodeId, w: NodeId|
                #![trigger g.spec_out(v).contains(w)]
                #![trigger g.spec_in(w).contains(v)]
                v < num_nodes && w < num_nodes implies (g.spec_out(v).contains(w) <==> g.spec_in(w).contains(v)) by {
                assert(arena_out_has(g, v, w) <==> has_edge(edge_list@, v, w, true));
                assert(arena_in_has(g, w, v) <==> has_edge(edge_list@, v, w, true));
            }
        }
        g
    }

    fn build_undirected(num_nodes: usize, edge_list: &EdgeList) -> (g: Self)
        ensures
            g.spec_num_edges_directed() == 2 * edge_list@.len(),
    {
        let g = build(num_nodes, edge_list, false);
        proof {
            g.lemma_out_len_bound();
            g.lemma_built_neighbours(num_nodes as nat);
            assert forall|v: NodeId, w: NodeId| v < num_nodes && w < num_nodes implies (g.spec_out(v).contains(w)
                <==> has_edge(edge_list@, v, w, false)) && (g.spec_out(v).contains(w) <==> g.spec_out(w).contains(v)) by {
                crate::graph::lemma_has_edge_sym(edge_list@, v, w);
                assert(arena_out_has(g, v, w) <==> has_edge(edge_list@, v, w, false));
                assert(arena_out_has(g, w, v) <==> has_edge(edge_list@, w, v, false));
            }
            assert forall|v: NodeId, w: NodeId|
                #![trigger g.spec_out(v).contains(w), g.spec_out(w).contains(v)]
                v < num_nodes && w < num_nodes implies (g.spec_out(v).contains(w) <==> g.spec_out(w).contains(v)) by {
                crate::graph::lemma_has_edge_sym(edge_list@, v, w);
                assert(arena_out_has(g, v, w) <==> has_edge(edge_list@, v, w, false));
                assert(arena_out_has(g, w, v) <==> has_edge(edge_list@, w, v, false));
            }
            assert forall|v: NodeId| v < num_nodes implies (#[trigger] g.spec_in(v)).len() == 0 by {
                assert(g.in_of(v).len() == 0);
            }
        }
        g
    }

    fn directed(&self) -> (b: bool) {
        self.directed
    }

    fn num_nodes(&self) -> (n: usize) {
        arena_len(&self.vertices)
    }

    fn num_edges(&self) -> (n: usize) {
        self.n_edges
    }

    fn num_edges_directed(&self) -> (n: usize) {
        if self.directed {
            self.num_edges
        } else {
            self.num_edges * 2
        }
    }

    fn out_degree(&self, v: NodeId) -> (d: usize) {
        let n = self.live_node(v);
        n.out_edges.len()
    }

    fn in_degree(&self, v: NodeId) -> (d: usize) {
        let n = self.live_node(v);
        n.in_edges.len()
    }

    fn out_neigh(&self, v: NodeId) -> (r: Vec<CustomIndex>) {
        let n = self.live_node(v);
        copy_edges(&n.out_edges)
    }

    fn in_neigh(&self, v: NodeId) -> (r: Vec<CustomIndex>) {
        let n = self.live_node(v);
        copy_edges(&n.in_edges)
    }

    fn vertices(&self) -> (r: Vec<CustomIndex>) {
        let idx = arena_indices(&self.vertices);
        let mut r: Vec<CustomIndex> = Vec::new();
        let mut i: usize = 0;
        while i < idx.len()
            invariant
                i <= idx@.len(),
                r@.len() == i,
                forall|k: int| 0 <= k < i ==> #[trigger] r@[k].index == idx@[k],
            decreases idx@.len() - i,
        {
            r.push(CustomIndex { index: idx[i], weight: None });
            i = i + 1;
        }
        proof {
            let s = ids(r@);
            assert forall|x: int, y: int| 0 <= x < y < s.len() implies s[x] < s[y] by {
                assert(idx@[x].0 < idx@[y].0);
            }
            assert forall|x: NodeId| s.to_set().contains(x) <==> slot_set(self.slots()).contains(x) by {
                if s.to_set().contains(x) {
                    let k = choose|k: int| 0 <= k < s.len() && s[k] == x;
                    assert(idx@.to_set().contains(idx@[k]));
                    assert(self.slots().contains_key((x, idx@[k].1)));
                }
                if slot_set(self.slots()).contains(x) {
                    let g = choose|g: u64| self.slots().contains_key((x, g));
                    assert(idx@.to_set().contains((x, g)));
                    let k = choose|k: int| 0 <= k < idx@.len() && idx@[k] == (x, g);
                    assert(s[k] == x);
                }
            }
            assert(s.to_set() =~= slot_set(self.slots()));
            lemma_slot_order(self.slots(), s);
        }
        r
    }

    fn replace_out_edges(&mut self, v: NodeId, edges: Vec<CustomIndex>) {
        let ghost g0 = *self;
        let ghost e0 = edges@;
        self.replace_edges(v, edges, true);
        proof {
            self.lemma_replaced_frame(g0, v, true);
            if g0.live(v) {
                lemma_ids_to_set(self.node_at(g0.spec_cache()[v].0).out_edges@, e0);
                if ids(e0).no_duplicates() {
                    lemma_ids_no_dup(self.node_at(g0.spec_cache()[v].0).out_edges@, e0);
                    lemma_ids_no_dup_seq(e0);
                }
            }
        }
    }

    fn replace_in_edges(&mut self, v: NodeId, edges: Vec<CustomIndex>) {
        let ghost g0 = *self;
        let ghost e0 = edges@;
        self.replace_edges(v, edges, false);
        proof {
            self.lemma_replaced_frame(g0, v, false);
            if g0.live(v) {
                lemma_ids_to_set(self.node_at(g0.spec_cache()[v].0).in_edges@, e0);
                if ids(e0).no_duplicates() {
                    lemma_ids_no_dup(self.node_at(g0.spec_cache()[v].0).in_edges@, e0);
                    lemma_ids_no_dup_seq(e0);
                }
            }
        }
    }
}

impl<T> Graph<T> {
    /// The vertex that live vertex `v` names.
    fn live_node(&self, v: NodeId) -> (n: &ArenaNode<T>)
        requires
            self.wf(),
            self.live(v),
        ensures
            *n == self.node_at(self.spec_cache()[v].0),
    {
        let i = match self.cache.get(v) {
            Some(i) => *i,
            None => (0, 0),
        };
        match self.nodes.get(i.0) {
            Some(n) => n,
            None => {
                proof {
                    assert(self.slots().contains_key(i));
                }
                self.nodes.get(i.0).unwrap()
            },
        }
    }

    /// After `replace_edges` on `v`, every other vertex has the edges it had.
    proof fn lemma_replaced_frame(&self, g0: Self, v: NodeId, out: bool)
        requires
            g0.wf(),
            self.wf(),
            self.slots() == g0.slots(),
            self.spec_cache() == g0.spec_cache(),
            !g0.live(v) ==> self.node_map() == g0.node_map(),
            g0.live(v) ==> {
                let k = g0.spec_cache()[v].0;
                &&& forall|j: usize| j != k && #[trigger] g0.node_map().contains_key(j) ==> self.node_map()[j] == g0.node_map()[j]
                &&& out ==> self.node_at(k).in_edges@ == g0.node_at(k).in_edges@
                &&& !out ==> self.node_at(k).out_edges@ == g0.node_at(k).out_edges@
            },
        ensures
            forall|x: NodeId| x != v ==> #[trigger] self.out_of(x) == g0.out_of(x),
            forall|x: NodeId| x != v ==> #[trigger] self.in_of(x) == g0.in_of(x),
            out ==> self.in_of(v) == g0.in_of(v),
            !out ==> self.out_of(v) == g0.out_of(v),
    {
        assert forall|x: NodeId| x != v implies #[trigger] self.out_of(x) == g0.out_of(x) by {
            self.lemma_same_node(g0, v, x);
        }
        assert forall|x: NodeId| x != v implies #[trigger] self.in_of(x) == g0.in_of(x) by {
            self.lemma_same_node(g0, v, x);
        }
    }

    proof fn lemma_same_node(&self, g0: Self, v: NodeId, x: NodeId)
        requires
            g0.wf(),
            self.slots() == g0.slots(),
            self.spec_cache() == g0.spec_cache(),
            x != v,
            !g0.live(v) ==> self.node_map() == g0.node_map(),
            g0.live(v) ==> forall|j: usize|
                j != g0.spec_cache()[v].0 && #[trigger] g0.node_map().contains_key(j) ==> self.node_map()[j] == g0.node_map()[j],
        ensures
            self.out_of(x) == g0.out_of(x),
            self.in_of(x) == g0.in_of(x),
    {
            if g0.live(x) {
                let a = g0.spec_cache()[x];
                assert(g0.slots().contains_key((a.0, a.1)));
                if g0.live(v) {
                    let b = g0.spec_cache()[v];
                    assert(g0.cache@.contains_key(x) && g0.cache@.contains_key(v));
                    assert(a != b);
                    assert(g0.slots().contains_key((b.0, b.1)));
                    assert(a.0 != b.0);
                }
                assert(g0.node_map().contains_key(a.0));
            }
    }

    /// In a graph that `build` made, the neighbours of every vertex are vertices.
    proof fn lemma_built_neighbours(&self, n: nat)
        requires
            self.wf(),
            forall|v: NodeId| #[trigger] self.live(v) <==> v < n,
            forall|v: NodeId| v < n ==> self.spec_cache()[v] == (v, 0u64),
            forall|k: usize, x: CustomIndex|
                self.node_map().contains_key(k) && #[trigger] self.node_map()[k].out_edges@.contains(x) ==> x.index.0 < n,
            forall|k: usize, x: CustomIndex|
                self.node_map().contains_key(k) && #[trigger] self.node_map()[k].in_edges@.contains(x) ==> x.index.0 < n,
        ensures
            forall|v: NodeId, i: int| v < n && 0 <= i < self.out_of(v).len() ==> #[trigger] ids(self.out_of(v))[i] < n,
            forall|v: NodeId, i: int| v < n && 0 <= i < self.in_of(v).len() ==> #[trigger] ids(self.in_of(v))[i] < n,
    {
        assert forall|v: NodeId, i: int| v < n && 0 <= i < self.out_of(v).len() implies #[trigger] ids(self.out_of(v))[i] < n by {
            assert(self.live(v));
            assert(self.slots().contains_key((v, 0u64)));
            let x = self.out_of(v)[i];
            assert(self.node_map()[v].out_edges@.contains(x));
        }
        assert forall|v: NodeId, i: int| v < n && 0 <= i < self.in_of(v).len() implies #[trigger] ids(self.in_of(v))[i] < n by {
            assert(self.live(v));
            assert(self.slots().contains_key((v, 0u64)));
            let x = self.in_of(v)[i];
            assert(self.node_map()[v].in_edges@.contains(x));
        }
    }

    pub closed spec fn in_of(&self, x: NodeId) -> Seq<CustomIndex> {
        if self.live(x) {
            self.node_at(self.spec_cache()[x].0).in_edges@
        } else {
            Seq::empty()
        }
    }

    /// Every out-list is held in a vector, so its length fits in `usize`.
    proof fn lemma_out_len_bound(&self)
        ensures
            forall|x: NodeId| (#[trigger] self.out_of(x)).len() <= usize::MAX,
    {
        assert forall|x: NodeId| (#[trigger] self.out_of(x)).len() <= usize::MAX by {
            if self.live(x) {
                let e = self.node_at(self.spec_cache()[x].0).out_edges;
                assert(e.len() == e@.len());
            }
        }
    }

    pub closed spec fn out_of(&self, x: NodeId) -> Seq<CustomIndex> {
        if self.live(x) {
            self.node_at(self.spec_cache()[x].0).out_edges@
        } else {
            Seq::empty()
        }
    }
}

/// Vertex `v` has an out-edge to `w`.
pub open spec fn arena_out_has<T>(g: Graph<T>, v: NodeId, w: NodeId) -> bool {
    ids(g.out_of(v)).contains(w)
}

/// Vertex `w` has an in-edge from `v`.
pub open spec fn arena_in_has<T>(g: Graph<T>, w: NodeId, v: NodeId) -> bool {
    ids(g.in_of(w)).contains(v)
}

/// The graph's edges among the vertices below `n` are those of
/// `edge_list`: out-edges, and in a directed graph in-edges too; an
/// undirected graph keeps no in-edges.
pub open spec fn arena_matches<T>(g: Graph<T>, edge_list: Seq<Edge>, n: nat, directed: bool) -> bool {
    &&& forall|v: NodeId, w: NodeId|
        v < n && w < n ==> (#[trigger] arena_out_has(g, v, w) <==> has_edge(edge_list, v, w, directed))
    &&& directed ==> forall|v: NodeId, w: NodeId|
        v < n && w < n ==> (#[trigger] arena_in_has(g, w, v) <==> has_edge(edge_list, v, w, true))
    &&& !directed ==> forall|x: NodeId| x < n ==> (#[trigger] g.in_of(x)).len() == 0
}

proof fn lemma_ids_insert(s0: Seq<CustomIndex>, s1: Seq<CustomIndex>, x: CustomIndex, w: NodeId)
    requires
        s1.to_set() == s0.to_set().insert(x),
    ensures
        ids(s1).contains(w) <==> (ids(s0).contains(w) || x.index.0 == w),
{
    if ids(s1).contains(w) {
        let j = choose|j: int| 0 <= j < ids(s1).len() && ids(s1)[j] == w;
        assert(s1.to_set().contains(s1[j]));
        if s1[j] != x {
            assert(s0.to_set().contains(s1[j]));
            let k = choose|k: int| 0 <= k < s0.len() && s0[k] == s1[j];
            assert(ids(s0)[k] == w);
        }
    }
    if ids(s0).contains(w) {
        let j = choose|j: int| 0 <= j < ids(s0).len() && ids(s0)[j] == w;
        assert(s1.to_set().contains(s0[j]));
        let k = choose|k: int| 0 <= k < s1.len() && s1[k] == s0[j];
        assert(ids(s1)[k] == w);
    }
    if x.index.0 == w {
        assert(s1.to_set().contains(x));
        let k = choose|k: int| 0 <= k < s1.len() && s1[k] == x;
        assert(ids(s1)[k] == w);
    }
}

/// A graph with vertices `0 .. num_nodes`, stored in that order, and the
/// edges of `edge_list`.
fn build<T>(num_nodes: usize, edge_list: &EdgeList, directed: bool) -> (g: Graph<T>)
    requires
        crate::graph::edges_within(edge_list@, num_nodes as nat),
        edge_list@.len() < usize::MAX,
    ensures
        g.wf(),
        g.directed == directed,
        g.slots().dom().len() == num_nodes,
        slot_order(g.slots()) == Seq::new(num_nodes as nat, |i: int| i as NodeId),
        forall|v: NodeId| #[trigger] g.live(v) <==> v < num_nodes,
        forall|v: NodeId| v < num_nodes ==> g.spec_cache()[v] == (v, 0u64),
        forall|k: usize, x: CustomIndex|
            g.node_map().contains_key(k) && #[trigger] g.node_map()[k].out_edges@.contains(x) ==> x.index.0 < num_nodes,
        forall|k: usize, x: CustomIndex|
            g.node_map().contains_key(k) && #[trigger] g.node_map()[k].in_edges@.contains(x) ==> x.index.0 < num_nodes,
        arena_matches(g, edge_list@, num_nodes as nat, directed),
        g.num_edges == edge_list@.len(),
{
    let mut graph: Graph<T> = Graph::new(directed);
    let mut v: usize = 0;
    while v < num_nodes
        invariant
            v <= num_nodes,
            graph.wf(),
            graph.directed == directed,
            graph.n_edges == 0,
            graph.num_edges == 0,
            graph.spec_generation() == 0,
            graph.spec_packed(),
            forall|i: (usize, u64)| #[trigger] graph.slots().contains_key(i) <==> (i.0 < v && i.1 == 0),
            forall|i: (usize, u64)| #[trigger] graph.slots().contains_key(i) ==> graph.slots()[i] == i.0,
            forall|x: usize| #[trigger] graph.spec_cache().contains_key(x) <==> x < v,
            forall|x: usize| x < v ==> #[trigger] graph.spec_cache()[x] == (x, 0u64),
            graph.slots().dom().len() == v,
            graph.node_map().dom() == Set::new(|k: usize| k < v),
            forall|k: usize| k < v ==> (#[trigger] graph.node_map()[k]).out_edges@.len() == 0 && graph.node_map()[k].in_edges@.len() == 0,
        decreases num_nodes - v,
    {
        let ghost g0 = graph;
        let index = graph.add_vertex(v, None);
        proof {
            assert(index.1 == 0);
            if index.0 < v {
                assert(g0.slots().contains_key((index.0, 0u64)));
            }
            if index.0 > v {
                assert(g0.slots().contains_key((v, 0u64)) <==> (v < index.0 && 0u64 == 0));
            }
            assert(index.0 == v);
            assert(graph.slots().dom() == g0.slots().dom().insert(index));
            assert forall|k: usize| k < v implies graph.node_map()[k] == g0.node_map()[k] by {
                assert(g0.slots().contains_key((k, 0u64)));
            }
            assert(graph.node_map().dom() =~= Set::new(|k: usize| k < v + 1)) by {
                assert forall|k: usize| graph.node_map().contains_key(k) <==> k < v + 1 by {
                    if k < v {
                        assert(g0.slots().contains_key((k, 0u64)));
                    }
                }
            }
        }
        v = v + 1;
    }
    proof {
        let e0 = edge_list@.subrange(0, 0);
        assert(e0.len() == 0);
        assert forall|x: NodeId, y: NodeId| x < num_nodes && y < num_nodes implies !#[trigger] arena_out_has(graph, x, y)
            && !has_edge(e0, x, y, directed) by {
            assert(graph.slots().contains_key((x, 0u64)));
            assert(graph.node_map()[x].out_edges@.len() == 0);
        }
        assert forall|x: NodeId, y: NodeId| x < num_nodes && y < num_nodes implies !#[trigger] arena_in_has(graph, y, x)
            && !has_edge(e0, x, y, true) by {
            assert(graph.slots().contains_key((y, 0u64)));
            assert(graph.node_map()[y].in_edges@.len() == 0);
        }
        assert forall|x: NodeId| x < num_nodes implies (#[trigger] graph.in_of(x)).len() == 0 by {
            assert(graph.slots().contains_key((x, 0u64)));
            assert(graph.node_map()[x].in_edges@.len() == 0);
        }
    }
    let mut i: usize = 0;
    while i < edge_list.len()
        invariant
            i <= edge_list@.len() < usize::MAX,
            crate::graph::edges_within(edge_list@, num_nodes as nat),
            graph.wf(),
            graph.directed == directed,
            graph.n_edges <= i,
            graph.num_edges == i,
            graph.spec_generation() == 0,
            forall|i: (usize, u64)| #[trigger] graph.slots().contains_key(i) <==> (i.0 < num_nodes && i.1 == 0),
            forall|x: usize| #[trigger] graph.spec_cache().contains_key(x) <==> x < num_nodes,
            forall|x: usize| x < num_nodes ==> #[trigger] graph.spec_cache()[x] == (x, 0u64),
            graph.slots().dom().len() == num_nodes,
            forall|k: usize, x: CustomIndex|
                graph.node_map().contains_key(k) && #[trigger] graph.node_map()[k].out_edges@.contains(x) ==> x.index.0 < num_nodes,
            forall|k: usize, x: CustomIndex|
                graph.node_map().contains_key(k) && #[trigger] graph.node_map()[k].in_edges@.contains(x) ==> x.index.0 < num_nodes,
            arena_matches(graph, edge_list@.subrange(0, i as int), num_nodes as nat, directed),
        decreases edge_list@.len() - i,
    {
        let (a, b, w) = edge_list[i];
        proof {
            assert(edge_list@[i as int].0 < num_nodes && edge_list@[i as int].1 < num_nodes);
        }
        let ghost graph_before = graph;
        graph.num_edges = graph.num_edges + 1;
        proof {
            assert(graph.node_map() == graph_before.node_map());
            assert(graph.slots() == graph_before.slots());
            assert(graph.spec_cache() == graph_before.spec_cache());
            assert forall|v: NodeId, x: NodeId| v < num_nodes && x < num_nodes implies (#[trigger] arena_out_has(graph, v, x)
                <==> has_edge(edge_list@.subrange(0, i as int), v, x, directed)) by {
                assert(arena_out_has(graph, v, x) == arena_out_has(graph_before, v, x));
            }
            assert forall|v: NodeId, x: NodeId| directed && v < num_nodes && x < num_nodes implies (#[trigger] arena_in_has(graph, x, v)
                <==> has_edge(edge_list@.subrange(0, i as int), v, x, true)) by {
                assert(arena_in_has(graph, x, v) == arena_in_has(graph_before, x, v));
            }
            assert forall|x: NodeId| !directed && x < num_nodes implies (#[trigger] graph.in_of(x)).len() == 0 by {
                assert(graph.in_of(x) == graph_before.in_of(x));
            }
        }
        let ghost g0 = graph;
        graph.add_edge(a, b, &w, directed);
        proof {
            let n = num_nodes as nat;
            assert(g0.live(a) && g0.live(b));
            let to_b = CustomIndex { index: (b, 0u64), weight: w };
            let to_a = CustomIndex { index: (a, 0u64), weight: w };
            assert forall|v: NodeId, x: NodeId| v < n && x < n implies (#[trigger] arena_out_has(graph, v, x)
                <==> has_edge(edge_list@.subrange(0, i + 1), v, x, directed)) by {
                lemma_has_edge_push(edge_list@, i as int, v, x, directed);
                assert(arena_out_has(g0, v, x) <==> has_edge(edge_list@.subrange(0, i as int), v, x, directed));
                assert(g0.live(v) && graph.live(v));
                assert(g0.slots().contains_key((v, 0u64)));
                if v == a {
                    lemma_ids_insert(g0.out_of(a), graph.out_of(a), to_b, x);
                } else if !directed && v == b {
                    lemma_ids_insert(g0.out_of(b), graph.out_of(b), to_a, x);
                } else {
                    assert(graph.out_of(v) == g0.out_of(v));
                }
            }
            if directed {
                assert forall|v: NodeId, x: NodeId| v < n && x < n implies (#[trigger] arena_in_has(graph, x, v)
                    <==> has_edge(edge_list@.subrange(0, i + 1), v, x, true)) by {
                    lemma_has_edge_push(edge_list@, i as int, v, x, true);
                    assert(arena_in_has(g0, x, v) <==> has_edge(edge_list@.subrange(0, i as int), v, x, true));
                    assert(g0.live(x) && graph.live(x));
                    assert(g0.slots().contains_key((x, 0u64)));
                    if x == b {
                        lemma_ids_insert(g0.in_of(b), graph.in_of(b), to_a, v);
                    } else {
                        assert(graph.in_of(x) == g0.in_of(x));
                    }
                }
            } else {
                assert forall|x: NodeId| x < n implies (#[trigger] graph.in_of(x)).len() == 0 by {
                    assert(g0.live(x) && graph.live(x));
                    assert(g0.slots().contains_key((x, 0u64)));
                    assert(graph.in_of(x) == g0.in_of(x));
                }
            }
            assert forall|k: usize, x: CustomIndex|
                graph.node_map().contains_key(k) && #[trigger] graph.node_map()[k].out_edges@.contains(x) implies x.index.0 < num_nodes by {
                if g0.node_map()[k].out_edges@.contains(x) {
                    assert(g0.node_map().contains_key(k));
                }
            }
            assert forall|k: usize, x: CustomIndex|
                graph.node_map().contains_key(k) && #[trigger] graph.node_map()[k].in_edges@.contains(x) implies x.index.0 < num_nodes by {
                if g0.node_map()[k].in_edges@.contains(x) {
                    assert(g0.node_map().contains_key(k));
                }
            }
        }
        i = i + 1;
    }
    proof {
        assert(edge_list@.subrange(0, edge_list@.len() as int) =~= edge_list@);
        let s = Seq::new(num_nodes as nat, |i: int| i as NodeId);
        assert forall|x: NodeId| s.to_set().contains(x) <==> slot_set(graph.slots()).contains(x) by {
            if x < num_nodes {
                assert(s[x as int] == x);
                assert(graph.slots().contains_key((x, 0u64)));
            }
        }
        assert(s.to_set() =~= slot_set(graph.slots()));
        lemma_slot_order(graph.slots(), s);
        assert forall|v: NodeId| #[trigger] graph.live(v) <==> v < num_nodes by {
            if v < num_nodes {
                assert(graph.slots().contains_key((v, 0u64)));
            }
        }
    }
    graph
}


/// `b` is `a` after at most one insertion of a new element or one removal.
pub open spec fn one_step(a: ArenaSlots, b: ArenaSlots) -> bool {
    ||| b == a
    ||| exists|i: (usize, u64), x: usize| !a.contains_key(i) && b == a.insert(i, x)
    ||| exists|i: (usize, u64)| a.contains_key(i) && b == a.remove(i)
}

impl<T> Graph<T> {
    pub proof fn lemma_wf(&self)
        requires
            self.wf(),
        ensures
            self.spec_wf(),
    {
    }

    /// What the graph interface reports, read off the arena, the cache and
    /// the vertex nodes.
    pub proof fn lemma_interface(&self)
        ensures
            self.spec_wf() == self.wf(),
            self.spec_directed() == self.spec_is_directed(),
            self.spec_num_nodes() == self.slots().dom().len(),
            self.spec_vertices() == slot_order(self.slots()),
            self.spec_num_edges() == self.spec_n_edges(),
            forall|v: NodeId| #[trigger] self.spec_has_vertex(v) == self.live(v),
            forall|v: NodeId| #[trigger] self.spec_out(v) == ids(self.out_of(v)),
            forall|v: NodeId| #[trigger] self.spec_in(v) == ids(self.in_of(v)),
            forall|v: NodeId| #[trigger] self.spec_out_edges(v) == self.out_of(v),
            forall|v: NodeId|
                #[trigger] self.live(v) ==> self.out_of(v) == self.node_at(self.spec_cache()[v].0).out_edges@
                    && self.in_of(v) == self.node_at(self.spec_cache()[v].0).in_edges@,
    {
    }

    /// One insertion or removal changes the number of vertices by at most one.
    pub proof fn lemma_num_nodes_step(&self, before: Self)
        requires
            before.wf(),
            self.wf(),
            one_step(before.slots(), self.slots()),
        ensures
            before.spec_num_nodes() - 1 <= self.spec_num_nodes() <= before.spec_num_nodes() + 1,
    {
        let a = before.slots();
        let b = self.slots();
        if b != a {
            if exists|i: (usize, u64), x: usize| !a.contains_key(i) && b == a.insert(i, x) {
                let (i, x) = choose|i: (usize, u64), x: usize| !a.contains_key(i) && b == a.insert(i, x);
                assert(b.dom() =~= a.dom().insert(i));
            } else {
                let i = choose|i: (usize, u64)| a.contains_key(i) && b == a.remove(i);
                assert(b.dom() =~= a.dom().remove(i));
            }
        }
    }
}

} // verus!
