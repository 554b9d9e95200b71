//! Binary tree nodes as the GC benchmark builds them, and a forest that
//! keeps its nodes in a generational arena and links them by slot.

use generational_arena::{Arena, Index};
use vstd::prelude::*;

verus! {

/// A node of a binary tree that knows its two children.
pub trait TreeNode {
    type EdgeRepr;

    spec fn spec_left(&self) -> Option<Self::EdgeRepr>;

    spec fn spec_right(&self) -> Option<Self::EdgeRepr>;

    fn left(&self) -> (r: Option<Self::EdgeRepr>)
        ensures
            r == self.spec_left(),
    ;

    fn right(&self) -> (r: Option<Self::EdgeRepr>)
        ensures
            r == self.spec_right(),
    ;

    /// Makes `l` and `r` the two children.
    fn set_edges(&mut self, l: Self::EdgeRepr, r: Self::EdgeRepr)
        ensures
            final(self).spec_left() == Some(l),
            final(self).spec_right() == Some(r),
    ;
}

/// A node that names its children by their index in a `Forest`.
#[derive(Clone, Copy)]
pub struct Node {
    pub left: Option<usize>,
    pub right: Option<usize>,
}

impl Node {
    /// A node without children.
    pub fn new() -> (n: Node)
        ensures
            n.left is None,
            n.right is None,
    {
        Node { left: None, right: None }
    }
}

impl TreeNode for Node {
    type EdgeRepr = usize;

    open spec fn spec_left(&self) -> Option<usize> {
        self.left
    }

    open spec fn spec_right(&self) -> Option<usize> {
        self.right
    }

    fn left(&self) -> (r: Option<usize>) {
        self.left
    }

    fn right(&self) -> (r: Option<usize>) {
        self.right
    }

    fn set_edges(&mut self, l: usize, r: usize) {
        self.left = Some(l);
        self.right = Some(r);
    }
}

/// Tree nodes by arena index (slot and generation).
pub type ForestSlots = Map<(usize, u64), Node>;

/// What a generational arena of tree nodes holds, by index.
pub uninterp spec fn forest_contents(a: Arena<Node>) -> ForestSlots;

/// The arena of tree nodes is packed: its generation is 0, its elements
/// fill the slots below its length, and its free list runs through the
/// remaining slots in ascending order (as `Arena::with_capacity` and
/// `Arena::reserve` lay it out).
pub uninterp spec fn forest_packed(a: Arena<Node>) -> bool;

/// `Arena::new`: an empty, packed arena.
#[verifier::external_body]
fn forest_arena_new() -> (a: Arena<Node>)
    ensures
        forest_contents(a) == ForestSlots::empty(),
        forest_packed(a),
{
    Arena::new()
}

/// `Arena::insert`, its index taken apart by `Index::into_raw_parts`: the
/// node is stored under a slot that held nothing. A packed arena takes the
/// first slot past its elements in generation 0 and stays packed.
#[verifier::external_body]
fn forest_arena_insert(a: &mut Arena<Node>, v: Node) -> (i: (usize, u64))
    ensures
        forall|g: u64| !forest_contents(*old(a)).contains_key((i.0, g)),
        forest_contents(*final(a)) == forest_contents(*old(a)).insert(i, v),
        forest_packed(*old(a)) ==> forest_packed(*final(a)) && i.1 == 0 && forall|s: usize, g: u64|
            #[trigger] forest_contents(*old(a)).contains_key((s, g)) <==> (s < i.0 && g == 0),
{
    a.insert(v).into_raw_parts()
}

/// `Arena::get` at `Index::from_raw_parts(i.0, i.1)`, the node copied out.
#[verifier::external_body]
fn forest_arena_get(a: &Arena<Node>, i: (usize, u64)) -> (r: Option<Node>)
    ensures
        r == if forest_contents(*a).contains_key(i) {
            Some(forest_contents(*a)[i])
        } else {
            None::<Node>
        },
{
    match a.get(Index::from_raw_parts(i.0, i.1)) {
        Some(n) => Some(*n),
        None => None,
    }
}

/// `Arena::get_mut` at `Index::from_raw_parts(i.0, i.1)`, the node found
/// there overwritten with `v`; whether one was found. Nothing else of the
/// arena changes.
#[verifier::external_body]
fn forest_arena_set(a: &mut Arena<Node>, i: (usize, u64), v: Node) -> (found: bool)
    ensures
        found == forest_contents(*old(a)).contains_key(i),
        forest_contents(*final(a)) == if found {
            forest_contents(*old(a)).insert(i, v)
        } else {
            forest_contents(*old(a))
        },
        forest_packed(*old(a)) ==> forest_packed(*final(a)),
{
    match a.get_mut(Index::from_raw_parts(i.0, i.1)) {
        Some(n) => {
            *n = v;
            true
        },
        None => false,
    }
}

/// The nodes of any number of trees, kept in a generational arena and
/// named by their slot (all in generation 0, as nothing is ever removed).
pub struct Forest {
    arena: Arena<Node>,
    count: usize,
}

impl View for Forest {
    type V = Seq<Node>;

    closed spec fn view(&self) -> Seq<Node> {
        Seq::new(self.count as nat, |i: int| forest_contents(self.arena)[(i as usize, 0u64)])
    }
}

impl Forest {
    /// The arena is packed, and its elements are the slots below the count
    /// in generation 0.
    pub closed spec fn wf(&self) -> bool {
        &&& forest_packed(self.arena)
        &&& forall|s: usize, g: u64| #[trigger]
            forest_contents(self.arena).contains_key((s, g)) <==> (s < self.count && g == 0)
    }

    pub fn new() -> (f: Forest)
        ensures
            f.wf(),
            f@ == Seq::<Node>::empty(),
    {
        let f = Forest { arena: forest_arena_new(), count: 0 };
        assert(f@ =~= Seq::<Node>::empty());
        f
    }

    pub fn len(&self) -> (n: usize)
        ensures
            n == self@.len(),
    {
        self.count
    }

    /// Adds a node without children; returns its index.
    pub fn add_node(&mut self) -> (i: usize)
        requires
            old(self).wf(),
            old(self)@.len() < usize::MAX,
        ensures
            final(self).wf(),
            i == old(self)@.len(),
            final(self)@ == old(self)@.push(Node { left: None, right: None }),
    {
        let ghost c0 = forest_contents(self.arena);
        let idx = forest_arena_insert(&mut self.arena, Node::new());
        proof {
            if idx.0 < self.count {
                assert(c0.contains_key((idx.0, 0u64)));
            }
            if idx.0 > self.count {
                assert(c0.contains_key((self.count, 0u64)));
            }
        }
        let i = self.count;
        self.count = self.count + 1;
        proof {
            assert(idx == (i, 0u64));
            assert(self@ =~= old(self)@.push(Node { left: None, right: None }));
        }
        i
    }

    pub fn node(&self, i: usize) -> (n: Node)
        requires
            self.wf(),
            i < self@.len(),
        ensures
            n == self@[i as int],
    {
        let r = forest_arena_get(&self.arena, (i, 0));
        r.unwrap()
    }

    /// Makes `l` and `r` the children of node `i`.
    pub fn set_edges(&mut self, i: usize, l: usize, r: usize)
        requires
            old(self).wf(),
            i < old(self)@.len(),
        ensures
            final(self).wf(),
            final(self)@ == old(self)@.update(i as int, Node { left: Some(l), right: Some(r) }),
    {
        let mut n = self.node(i);
        n.set_edges(l, r);
        let _found = forest_arena_set(&mut self.arena, (i, 0), n);
        proof {
            assert(self@ =~= old(self)@.update(i as int, Node { left: Some(l), right: Some(r) }));
        }
    }
}

} // verus!
