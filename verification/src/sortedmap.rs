//! A map from vertex ids to values, kept in a `BTreeMap`, so that walking
//! it visits the keys in increasing order.

use std::collections::BTreeMap;
use vstd::prelude::*;
use vstd::std_specs::btree::{increasing_seq, spec_keys_iter};
use vstd::std_specs::cmp::OrdSpec;
use vstd::std_specs::iter::IteratorSpec;

verus! {

broadcast use {vstd::std_specs::btree::group_btree_axioms, vstd::laws_cmp::group_laws_cmp};

pub struct SortedMap<V> {
    map: BTreeMap<usize, V>,
}

pub open spec fn strictly_sorted(s: Seq<usize>) -> bool {
    forall|i: int, j: int| 0 <= i < j < s.len() ==> s[i] < s[j]
}

/// The members of `s` below `b`, in increasing order.
pub open spec fn ids_below(s: Set<usize>, b: nat) -> Seq<usize>
    decreases b,
{
    if b == 0 {
        Seq::empty()
    } else if s.contains((b - 1) as usize) {
        ids_below(s, (b - 1) as nat).push((b - 1) as usize)
    } else {
        ids_below(s, (b - 1) as nat)
    }
}

proof fn lemma_ids_below(s: Set<usize>, b: nat)
    requires
        b <= usize::MAX + 1,
    ensures
        strictly_sorted(ids_below(s, b)),
        forall|i: int| 0 <= i < ids_below(s, b).len() ==> #[trigger] ids_below(s, b)[i] < b,
        ids_below(s, b).to_set() == Set::new(|x: usize| s.contains(x) && x < b),
    decreases b,
{
    if b > 0 {
        let b1 = (b - 1) as nat;
        lemma_ids_below(s, b1);
        let q = ids_below(s, b1);
        if s.contains(b1 as usize) {
            let r = q.push(b1 as usize);
            assert forall|i: int, j: int| 0 <= i < j < r.len() implies r[i] < r[j] by {
                if j < q.len() {
                    assert(r[i] == q[i] && r[j] == q[j]);
                } else {
                    assert(r[i] == q[i]);
                }
            }
            assert forall|i: int| 0 <= i < r.len() implies #[trigger] r[i] < b by {
                if i < q.len() {
                    assert(r[i] == q[i]);
                }
            }
            assert forall|x: usize| r.to_set().contains(x) == (s.contains(x) && x < b) by {
                if r.to_set().contains(x) {
                    let k = choose|k: int| 0 <= k < r.len() && r[k] == x;
                    if k < q.len() {
                        assert(q[k] == x);
                        assert(q.to_set().contains(x));
                    }
                }
                if s.contains(x) && x < b {
                    if x < b1 {
                        assert(q.to_set().contains(x));
                        let k = choose|k: int| 0 <= k < q.len() && q[k] == x;
                        assert(r[k] == x);
                    } else {
                        assert(r[q.len() as int] == x);
                    }
                }
            }
            assert(r.to_set() =~= Set::new(|x: usize| s.contains(x) && x < b));
        } else {
            assert forall|x: usize| q.to_set().contains(x) == (s.contains(x) && x < b) by {
                if s.contains(x) && x < b {
                    assert(x != b1);
                }
            }
            assert(q.to_set() =~= Set::new(|x: usize| s.contains(x) && x < b));
        }
    } else {
        assert(ids_below(s, b).to_set() =~= Set::new(|x: usize| s.contains(x) && x < b));
    }
}

/// A sequence that `BTreeMap` says is increasing, read as keys, is
/// strictly sorted.
proof fn lemma_increasing_generic<K: Ord>(q: Seq<K>)
    requires
        increasing_seq(q),
        vstd::laws_cmp::obeys_cmp::<K>(),
    ensures
        forall|i: int, j: int| #![trigger q[i], q[j]] 0 <= i < j < q.len() ==> q[i].cmp_spec(&q[j]) is Less,
{
}

proof fn lemma_increasing(q: Seq<&usize>)
    requires
        increasing_seq(q),
    ensures
        strictly_sorted(q.unref()),
{
    assert(vstd::laws_cmp::obeys_cmp::<usize>());
    assert(vstd::laws_cmp::obeys_cmp::<&usize>());
    lemma_increasing_generic(q);
    assert forall|i: int, j: int| 0 <= i < j < q.unref().len() implies q.unref()[i] < q.unref()[j] by {
        assert(q[i] == q[i]);
        assert(q[j] == q[j]);
    }
}

/// `usize` keys obey the ordering laws `BTreeMap`'s specification asks for.
proof fn lemma_usize_keys_ordered()
    ensures
        vstd::laws_cmp::obeys_cmp::<usize>(),
{
}

impl<V> SortedMap<V> {
    /// The keys, in increasing order.
    pub closed spec fn keys(&self) -> Seq<usize> {
        ids_below(self.map@.dom(), usize::MAX as nat + 1)
    }

    /// The values, in the order of their keys.
    pub closed spec fn vals(&self) -> Seq<V> {
        self.keys().map_values(|k: usize| self.map@[k])
    }

    pub closed spec fn wf(&self) -> bool {
        strictly_sorted(self.keys())
    }

    pub closed spec fn view(&self) -> Map<usize, V> {
        self.map@
    }

    /// The keys are sorted and are the domain of the map.
    proof fn lemma_keys(&self)
        ensures
            strictly_sorted(self.keys()),
            self.keys().to_set() == self.map@.dom(),
            self.keys().no_duplicates(),
            self.keys().len() == self.map@.dom().len(),
            self.wf(),
    {
        lemma_ids_below(self.map@.dom(), usize::MAX as nat + 1);
        assert(self.keys().to_set() =~= self.map@.dom());
        let k = self.keys();
        assert(k.no_duplicates()) by {
            assert forall|i: int, j: int| 0 <= i < k.len() && 0 <= j < k.len() && i != j implies k[i] != k[j] by {
                if i < j {
                    assert(k[i] < k[j]);
                } else {
                    assert(k[j] < k[i]);
                }
            }
        }
        k.unique_seq_to_set();
    }

    pub proof fn lemma_len(&self)
        ensures
            self.keys().len() == self.vals().len(),
    {
    }

    /// In a well-formed map the position of a key is unique.
    pub proof fn lemma_index_of(&self, i: int)
        requires
            self.wf(),
            0 <= i < self.keys().len(),
        ensures
            self.keys().contains(self.keys()[i]),
            self.keys().index_of(self.keys()[i]) == i,
            self@.contains_key(self.keys()[i]),
            self@[self.keys()[i]] == self.vals()[i],
    {
        self.lemma_keys();
        let k = self.keys()[i];
        assert(self.keys()[i] == k);
        let j = self.keys().index_of(k);
        assert(0 <= j < self.keys().len() && self.keys()[j] == k);
        if j < i {
            assert(self.keys()[j] < self.keys()[i]);
        }
        if j > i {
            assert(self.keys()[i] < self.keys()[j]);
        }
        assert(self.keys().to_set().contains(k));
    }

    pub proof fn lemma_sorted(&self)
        requires
            self.wf(),
        ensures
            strictly_sorted(self.keys()),
    {
    }

    /// The domain of the map is the set of its keys.
    pub proof fn lemma_dom(&self)
        ensures
            self@.dom() == self.keys().to_set(),
    {
        self.lemma_keys();
    }

    pub fn new() -> (m: Self)
        ensures
            m.wf(),
            m.keys() == Seq::<usize>::empty(),
            m@ == Map::<usize, V>::empty(),
    {
        let m = SortedMap { map: BTreeMap::new() };
        proof {
            m.lemma_keys();
            if m.keys().len() > 0 {
                assert(m.keys().to_set().contains(m.keys()[0]));
            }
            assert(m.keys() =~= Seq::<usize>::empty());
        }
        m
    }

    pub fn len(&self) -> (n: usize)
        ensures
            n == self.keys().len(),
    {
        proof {
            self.lemma_keys();
            lemma_usize_keys_ordered();
        }
        self.map.len()
    }

    /// The keys as a vector, in increasing order.
    pub fn keys_vec(&self) -> (r: Vec<usize>)
        ensures
            r@ == self.keys(),
    {
        proof {
            lemma_usize_keys_ordered();
        }
        let mut r: Vec<usize> = Vec::new();
        for k in it: self.map.keys()
            invariant
                r@ == it.seq().take(it.index() as int).unref(),
                it.seq() == spec_keys_iter(&self.map).remaining(),
        {
            r.push(*k);
            assert(r@ =~= it.seq().take(it.index() + 1).unref());
        }
        proof {
            let q = spec_keys_iter(&self.map).remaining();
            assert(r@ =~= q.unref());
            assert(increasing_seq(q));
            lemma_increasing(q);
            self.lemma_keys();
            lemma_sorted_unique(r@, self.keys());
        }
        r
    }

    pub fn key_at(&self, i: usize) -> (k: usize)
        requires
            i < self.keys().len(),
        ensures
            k == self.keys()[i as int],
    {
        let ks = self.keys_vec();
        ks[i]
    }

    pub fn value_at(&self, i: usize) -> (v: &V)
        requires
            i < self.keys().len(),
        ensures
            *v == self.vals()[i as int],
    {
        let k = self.key_at(i);
        proof {
            self.lemma_keys();
            assert(self.keys().to_set().contains(k));
            lemma_usize_keys_ordered();
        }
        self.map.get(&k).unwrap()
    }

    /// Position of `k`: `Ok` where it stands, or `Err` where it would go.
    pub fn find(&self, k: usize) -> (r: Result<usize, usize>)
        requires
            self.wf(),
        ensures
            match r {
                Ok(i) => i < self.keys().len() && self.keys()[i as int] == k,
                Err(i) => i <= self.keys().len() && !self.keys().contains(k) && (forall|j: int|
                    0 <= j < i ==> self.keys()[j] < k) && (forall|j: int|
                    i <= j < self.keys().len() ==> self.keys()[j] > k),
            },
    {
        let ks = self.keys_vec();
        let n = ks.len();
        let mut i: usize = 0;
        while i < n
            invariant
                i <= n == self.keys().len(),
                ks@ == self.keys(),
                self.wf(),
                forall|j: int| 0 <= j < i ==> self.keys()[j] < k,
            decreases n - i,
        {
            let ki = ks[i];
            if ki == k {
                return Ok(i);
            }
            if ki > k {
                assert forall|j: int| i <= j < n implies self.keys()[j] > k by {
                    if j > i {
                        assert(self.keys()[i as int] < self.keys()[j]);
                    }
                }
                return Err(i);
            }
            i = i + 1;
        }
        Err(i)
    }

    pub fn contains_key(&self, k: usize) -> (b: bool)
        requires
            self.wf(),
        ensures
            b == self@.contains_key(k),
    {
        proof {
            lemma_usize_keys_ordered();
        }
        self.map.contains_key(&k)
    }

    pub fn get(&self, k: usize) -> (r: Option<&V>)
        requires
            self.wf(),
        ensures
            match r {
                Some(v) => self@.contains_key(k) && *v == self@[k],
                None => !self@.contains_key(k),
            },
    {
        proof {
            lemma_usize_keys_ordered();
        }
        self.map.get(&k)
    }

    /// Adds `k -> v` when `k` is absent; returns whether it was added.
    pub fn insert_if_absent(&mut self, k: usize, v: V) -> (added: bool)
        requires
            old(self).wf(),
        ensures
            final(self).wf(),
            added == !old(self)@.contains_key(k),
            added ==> final(self)@ == old(self)@.insert(k, v),
            added ==> final(self).keys().to_set() == old(self).keys().to_set().insert(k),
            !added ==> *final(self) == *old(self),
    {
        proof {
            lemma_usize_keys_ordered();
        }
        if self.map.contains_key(&k) {
            false
        } else {
            let _ = self.map.insert(k, v);
            proof {
                self.lemma_keys();
                old(self).lemma_keys();
                assert(self.map@.dom() =~= old(self).map@.dom().insert(k));
            }
            true
        }
    }

    /// Sets `k -> v`; returns whether `k` was absent before.
    pub fn insert(&mut self, k: usize, v: V) -> (added: bool)
        requires
            old(self).wf(),
        ensures
            final(self).wf(),
            added == !old(self)@.contains_key(k),
            final(self)@ == old(self)@.insert(k, v),
            final(self).keys().to_set() == old(self).keys().to_set().insert(k),
            (forall|j: int| 0 <= j < old(self).keys().len() ==> old(self).keys()[j] < k)
                ==> final(self).keys() == old(self).keys().push(k),
    {
        proof {
            lemma_usize_keys_ordered();
        }
        let r = self.map.insert(k, v);
        proof {
            self.lemma_keys();
            old(self).lemma_keys();
            assert(self.map@.dom() =~= old(self).map@.dom().insert(k));
            let ok = old(self).keys();
            if forall|j: int| 0 <= j < ok.len() ==> ok[j] < k {
                let pk = ok.push(k);
                assert forall|i: int, j: int| 0 <= i < j < pk.len() implies pk[i] < pk[j] by {
                    if j < ok.len() {
                        assert(pk[i] == ok[i] && pk[j] == ok[j]);
                    } else {
                        assert(pk[i] == ok[i]);
                    }
                }
                assert forall|x: usize| pk.to_set().contains(x) == ok.to_set().insert(k).contains(x) by {
                    if pk.to_set().contains(x) {
                        let m = choose|m: int| 0 <= m < pk.len() && pk[m] == x;
                        if m < ok.len() {
                            assert(ok[m] == x);
                            assert(ok.to_set().contains(x));
                        }
                    }
                    if ok.to_set().contains(x) {
                        let m = choose|m: int| 0 <= m < ok.len() && ok[m] == x;
                        assert(pk[m] == x);
                    }
                    if x == k {
                        assert(pk[ok.len() as int] == x);
                    }
                }
                assert(pk.to_set() =~= ok.to_set().insert(k));
                lemma_sorted_unique(pk, self.keys());
            }
        }
        r.is_none()
    }

    /// Puts `v` in place of the value of `k`, when `k` is present, and
    /// hands back the value it replaced; the keys stay as they are.
    pub fn replace(&mut self, k: usize, v: V) -> (r: Option<V>)
        requires
            old(self).wf(),
        ensures
            final(self).wf(),
            final(self).keys() == old(self).keys(),
            match r {
                Some(w) => old(self)@.contains_key(k) && w == old(self)@[k] && final(self)@
                    == old(self)@.insert(k, v),
                None => !old(self)@.contains_key(k) && *final(self) == *old(self),
            },
    {
        proof {
            lemma_usize_keys_ordered();
        }
        if self.map.contains_key(&k) {
            let r = self.map.insert(k, v);
            proof {
                assert(self.map@.dom() =~= old(self).map@.dom());
                self.lemma_keys();
            }
            r
        } else {
            None
        }
    }

    /// Removes `k`, handing back its value.
    pub fn remove(&mut self, k: usize) -> (r: Option<V>)
        requires
            old(self).wf(),
        ensures
            final(self).wf(),
            final(self)@ == old(self)@.remove(k),
            final(self).keys().to_set() == old(self).keys().to_set().remove(k),
            match r {
                Some(v) => old(self)@.contains_key(k) && v == old(self)@[k],
                None => !old(self)@.contains_key(k) && *final(self) == *old(self),
            },
    {
        proof {
            lemma_usize_keys_ordered();
            old(self).lemma_keys();
        }
        if self.map.contains_key(&k) {
            let r = self.map.remove(&k);
            proof {
                self.lemma_keys();
                assert(self.map@.dom() =~= old(self).map@.dom().remove(k));
            }
            r
        } else {
            proof {
                assert(self@ =~= self@.remove(k));
                assert(self.keys().to_set() =~= self.keys().to_set().remove(k));
            }
            None
        }
    }
}

} // verus!

verus! {

/// A strictly sorted sequence is determined by the set of its elements.
pub proof fn lemma_sorted_unique(a: Seq<usize>, b: Seq<usize>)
    requires
        strictly_sorted(a),
        strictly_sorted(b),
        a.to_set() == b.to_set(),
    ensures
        a == b,
    decreases a.len(),
{
    if a.len() == 0 {
        if b.len() > 0 {
            assert(b.to_set().contains(b[0]));
            assert(a.to_set().contains(b[0]));
        }
        assert(a =~= b);
    } else {
        assert(a.to_set().contains(a[0]));
        assert(b.to_set().contains(a[0]));
        let j = choose|j: int| 0 <= j < b.len() && b[j] == a[0];
        assert(b.to_set().contains(b[0]));
        assert(a.to_set().contains(b[0]));
        let i = choose|i: int| 0 <= i < a.len() && a[i] == b[0];
        if i > 0 {
            assert(a[0] < a[i]);
        }
        if j > 0 {
            assert(b[0] < b[j]);
        }
        assert(a[0] == b[0]);
        let a1 = a.drop_first();
        let b1 = b.drop_first();
        assert forall|x: usize| a1.to_set().contains(x) == b1.to_set().contains(x) by {
            if a1.to_set().contains(x) {
                let k = choose|k: int| 0 <= k < a1.len() && a1[k] == x;
                assert(a[k + 1] == x);
                assert(a[0] < a[k + 1]);
                assert(a.to_set().contains(x));
                assert(b.to_set().contains(x));
                let m = choose|m: int| 0 <= m < b.len() && b[m] == x;
                assert(m != 0);
                assert(b1[m - 1] == x);
            }
            if b1.to_set().contains(x) {
                let k = choose|k: int| 0 <= k < b1.len() && b1[k] == x;
                assert(b[k + 1] == x);
                assert(b[0] < b[k + 1]);
                assert(b.to_set().contains(x));
                assert(a.to_set().contains(x));
                let m = choose|m: int| 0 <= m < a.len() && a[m] == x;
                assert(m != 0);
                assert(a1[m - 1] == x);
            }
        }
        assert(a1.to_set() =~= b1.to_set());
        lemma_sorted_unique(a1, b1);
        assert forall|k: int| 0 <= k < a.len() implies a[k] == b[k] by {
            if k > 0 {
                assert(a[k] == a1[k - 1]);
                assert(b[k] == b1[k - 1]);
            }
        }
        assert(a =~= b);
    }
}

} // verus!
