//! A queue whose readers see a window of it that is moved forward in steps.
//!
//! Writers append with `push_back`; `slide_window` makes everything pushed
//! since the previous slide the new window. `reset` rewinds the three
//! cursors but keeps the stored items, so a window taken after a reset
//! reads the items at the front of the storage.

use vstd::prelude::*;

verus! {

pub struct SlidingQueue<T> {
    inner: Vec<T>,
    shared_in: usize,
    shared_out_start: usize,
    shared_out_end: usize,
}

/// `x` wrapped around into the range of `usize`.
pub open spec fn wrapped(x: nat) -> nat {
    x % (usize::MAX as nat + 1)
}

/// Counting one further after wrapping is wrapping the larger count.
pub proof fn lemma_wrapped_step(a: nat)
    ensures
        wrapped(wrapped(a) + 1) == wrapped(a + 1),
        wrapped(a) <= usize::MAX,
{
    let m = usize::MAX as int + 1;
    vstd::arithmetic::div_mod::lemma_add_mod_noop(a as int, 1, m);
    vstd::arithmetic::div_mod::lemma_small_mod(1, m as nat);
    vstd::arithmetic::div_mod::lemma_mod_pos_bound(a as int, m);
    vstd::arithmetic::div_mod::lemma_mod_pos_bound((a + 1) as int, m);
    vstd::arithmetic::div_mod::lemma_mod_pos_bound((wrapped(a) + 1) as int, m);
}

/// The items that a reader of the queue sees: from `start` on, at most
/// `end` of them (the window's end cursor is used as a count).
pub open spec fn window_of<T>(items: Seq<T>, start: int, end: int) -> Seq<T> {
    if start >= items.len() {
        Seq::empty()
    } else if start + end >= items.len() {
        items.subrange(start, items.len() as int)
    } else {
        items.subrange(start, start + end)
    }
}

impl<T> SlidingQueue<T> {
    /// Every item ever pushed, in order (a reset does not drop them).
    pub closed spec fn items(&self) -> Seq<T> {
        self.inner@
    }

    /// Number of pushes since the last reset.
    pub closed spec fn pushed(&self) -> nat {
        self.shared_in as nat
    }

    pub closed spec fn out_start(&self) -> nat {
        self.shared_out_start as nat
    }

    pub closed spec fn out_end(&self) -> nat {
        self.shared_out_end as nat
    }

    /// The queue holds at most `usize::MAX` items.
    pub proof fn lemma_items_bound(&self)
        ensures
            self.items().len() <= usize::MAX,
    {
        assert(self.inner.len() == self.inner@.len());
    }

    pub proof fn lemma_cursor_bounds(&self)
        ensures
            self.pushed() <= usize::MAX,
            self.out_start() <= usize::MAX,
            self.out_end() <= usize::MAX,
    {
    }

    /// The push counter counts every stored item and the window ends at or
    /// before the last of them: what holds from `new` on as long as the
    /// queue is not reset. Then the items pushed since the last slide are
    /// those after `out_end()`.
    pub open spec fn tracks_pushes(&self) -> bool {
        &&& self.pushed() == self.items().len()
        &&& self.out_end() <= self.items().len()
    }

    /// The items pushed since the window last moved (all of them when it
    /// never has), for a queue that `tracks_pushes`.
    pub open spec fn since_slide(&self) -> Seq<T> {
        self.items().subrange(self.out_end() as int, self.items().len() as int)
    }

    /// What a reader iterating over the queue sees.
    pub open spec fn window(&self) -> Seq<T> {
        window_of(self.items(), self.out_start() as int, self.out_end() as int)
    }

    pub fn new() -> (q: Self)
        ensures
            q.tracks_pushes(),
            q.items() == Seq::<T>::empty(),
            q.pushed() == 0,
            q.out_start() == 0,
            q.out_end() == 0,
    {
        SlidingQueue { inner: Vec::new(), shared_in: 0, shared_out_start: 0, shared_out_end: 0 }
    }

    /// As `new`; the hint only reserves storage.
    pub fn with_capacity(size_hint: usize) -> (q: Self)
        ensures
            q.tracks_pushes(),
            q.items() == Seq::<T>::empty(),
            q.pushed() == 0,
            q.out_start() == 0,
            q.out_end() == 0,
    {
        SlidingQueue {
            inner: Vec::with_capacity(size_hint),
            shared_in: 0,
            shared_out_start: 0,
            shared_out_end: 0,
        }
    }

    /// Appends `entry`. The push counter wraps around past `usize::MAX`.
    pub fn push_back(&mut self, entry: T)
        ensures
            final(self).items() == old(self).items().push(entry),
            final(self).pushed() == wrapped(old(self).pushed() + 1),
            final(self).out_start() == old(self).out_start(),
            final(self).out_end() == old(self).out_end(),
            old(self).tracks_pushes() ==> final(self).tracks_pushes(),
            old(self).tracks_pushes() ==> final(self).since_slide() == old(self).since_slide().push(entry),
    {
        proof {
            let m = usize::MAX as int + 1;
            if self.shared_in == usize::MAX {
                vstd::arithmetic::div_mod::lemma_mod_self_0(m);
            } else {
                vstd::arithmetic::div_mod::lemma_small_mod((self.shared_in + 1) as nat, m as nat);
            }
        }
        self.shared_in = if self.shared_in == usize::MAX {
            0
        } else {
            self.shared_in + 1
        };
        self.inner.push(entry);
        proof {
            self.lemma_items_bound();
        }
    }

    /// The end cursor of the current window.
    pub fn size(&self) -> (n: usize)
        ensures
            n == self.out_end(),
    {
        self.shared_out_end
    }

    pub fn empty(&self) -> (b: bool)
        ensures
            b == (self.out_start() == self.out_end()),
    {
        self.shared_out_start == self.shared_out_end
    }

    pub fn reset(&mut self)
        ensures
            final(self).items() == old(self).items(),
            final(self).pushed() == 0,
            final(self).out_start() == 0,
            final(self).out_end() == 0,
    {
        self.shared_out_start = 0;
        self.shared_out_end = 0;
        self.shared_in = 0;
    }

    pub fn slide_window(&mut self)
        ensures
            final(self).items() == old(self).items(),
            final(self).pushed() == old(self).pushed(),
            final(self).out_start() == old(self).out_end(),
            final(self).out_end() == old(self).pushed(),
            old(self).tracks_pushes() ==> final(self).tracks_pushes(),
            old(self).tracks_pushes() ==> final(self).since_slide() == Seq::<T>::empty(),
            old(self).tracks_pushes() ==> final(self).window() == old(self).since_slide(),
            old(self).tracks_pushes() ==> (final(self).out_start() == final(self).out_end()
                <==> old(self).since_slide().len() == 0),
    {
        self.shared_out_start = self.shared_out_end;
        self.shared_out_end = self.shared_in;
    }
}

impl<T: Copy> SlidingQueue<T> {
    /// The items a reader sees, as a vector (iterating over the queue).
    pub fn window_items(&self) -> (v: Vec<T>)
        ensures
            v@ == self.window(),
    {
        let len = self.inner.len();
        let start = self.shared_out_start;
        let mut v: Vec<T> = Vec::new();
        if start >= len {
            return v;
        }
        let stop: usize = if self.shared_out_end >= len - start {
            len
        } else {
            start + self.shared_out_end
        };
        let mut i: usize = start;
        while i < stop
            invariant
                start <= i <= stop <= len,
                len == self.inner@.len(),
                v@ == self.inner@.subrange(start as int, i as int),
            decreases stop - i,
        {
            v.push(self.inner[i]);
            assert(self.inner@.subrange(start as int, i + 1) == self.inner@.subrange(
                start as int,
                i as int,
            ).push(self.inner@[i as int]));
            i = i + 1;
        }
        v
    }
}

} // verus!
