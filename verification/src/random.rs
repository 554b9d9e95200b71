//! The random choices the suite makes, drawn from `rand`.

use rand::rngs::ThreadRng;
use rand::seq::SliceRandom;
use rand::Rng;
use vstd::prelude::*;

verus! {

/// `rand`'s thread-local generator, carried through as it is.
#[verifier::external_type_specification]
#[verifier::external_body]
pub struct ExThreadRng(ThreadRng);

/// `rand::thread_rng`: a handle to the thread's generator. Nothing is
/// claimed of it.
#[verifier::external_body]
pub(crate) fn thread_rng() -> ThreadRng {
    rand::thread_rng()
}

/// `Rng::gen_range(low, high)` on `usize`: a value drawn uniformly from
/// `low .. high`. `rand` panics when `low >= high`, so that is left out;
/// the value is claimed to lie in the range and nothing more.
#[verifier::external_body]
pub(crate) fn gen_range(rng: &mut ThreadRng, low: usize, high: usize) -> (r: usize)
    requires
        low < high,
    ensures
        low <= r < high,
{
    rng.gen_range(low, high)
}

/// `SliceRandom::shuffle` on a vector of ids: a permutation of it in
/// place. Claimed: the same elements, each as often as before.
#[verifier::external_body]
pub(crate) fn shuffle(v: &mut Vec<usize>, rng: &mut ThreadRng)
    ensures
        final(v)@.to_multiset() == old(v)@.to_multiset(),
{
    v.shuffle(rng)
}

/// A random generator that keeps a record of its draws: for each call of
/// `draw`, the range asked for and the value drawn, in order. The record
/// only grows through `draw`, so a contract that speaks of it ties a result
/// to the draws that were actually made and the ranges they were made from.
pub struct RecordedRng {
    inner: ThreadRng,
    record: Ghost<Seq<(usize, usize, usize)>>,
}

/// `d` is the record of the draws of some generator: `(low, high, value)`
/// for each draw, in order.
pub open spec fn drawn(d: Seq<(usize, usize, usize)>) -> bool {
    exists|r: RecordedRng| #[trigger] r.draws() == d
}

impl RecordedRng {
    /// The draws made so far: `(low, high, value)` for each, in order.
    pub closed spec fn draws(&self) -> Seq<(usize, usize, usize)> {
        self.record@
    }

    /// The thread's generator, with no draws yet.
    pub fn new() -> (r: RecordedRng)
        ensures
            r.draws() == Seq::<(usize, usize, usize)>::empty(),
    {
        RecordedRng { inner: thread_rng(), record: Ghost(Seq::empty()) }
    }

    /// A value drawn uniformly from `low .. high` (by `gen_range`), added
    /// to the record.
    pub fn draw(&mut self, low: usize, high: usize) -> (v: usize)
        requires
            low < high,
        ensures
            low <= v < high,
            final(self).draws() == old(self).draws().push((low, high, v)),
    {
        let v = gen_range(&mut self.inner, low, high);
        self.record = Ghost(self.record@.push((low, high, v)));
        v
    }
}

} // verus!
