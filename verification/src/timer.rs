//! A named stopwatch with a stack of labelled checkpoints.

use std::time::{Duration, SystemTime};
use vstd::prelude::*;

verus! {

#[verifier::external_type_specification]
#[verifier::external_body]
pub struct ExSystemTime(SystemTime);

/// `SystemTime::now`: the time of the call. Nothing is claimed of it.
#[verifier::external_body]
fn now() -> SystemTime {
    SystemTime::now()
}

/// `SystemTime::duration_since`: the time from `earlier` to `later`;
/// `None` where `later` reads earlier than `earlier` (the error case).
/// Nothing is claimed of the duration.
#[verifier::external_body]
fn duration_since(later: &SystemTime, earlier: &SystemTime) -> Option<Duration> {
    match later.duration_since(*earlier) {
        Ok(d) => Some(d),
        Err(_) => None,
    }
}

/// `Duration::as_millis`: the whole milliseconds of `d`. Nothing is
/// claimed of the number.
#[verifier::external_body]
fn as_millis(d: &Duration) -> u128 {
    d.as_millis()
}

/// Whole milliseconds from `since` to now, `None` where the clock reads
/// earlier than `since`.
fn millis_since(since: &SystemTime) -> Option<u128> {
    let now = now();
    match duration_since(&now, since) {
        Some(d) => Some(as_millis(&d)),
        None => None,
    }
}

pub struct ScopedTimer {
    name: String,
    start: SystemTime,
    stop: Vec<(String, SystemTime)>,
}

impl ScopedTimer {
    /// The timer's name.
    pub closed spec fn spec_name(&self) -> Seq<char> {
        self.name@
    }

    /// The time the timer was started.
    pub closed spec fn spec_start(&self) -> SystemTime {
        self.start
    }

    /// The times the open checkpoints were taken, oldest first.
    pub closed spec fn checkpoint_times(&self) -> Seq<SystemTime> {
        self.stop@.map_values(|c: (String, SystemTime)| c.1)
    }

    /// The labels of the open checkpoints, oldest first.
    pub closed spec fn labels(&self) -> Seq<Seq<char>> {
        self.stop@.map_values(|c: (String, SystemTime)| c.0@)
    }

    /// A timer named `name`, started now, with no checkpoint.
    pub fn new(name: &str) -> (t: Self)
        ensures
            t.spec_name() == name@,
            t.labels() == Seq::<Seq<char>>::empty(),
            t.checkpoint_times() == Seq::<SystemTime>::empty(),
    {
        let t = Self { name: String::from_str(name), start: now(), stop: Vec::new() };
        assert(t.labels() =~= Seq::<Seq<char>>::empty());
        assert(t.checkpoint_times() =~= Seq::<SystemTime>::empty());
        t
    }

    /// Opens a checkpoint labelled `name`, timed from now.
    pub fn checkpoint(&mut self, name: &str)
        ensures
            final(self).spec_name() == old(self).spec_name(),
            final(self).labels() == old(self).labels().push(name@),
            final(self).spec_start() == old(self).spec_start(),
            final(self).checkpoint_times().drop_last() == old(self).checkpoint_times(),
            final(self).checkpoint_times().len() == old(self).checkpoint_times().len() + 1,
    {
        let label = String::from_str(name);
        let t = now();
        self.stop.push((label, t));
        assert(self.labels() =~= old(self).labels().push(name@));
        assert(self.checkpoint_times() =~= old(self).checkpoint_times().push(t));
    }

    /// Closes the latest checkpoint: its label, and the milliseconds since
    /// it was opened (`None` where the clock went backwards). There must be
    /// an open checkpoint.
    pub fn elapsed_since_checkpoint(&mut self) -> (r: (String, Option<u128>))
        requires
            old(self).labels().len() > 0,
        ensures
            r.0@ == old(self).labels().last(),
            final(self).labels() == old(self).labels().drop_last(),
            final(self).spec_name() == old(self).spec_name(),
            final(self).spec_start() == old(self).spec_start(),
            final(self).checkpoint_times() == old(self).checkpoint_times().drop_last(),
    {
        let ghost before = self.labels();
        let ghost times = self.checkpoint_times();
        let checkpoint = self.stop.pop().unwrap();
        assert(self.labels() =~= before.drop_last());
        assert(self.checkpoint_times() =~= times.drop_last());
        let millis = millis_since(&checkpoint.1);
        (checkpoint.0, millis)
    }

    /// The milliseconds since the timer started (`None` where the clock went
    /// backwards).
    pub fn elapsed(&self) -> (r: Option<u128>) {
        millis_since(&self.start)
    }

    /// The timer's name.
    pub fn name(&self) -> (r: &str)
        ensures
            r@ == self.spec_name(),
    {
        self.name.as_str()
    }
}

} // verus!
