//! The monotonic clock, with a record of what was read from it.

use crate::time::{Duration, MAX_NANOS};
use std::time::Instant;
use vstd::prelude::*;

verus! {

/// `std::time::Instant`, a reading of the monotonic clock.
#[verifier::external_type_specification]
#[verifier::external_body]
pub struct ExInstant(std::time::Instant);

/// Calls `std::time::Instant::elapsed`. Trusted: the time that has passed is a span of the system
/// clock, so it is representable. How long it is depends on when the call is made.
#[verifier::external_body]
fn instant_elapsed_nanos(since: &Instant) -> (r: u128)
    ensures
        r <= MAX_NANOS,
{
    since.elapsed().as_nanos()
}

/// Calls `std::time::Instant::now`. Nothing is claimed of the reading: it depends on when the call
/// is made.
#[verifier::external_body]
fn now() -> (r: Instant) {
    Instant::now()
}

/// `moment` is a reading of the clock.
pub closed spec fn read_as_now(moment: Instant) -> bool {
    call_ensures(now, (), moment)
}

/// Reads the clock.
pub(crate) fn read_now() -> (r: Instant)
    ensures
        read_as_now(r),
{
    let read = now;
    read()
}

/// The clock, when asked, said that `elapsed` has passed since `since`.
pub closed spec fn told_elapsed(since: Instant, elapsed: Duration) -> bool {
    call_ensures(instant_elapsed_nanos, (&since,), elapsed.nanos)
}

/// The time that has passed since a reading of the clock.
pub fn elapsed_since(since: &Instant) -> (r: Duration)
    ensures
        told_elapsed(*since, r),
        r.representable(),
{
    let read = instant_elapsed_nanos;
    Duration { nanos: read(since) }
}

/// Calls `std::time::Instant::checked_duration_since`. Trusted: a span between two readings of the
/// clock is representable. Whether `since` lies after `moment`, and how far they lie apart, depends
/// on when the clock was read.
#[verifier::external_body]
fn instant_nanos_since(moment: &Instant, since: &Instant) -> (r: Option<u128>)
    ensures
        r is Some ==> r->0 <= MAX_NANOS,
{
    match moment.checked_duration_since(*since) {
        Some(span) => Some(span.as_nanos()),
        None => None,
    }
}

/// At some reading of the clock, `passed` lay between `since` and that reading; it is none where
/// `since` lay ahead of it.
pub closed spec fn told_passed(since: Instant, passed: Option<Duration>) -> bool {
    exists|moment: Instant|
        {
            &&& #[trigger] read_as_now(moment)
            &&& call_ensures(
                instant_nanos_since,
                (&moment, &since),
                match passed {
                    Some(passed) => Some(passed.nanos),
                    None => None,
                },
            )
        }
}

/// The time that has passed since a moment; none where the moment still lies ahead.
pub fn time_since(since: &Instant) -> (r: Option<Duration>)
    ensures
        told_passed(*since, r),
        r is Some ==> r->0.representable(),
{
    let moment = read_now();
    let span = instant_nanos_since;
    match span(&moment, since) {
        Some(nanos) => Some(Duration { nanos }),
        None => None,
    }
}

/// The clock, when asked in one way or the other, said that this much has passed since `since`.
pub open spec fn told(since: Instant, reading: Option<Duration>) -> bool {
    told_passed(since, reading) || (reading is Some && told_elapsed(since, reading->0))
}

/// The time that has passed since a moment, with a record, for contracts only, of every reading. A
/// reading is none where the moment still lay ahead.
pub struct Clock {
    since: Instant,
    readings: Ghost<Seq<Option<Duration>>>,
}

impl Clock {
    /// The moment from which time counts.
    pub closed spec fn since(self) -> Instant {
        self.since
    }

    /// Every reading on record is what the clock said.
    #[verifier::type_invariant]
    spec fn truthful(self) -> bool {
        forall|i: int|
            0 <= i < self.readings@.len() ==> told(self.since, #[trigger] self.readings@[i])
    }

    /// Every reading so far, in order.
    pub closed spec fn readings(self) -> Seq<Option<Duration>> {
        self.readings@
    }

    pub fn new(since: Instant) -> (r: Self)
        ensures
            r.since() == since,
            r.readings() == Seq::<Option<Duration>>::empty(),
    {
        Clock { since, readings: Ghost(Seq::empty()) }
    }

    /// The moment from which time counts.
    pub fn origin(&self) -> (r: Instant)
        ensures
            r == self.since(),
    {
        self.since
    }

    /// Reads the time that has passed; a moment that lies ahead counts as reached just now.
    pub fn elapsed(&mut self) -> (r: Duration)
        ensures
            told_elapsed(old(self).since(), r),
            r.representable(),
            final(self).since() == old(self).since(),
            final(self).readings() == old(self).readings().push(Some(r)),
    {
        proof {
            use_type_invariant(&*self);
        }
        let r = elapsed_since(&self.since);
        self.readings = Ghost(self.readings@.push(Some(r)));
        r
    }

    /// Reads the time that has passed; none where the moment still lies ahead.
    pub fn passed(&mut self) -> (r: Option<Duration>)
        ensures
            told_passed(old(self).since(), r),
            r is Some ==> r->0.representable(),
            final(self).since() == old(self).since(),
            final(self).readings() == old(self).readings().push(r),
    {
        proof {
            use_type_invariant(&*self);
        }
        let r = time_since(&self.since);
        self.readings = Ghost(self.readings@.push(r));
        r
    }
}

} // verus!
