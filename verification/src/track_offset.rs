//! Where a track starts on the time line of the queue.

use crate::shared_pts::{or_else, SharedPts};
use crate::time::{saturating_diff, Duration, MAX_NANOS};
use vstd::prelude::*;

verus! {

/// The start of a track, or a moment a fixed span after it. The start itself may not be known yet;
/// it is kept in a slot of the shared table, and everyone who holds the slot sees it settle.
#[derive(Debug, Clone, Copy, PartialEq, Eq, Structural)]
pub struct TrackOffset {
    slot: usize,
    extra: Duration,
}

impl TrackOffset {
    /// The slot that holds the start of the track.
    pub closed spec fn slot(self) -> int {
        self.slot as int
    }

    /// How long after the start of the track the moment lies.
    pub closed spec fn extra(self) -> Duration {
        self.extra
    }

    /// The slot is one of the table.
    pub open spec fn valid(self, slots: Seq<Option<Duration>>) -> bool {
        0 <= self.slot() < slots.len()
    }

    /// The moment, if the start is known.
    pub open spec fn value(self, slots: Seq<Option<Duration>>) -> Option<int> {
        match slots[self.slot()] {
            Some(base) => Some(base.nanos + self.extra().nanos),
            None => None,
        }
    }

    /// The start of a track that starts at `value`.
    pub fn new(value: Duration, shared: &mut SharedPts) -> (r: Self)
        ensures
            r.slot() == old(shared)@.len(),
            r.extra().nanos == 0,
            final(shared)@ == old(shared)@.push(Some(value)),
    {
        let slot: usize = shared.add_slot(Some(value));
        TrackOffset { slot, extra: Duration::zero() }
    }

    /// The start of a track that has not started yet.
    pub fn unsettled(shared: &mut SharedPts) -> (r: Self)
        ensures
            r.slot() == old(shared)@.len(),
            r.extra().nanos == 0,
            final(shared)@ == old(shared)@.push(None),
    {
        let slot: usize = shared.add_slot(None);
        TrackOffset { slot, extra: Duration::zero() }
    }

    /// The moment `duration` later.
    pub fn after(&self, duration: Duration) -> (r: Self)
        requires
            self.extra().nanos + duration.nanos <= MAX_NANOS,
        ensures
            r.slot() == self.slot(),
            r.extra().nanos == self.extra().nanos + duration.nanos,
    {
        TrackOffset { slot: self.slot, extra: self.extra.plus(duration) }
    }

    /// Whether the moment `duration` and `more` later can still be told.
    pub fn follows_within(&self, duration: Duration, more: Duration) -> (r: bool)
        ensures
            r == (self.extra().nanos + duration.nanos + more.nanos <= MAX_NANOS),
    {
        let extra: u128 = self.extra.nanos;
        extra <= MAX_NANOS && duration.nanos <= MAX_NANOS - extra && more.nanos <= MAX_NANOS - extra
            - duration.nanos
    }

    /// Whether the start of the track, if it is known, can be moved by `duration`.
    pub fn moves_within(&self, duration: Duration, shared: &SharedPts) -> (r: bool)
        requires
            self.valid(shared@),
        ensures
            r == (shared@[self.slot()] is Some ==> shared@[self.slot()]->0.nanos + duration.nanos
                <= MAX_NANOS),
    {
        match shared.get(self.slot) {
            Some(base) => base.nanos <= MAX_NANOS && duration.nanos <= MAX_NANOS - base.nanos,
            None => true,
        }
    }

    /// Whether the moment, if the start is known, can be told.
    pub fn can_be_told(&self, shared: &SharedPts) -> (r: bool)
        requires
            self.valid(shared@),
        ensures
            r == (self.value(shared@) is Some ==> self.value(shared@)->0 <= MAX_NANOS),
    {
        self.moves_within(self.extra, shared)
    }

    /// The moment, if the start is known.
    pub fn get(&self, shared: &SharedPts) -> (r: Option<Duration>)
        requires
            self.valid(shared@),
            self.value(shared@) is Some ==> self.value(shared@)->0 <= MAX_NANOS,
        ensures
            r is Some <==> self.value(shared@) is Some,
            r is Some ==> r->0.nanos == self.value(shared@)->0,
    {
        match shared.get(self.slot) {
            Some(base) => Some(base.plus(self.extra)),
            None => None,
        }
    }

    /// The moment. If the start is not known, it is settled so that the moment is `offset`, or so
    /// that the track starts at zero where `offset` lies before that.
    pub fn get_or_init(&self, offset: Duration, shared: &mut SharedPts) -> (r: Duration)
        requires
            self.valid(old(shared)@),
            old(shared)@[self.slot()] is Some ==> self.value(old(shared)@)->0 <= MAX_NANOS,
            offset.representable(),
            self.extra().representable(),
        ensures
            final(shared)@ == old(shared)@.update(
                self.slot(),
                Some(
                    or_else(
                        old(shared)@[self.slot()],
                        Duration {
                            nanos: saturating_diff(
                                offset.nanos as int,
                                self.extra().nanos as int,
                            ) as u128,
                        },
                    ),
                ),
            ),
            self.value(final(shared)@) == Some(r.nanos as int),
            old(shared)@[self.slot()] is None && offset.nanos >= self.extra().nanos ==> r == offset,
            old(shared)@[self.slot()] is None && offset.nanos < self.extra().nanos ==> r
                == self.extra(),
            old(shared)@[self.slot()] is Some ==> r.nanos == old(shared)@[self.slot()]->0.nanos
                + self.extra().nanos,
    {
        let base = shared.get_or_init(self.slot, offset.saturating_sub(self.extra));
        base.plus(self.extra)
    }

    /// Moves the start of the track, if it is known.
    pub fn map_add(&self, duration: Duration, shared: &mut SharedPts)
        requires
            self.valid(old(shared)@),
            old(shared)@[self.slot()] is Some ==> old(shared)@[self.slot()]->0.nanos
                + duration.nanos <= MAX_NANOS,
        ensures
            match old(shared)@[self.slot()] {
                Some(base) => final(shared)@ == old(shared)@.update(
                    self.slot(),
                    Some(Duration { nanos: (base.nanos + duration.nanos) as u128 }),
                ),
                None => final(shared)@ == old(shared)@,
            },
    {
        match shared.get(self.slot) {
            Some(base) => {
                shared.set(self.slot, base.plus(duration));
            },
            None => {},
        }
    }
}

/// A moment fixed relative to a track stays at the same distance from its start, whatever becomes
/// of the start.
pub proof fn lemma_after_keeps_distance(
    offset: TrackOffset,
    later: TrackOffset,
    duration: Duration,
    slots: Seq<Option<Duration>>,
)
    requires
        later.slot() == offset.slot(),
        later.extra().nanos == offset.extra().nanos + duration.nanos,
    ensures
        offset.value(slots) is Some <==> later.value(slots) is Some,
        offset.value(slots) is Some ==> later.value(slots)->0 == offset.value(slots)->0
            + duration.nanos,
{
}

/// Whoever settles the start of a track settles it for everyone: asked again, with whatever
/// proposal, it stays.
pub proof fn lemma_first_init_wins(
    one: TrackOffset,
    other: TrackOffset,
    slots: Seq<Option<Duration>>,
    proposal: Duration,
    counter: Duration,
)
    requires
        one.slot() == other.slot(),
        one.valid(slots),
    ensures
        ({
            let settled = slots.update(
                one.slot(),
                Some(or_else(slots[one.slot()], proposal)),
            );
            settled.update(other.slot(), Some(or_else(settled[other.slot()], counter))) == settled
        }),
{
    let settled = slots.update(one.slot(), Some(or_else(slots[one.slot()], proposal)));
    assert(settled.update(other.slot(), Some(or_else(settled[other.slot()], counter)))
        =~= settled);
}

} // verus!
