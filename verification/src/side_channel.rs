//! Delivery of media to side-channel subscribers.
//!
//! Tracks of one input are decoded concurrently, but subscribers expect one stream in the order of
//! the tracks. Only the track at the head is forwarded as it arrives. Later tracks buffer their
//! items, and are flushed when all tracks before them are done.

use crate::channel::{EventSender, Handover, TrySendError};
use crate::frame::Frame;
use crate::time::{Duration, MAX_NANOS};
use crossbeam_channel::Sender;
use std::sync::Arc;
use vstd::prelude::*;

verus! {

/// A media item that can enter a track of the queue, with what happens to it on the way.
pub trait QueueItem: Sized {
    /// What is left of the item before `duration`.
    spec fn clipped(self, duration: Duration) -> Option<Self>;

    /// The item, `delay` later.
    spec fn shifted(self, delay: Duration) -> Self;

    /// The item still has a representable timestamp when it is moved by `delay`.
    spec fn can_shift(self, delay: Duration) -> bool;

    /// Another handle on the item.
    fn share(&self) -> (r: Self)
        ensures
            r == *self,
    ;

    /// Drops or truncates what lies at or past the end of the track.
    fn clip(self, duration: Duration) -> (r: Option<Self>)
        ensures
            r == self.clipped(duration),
    ;

    /// Whether the item still has a representable timestamp when it is moved by `delay`.
    fn shift_fits(&self, delay: Duration) -> (r: bool)
        ensures
            r == self.can_shift(delay),
    ;

    /// Moves the item by `delay`.
    fn shift_pts(&mut self, delay: Duration)
        requires
            old(self).can_shift(delay),
        ensures
            *final(self) == old(self).shifted(delay),
    ;
}

impl<D> QueueItem for Frame<D> {
    open spec fn clipped(self, duration: Duration) -> Option<Self> {
        if self.pts.nanos < duration.nanos {
            Some(self)
        } else {
            None
        }
    }

    open spec fn shifted(self, delay: Duration) -> Self {
        Frame { pts: Duration { nanos: (self.pts.nanos + delay.nanos) as u128 }, ..self }
    }

    open spec fn can_shift(self, delay: Duration) -> bool {
        self.pts.nanos + delay.nanos <= MAX_NANOS
    }

    fn share(&self) -> (r: Self) {
        Frame { data: Arc::clone(&self.data), pts: self.pts, resolution: self.resolution }
    }

    fn clip(self, duration: Duration) -> (r: Option<Self>) {
        if self.pts.nanos < duration.nanos {
            Some(self)
        } else {
            None
        }
    }

    fn shift_fits(&self, delay: Duration) -> (r: bool) {
        self.pts.nanos <= MAX_NANOS && delay.nanos <= MAX_NANOS - self.pts.nanos
    }

    fn shift_pts(&mut self, delay: Duration) {
        self.pts = self.pts.plus(delay);
    }
}

/// A track that waits for its turn.
struct QueuedLane<C, T> {
    channel: C,
    buffer: Vec<T>,
    closed: bool,
    abandoned: bool,
}

/// A track that waits for its turn, seen from outside.
pub struct QueuedModel<C, T> {
    pub channel: C,
    /// What has arrived so far.
    pub buffer: Seq<T>,
    /// Nothing more will arrive.
    pub closed: bool,
    /// The track will never have its turn.
    pub abandoned: bool,
}

/// The delivery order of an input, seen from outside.
pub struct LaneModel<C, T> {
    /// The number of the next track.
    pub next_seq: int,
    /// The number of the track whose turn it is.
    pub head: int,
    /// Where its items go, if it is there.
    pub head_channel: Option<C>,
    /// The tracks after it, in order.
    pub queued: Seq<QueuedModel<C, T>>,
}

/// What a turn that passes on delivers.
pub struct FlushModel<C, T> {
    /// The tracks that were done before they had their turn, with their items, in order.
    pub finished: Seq<(C, Seq<T>)>,
    /// What the track at the head has collected.
    pub head_items: Seq<T>,
}

impl<C, T> LaneModel<C, T> {
    /// The tracks in the list are those between the head and the next number; there is a track at
    /// the head unless it is the next to come.
    pub open spec fn wf(self) -> bool {
        &&& 0 <= self.head <= self.next_seq
        &&& self.head_channel is Some <==> self.head < self.next_seq
        &&& self.head < self.next_seq ==> self.queued.len() == self.next_seq - self.head - 1
        &&& self.head == self.next_seq ==> self.queued.len() == 0
    }

    /// Track `seq` waits for its turn.
    pub open spec fn is_queued(self, seq: int) -> bool {
        self.head < seq < self.next_seq
    }

    /// Track `seq`, which waits for its turn.
    pub open spec fn queued_lane(self, seq: int) -> QueuedModel<C, T> {
        self.queued[seq - self.head - 1]
    }

    /// Track `seq`, which waits for its turn, is now `lane`.
    pub open spec fn with_lane(self, seq: int, lane: QueuedModel<C, T>) -> Self {
        LaneModel { queued: self.queued.update(seq - self.head - 1, lane), ..self }
    }

    pub open spec fn registered(self, channel: C) -> Self {
        if self.next_seq == self.head {
            LaneModel { next_seq: self.next_seq + 1, head_channel: Some(channel), ..self }
        } else {
            LaneModel {
                next_seq: self.next_seq + 1,
                queued: self.queued.push(
                    QueuedModel { channel, buffer: Seq::empty(), closed: false, abandoned: false },
                ),
                ..self
            }
        }
    }

    /// The item of a track that waits is kept, unless the track was abandoned.
    pub open spec fn forwarded(self, seq: int, item: T) -> Self {
        if self.is_queued(seq) && !self.queued_lane(seq).abandoned {
            let lane = self.queued_lane(seq);
            self.with_lane(seq, QueuedModel { buffer: lane.buffer.push(item), ..lane })
        } else {
            self
        }
    }

    /// An item of track `seq` is delivered as it arrives.
    pub open spec fn delivers(self, seq: int) -> bool {
        seq == self.head && self.head_channel is Some
    }

    /// The turn passes on, past the tracks that are done or abandoned, to the next one.
    pub open spec fn advanced(self) -> (Self, FlushModel<C, T>)
        decreases self.queued.len(),
    {
        let moved = LaneModel { head: self.head + 1, head_channel: None, ..self };
        if self.queued.len() == 0 {
            (moved, FlushModel { finished: Seq::empty(), head_items: Seq::empty() })
        } else {
            let lane = self.queued[0];
            let rest = LaneModel { queued: self.queued.drop_first(), ..moved };
            if lane.abandoned {
                rest.advanced()
            } else if lane.closed {
                let (end, flush) = rest.advanced();
                (
                    end,
                    FlushModel {
                        finished: seq![(lane.channel, lane.buffer)] + flush.finished,
                        ..flush
                    },
                )
            } else {
                (
                    LaneModel { head_channel: Some(lane.channel), ..rest },
                    FlushModel { finished: Seq::empty(), head_items: lane.buffer },
                )
            }
        }
    }

    /// What the end of track `seq` does.
    pub open spec fn closed(self, seq: int) -> (Self, FlushModel<C, T>) {
        if seq == self.head {
            self.advanced()
        } else {
            let none = FlushModel { finished: Seq::empty(), head_items: Seq::empty() };
            if self.is_queued(seq) {
                let lane = self.queued_lane(seq);
                (self.with_lane(seq, QueuedModel { closed: true, ..lane }), none)
            } else {
                (self, none)
            }
        }
    }

    /// Every track that waits is abandoned, and what it collected is dropped.
    pub open spec fn abandoned(self) -> Self {
        LaneModel {
            queued: self.queued.map_values(
                |lane: QueuedModel<C, T>|
                    QueuedModel { abandoned: true, buffer: Seq::<T>::empty(), ..lane },
            ),
            ..self
        }
    }
}

/// What a turn that passes on delivers.
pub struct LaneFlush<C, T> {
    /// The tracks that were done before they had their turn, with their items, in order.
    pub finished: Vec<(C, Vec<T>)>,
    /// What the track at the head has collected. It goes to the channel at the head.
    pub head_items: Vec<T>,
}

impl<C, T> LaneFlush<C, T> {
    pub open spec fn model(self) -> FlushModel<C, T> {
        FlushModel {
            finished: self.finished@.map_values(|lane: (C, Vec<T>)| (lane.0, lane.1@)),
            head_items: self.head_items@,
        }
    }
}

/// The order in which the tracks of one input are delivered to the subscribers of one kind of
/// media. `C` is where the items of a track go.
pub struct SideChannelLane<C, T> {
    next_seq: u64,
    head: u64,
    head_channel: Option<C>,
    queued: Vec<QueuedLane<C, T>>,
}

impl<C, T> QueuedLane<C, T> {
    spec fn model(self) -> QueuedModel<C, T> {
        QueuedModel {
            channel: self.channel,
            buffer: self.buffer@,
            closed: self.closed,
            abandoned: self.abandoned,
        }
    }
}

impl<C, T: QueueItem> SideChannelLane<C, T> {
    pub closed spec fn model(self) -> LaneModel<C, T> {
        LaneModel {
            next_seq: self.next_seq as int,
            head: self.head as int,
            head_channel: self.head_channel,
            queued: self.queued@.map_values(|lane: QueuedLane<C, T>| lane.model()),
        }
    }

    pub open spec fn wf(self) -> bool {
        self.model().wf()
    }

    pub fn new() -> (r: Self)
        ensures
            r.wf(),
            r.model() == (LaneModel {
                next_seq: 0,
                head: 0,
                head_channel: None,
                queued: Seq::<QueuedModel<C, T>>::empty(),
            }),
    {
        let r = SideChannelLane { next_seq: 0, head: 0, head_channel: None, queued: Vec::new() };
        assert(r.model().queued =~= Seq::<QueuedModel<C, T>>::empty());
        r
    }

    /// How many tracks have been registered.
    pub fn registered(&self) -> (r: u64)
        ensures
            r == self.model().next_seq,
    {
        self.next_seq
    }

    /// Where the items of the track at the head go.
    pub fn head_channel(&self) -> (r: Option<&C>)
        ensures
            r is Some <==> self.model().head_channel is Some,
            r is Some ==> *r->0 == self.model().head_channel->0,
    {
        match &self.head_channel {
            Some(channel) => Some(channel),
            None => None,
        }
    }

    /// Adds a track whose items go to `channel`, and returns its number.
    pub fn register(&mut self, channel: C) -> (seq: u64)
        requires
            old(self).wf(),
            old(self).model().next_seq < u64::MAX,
        ensures
            final(self).wf(),
            seq == old(self).model().next_seq,
            final(self).model() == old(self).model().registered(channel),
    {
        let ghost before = self.model();
        let seq: u64 = self.next_seq;
        self.next_seq = seq + 1;
        if seq == self.head {
            self.head_channel = Some(channel);
            assert(self.model().queued =~= before.queued);
        } else {
            self.queued.push(
                QueuedLane { channel, buffer: Vec::new(), closed: false, abandoned: false },
            );
            assert(self.model().queued =~= before.registered(channel).queued);
        }
        seq
    }

    /// Takes note of an item of track `seq`. The answer says whether it is to be delivered to the
    /// channel at the head now.
    pub fn forward(&mut self, seq: u64, item: &T) -> (live: bool)
        requires
            old(self).wf(),
        ensures
            final(self).wf(),
            live == old(self).model().delivers(seq as int),
            live == (seq == old(self).model().head && old(self).model().head_channel is Some),
            final(self).model() == old(self).model().forwarded(seq as int, *item),
    {
        let ghost before = self.model();
        if seq == self.head {
            return self.head_channel.is_some();
        }
        if self.head < seq && seq < self.next_seq {
            let count: usize = self.queued.len();
            assert(seq - self.head - 1 < count);
            let place: usize = (seq - self.head - 1) as usize;
            assert(before.queued[place as int] == self.queued@[place as int].model());
            if !self.queued[place].abandoned {
                self.queued[place].buffer.push(item.share());
                assert(self.model().queued =~= before.forwarded(seq as int, *item).queued);
            }
        }
        false
    }

    /// Track `seq` is done. If it was at the head, the turn passes on, and what the tracks after it
    /// have collected is handed out.
    pub fn close(&mut self, seq: u64) -> (r: LaneFlush<C, T>)
        requires
            old(self).wf(),
            seq < old(self).model().next_seq,
        ensures
            final(self).wf(),
            (final(self).model(), r.model()) == old(self).model().closed(seq as int),
    {
        let ghost before = self.model();
        let mut finished: Vec<(C, Vec<T>)> = Vec::new();
        if seq != self.head {
            if self.head < seq && seq < self.next_seq {
                let count: usize = self.queued.len();
                assert(seq - self.head - 1 < count);
                let place: usize = (seq - self.head - 1) as usize;
                assert(before.queued[place as int] == self.queued@[place as int].model());
                self.queued[place].closed = true;
                assert(self.model().queued =~= before.closed(seq as int).0.queued);
            }
            let r = LaneFlush { finished, head_items: Vec::new() };
            assert(r.model().finished =~= Seq::<(C, Seq<T>)>::empty());
            return r;
        }
        let ghost mut done: Seq<(C, Seq<T>)> = Seq::empty();
        let ghost goal = before.advanced();
        self.head_channel = None;
        proof {
            assert(self.model().queued =~= before.queued);
            assert(done + goal.1.finished =~= goal.1.finished);
            assert(finished@.map_values(|lane: (C, Vec<T>)| (lane.0, lane.1@)) =~= done);
        }
        loop
            invariant
                self.head < self.next_seq,
                self.head_channel is None,
                self.queued@.len() == self.next_seq - self.head - 1,
                goal.0 == self.model().advanced().0,
                goal.1.finished == done + self.model().advanced().1.finished,
                goal.1.head_items == self.model().advanced().1.head_items,
                finished@.map_values(|lane: (C, Vec<T>)| (lane.0, lane.1@)) == done,
                old(self).model().closed(seq as int) == goal,
            decreases self.queued@.len(),
        {
            let ghost current = self.model();
            self.head = self.head + 1;
            if self.queued.len() == 0 {
                assert(self.model().queued =~= current.queued);
                let r = LaneFlush { finished, head_items: Vec::new() };
                assert(r.model().finished =~= goal.1.finished);
                return r;
            }
            let lane = self.queued.remove(0);
            assert(current.queued[0] == lane.model());
            assert(self.model().queued =~= current.queued.drop_first());
            let QueuedLane { channel, buffer, closed, abandoned } = lane;
            if !abandoned {
                if closed {
                    finished.push((channel, buffer));
                    proof {
                        let added = seq![(channel, buffer@)];
                        assert(finished@.map_values(|lane: (C, Vec<T>)| (lane.0, lane.1@))
                            =~= done + added);
                        done = done + added;
                        assert(goal.1.finished =~= done + self.model().advanced().1.finished);
                    }
                } else {
                    self.head_channel = Some(channel);
                    let r = LaneFlush { finished, head_items: buffer };
                    assert(r.model().finished =~= goal.1.finished);
                    return r;
                }
            }
        }
    }

    /// Every track behind the one at the head was discarded; its items must never reach
    /// subscribers.
    pub fn abandon_queued(&mut self)
        requires
            old(self).wf(),
        ensures
            final(self).wf(),
            final(self).model() == old(self).model().abandoned(),
    {
        let ghost before = self.model();
        let ghost goal = before.abandoned();
        let mut i: usize = 0;
        while i < self.queued.len()
            invariant
                i <= self.queued@.len(),
                goal == before.abandoned(),
                self.queued@.len() == before.queued.len(),
                self.model() == (LaneModel { queued: self.model().queued, ..before }),
                forall|k: int| 0 <= k < i ==> #[trigger] self.model().queued[k] == goal.queued[k],
                forall|k: int|
                    i <= k < before.queued.len() ==> #[trigger] self.model().queued[k]
                        == before.queued[k],
            decreases self.queued@.len() - i,
        {
            let ghost current = self.model();
            assert(current.queued[i as int] == self.queued@[i as int].model());
            self.queued[i].abandoned = true;
            self.queued[i].buffer.clear();
            assert(self.model().queued =~= current.queued.update(i as int, goal.queued[i as int]));
            i = i + 1;
        }
        assert(self.model().queued =~= goal.queued);
    }
}

/// Items of tracks that were abandoned are never handed out: when the turn passes on, it finds
/// nothing.
pub proof fn lemma_abandoned_never_delivered<C, T>(lane: LaneModel<C, T>)
    ensures
        lane.abandoned().advanced().1.finished.len() == 0,
        lane.abandoned().advanced().1.head_items.len() == 0,
        lane.abandoned().advanced().0.head_channel is None,
{
    lemma_all_abandoned_pass(lane.abandoned());
}

proof fn lemma_all_abandoned_pass<C, T>(lane: LaneModel<C, T>)
    requires
        forall|i: int| 0 <= i < lane.queued.len() ==> (#[trigger] lane.queued[i]).abandoned,
    ensures
        lane.advanced().1.finished.len() == 0,
        lane.advanced().1.head_items.len() == 0,
        lane.advanced().0.head_channel is None,
    decreases lane.queued.len(),
{
    if lane.queued.len() > 0 {
        assert(lane.queued[0].abandoned);
        let rest = LaneModel {
            head: lane.head + 1,
            head_channel: None,
            queued: lane.queued.drop_first(),
            ..lane
        };
        assert forall|i: int| 0 <= i < rest.queued.len() implies (
        #[trigger] rest.queued[i]).abandoned by {
            assert(lane.queued[i + 1].abandoned);
        }
        lemma_all_abandoned_pass(rest);
    }
}

/// A track is flushed only when every track before it is done or abandoned, and then everything it
/// has collected is handed out, in order.
pub proof fn lemma_flush_waits_for_earlier_tracks<C, T>(lane: LaneModel<C, T>, live: int)
    requires
        0 <= live < lane.queued.len(),
        !lane.queued[live].abandoned && !lane.queued[live].closed,
        forall|i: int|
            0 <= i < live ==> (#[trigger] lane.queued[i]).abandoned || lane.queued[i].closed,
    ensures
        lane.advanced().1.head_items == lane.queued[live].buffer,
        lane.advanced().0.head_channel == Some(lane.queued[live].channel),
        lane.advanced().0.head == lane.head + live + 1,
        lane.advanced().0.queued == lane.queued.skip(live + 1),
    decreases lane.queued.len(),
{
    if live == 0 {
        assert(lane.queued.skip(1) =~= lane.queued.drop_first());
    } else {
        let rest = LaneModel {
            head: lane.head + 1,
            head_channel: None,
            queued: lane.queued.drop_first(),
            ..lane
        };
        assert(lane.queued[0].abandoned || lane.queued[0].closed);
        assert forall|i: int| 0 <= i < live - 1 implies (#[trigger] rest.queued[i]).abandoned
            || rest.queued[i].closed by {
            assert(lane.queued[i + 1].abandoned || lane.queued[i + 1].closed);
        }
        lemma_flush_waits_for_earlier_tracks(rest, live - 1);
        assert(rest.queued.skip(live) =~= lane.queued.skip(live + 1));
    }
}

/// The tracks that are done and were not abandoned, with what they collected, in order.
pub open spec fn finished_tracks<C, T>(queued: Seq<QueuedModel<C, T>>) -> Seq<(C, Seq<T>)>
    decreases queued.len(),
{
    if queued.len() == 0 {
        Seq::empty()
    } else if queued[0].abandoned {
        finished_tracks(queued.drop_first())
    } else {
        seq![(queued[0].channel, queued[0].buffer)] + finished_tracks(queued.drop_first())
    }
}

/// Tracks are delivered one after the other: when the turn passes on to a track, all that the
/// tracks before it collected comes first, in their order, and nothing of an abandoned one.
pub proof fn lemma_tracks_are_delivered_in_order<C, T>(lane: LaneModel<C, T>, live: int)
    requires
        0 <= live <= lane.queued.len(),
        live < lane.queued.len() ==> !lane.queued[live].abandoned && !lane.queued[live].closed,
        forall|i: int|
            0 <= i < live ==> (#[trigger] lane.queued[i]).abandoned || lane.queued[i].closed,
    ensures
        lane.advanced().1.finished == finished_tracks(lane.queued.take(live)),
        live == lane.queued.len() ==> lane.advanced().1.head_items.len() == 0
            && lane.advanced().0.head_channel is None,
    decreases lane.queued.len(),
{
    let before = lane.queued.take(live);
    if live > 0 {
        let rest = LaneModel {
            head: lane.head + 1,
            head_channel: None,
            queued: lane.queued.drop_first(),
            ..lane
        };
        assert(lane.queued[0].abandoned || lane.queued[0].closed);
        assert(live < lane.queued.len() ==> rest.queued[live - 1] == lane.queued[live]);
        assert forall|i: int| 0 <= i < live - 1 implies (#[trigger] rest.queued[i]).abandoned
            || rest.queued[i].closed by {
            assert(lane.queued[i + 1].abandoned || lane.queued[i + 1].closed);
        }
        lemma_tracks_are_delivered_in_order(rest, live - 1);
        assert(before.drop_first() =~= rest.queued.take(live - 1));
    }
}

/// A track that was abandoned stays so, and collects nothing, whatever happens to it or to the
/// others before its turn would come.
pub proof fn lemma_abandoned_track_stays_silent<C, T>(
    lane: LaneModel<C, T>,
    seq: int,
    other: int,
    item: T,
    channel: C,
)
    requires
        lane.wf(),
        lane.is_queued(seq),
        lane.queued_lane(seq).abandoned,
    ensures
        lane.forwarded(other, item).queued_lane(seq) == lane.queued_lane(seq),
        lane.registered(channel).queued_lane(seq) == lane.queued_lane(seq),
        lane.abandoned().queued_lane(seq).abandoned,
        other != lane.head ==> {
            let after = lane.closed(other).0.queued_lane(seq);
            after.abandoned && after.buffer == lane.queued_lane(seq).buffer
        },
{
}

/// An item changes nothing but what its own track has collected, and that only while the track waits
/// and was not abandoned: it stands after what arrived before it.
pub proof fn lemma_item_waits_with_its_track<C, T>(lane: LaneModel<C, T>, seq: int, item: T)
    requires
        lane.wf(),
    ensures
        ({
            let after = lane.forwarded(seq, item);
            let place = seq - lane.head - 1;
            &&& after.next_seq == lane.next_seq && after.head == lane.head && after.head_channel
                == lane.head_channel && after.queued.len() == lane.queued.len()
            &&& forall|i: int|
                0 <= i < lane.queued.len() && i != place ==> #[trigger] after.queued[i]
                    == lane.queued[i]
            &&& lane.head < seq < lane.next_seq ==> {
                let before = lane.queued[place];
                &&& after.queued[place].channel == before.channel
                &&& after.queued[place].closed == before.closed
                &&& after.queued[place].abandoned == before.abandoned
                &&& after.queued[place].buffer == if before.abandoned {
                    before.buffer
                } else {
                    before.buffer.push(item)
                }
            }
        }),
{
}

/// An item is delivered as it arrives exactly if its track is there and all tracks before it had their
/// turn. It is then not kept; any other item is kept if its track waits and was not abandoned.
pub proof fn lemma_item_is_delivered_or_waits<C, T>(lane: LaneModel<C, T>, seq: int, item: T)
    requires
        lane.wf(),
        0 <= seq < lane.next_seq,
    ensures
        lane.delivers(seq) <==> seq == lane.head,
        lane.delivers(seq) ==> lane.forwarded(seq, item) == lane,
        lane.delivers(seq) || seq < lane.head || lane.forwarded(
            seq,
            item,
        ).queued[seq - lane.head - 1].buffer.len() == lane.queued[seq - lane.head - 1].buffer.len()
            + if lane.queued[seq - lane.head - 1].abandoned {
            0int
        } else {
            1
        },
{
}

/// A new track stands behind all others, open and with nothing collected, and the others stay as they
/// are. It is at the head exactly where no other track is.
pub proof fn lemma_new_track_stands_last<C, T>(lane: LaneModel<C, T>, channel: C)
    requires
        lane.wf(),
    ensures
        ({
            let after = lane.registered(channel);
            &&& after.wf() && after.next_seq == lane.next_seq + 1 && after.head == lane.head
            &&& lane.head_channel is None ==> after.head_channel == Some(channel)
                && after.queued.len() == 0
            &&& lane.head_channel is Some ==> {
                &&& after.head_channel == lane.head_channel
                &&& after.queued.drop_last() == lane.queued
                &&& after.queued.last().channel == channel
                &&& after.queued.last().buffer.len() == 0
                &&& !after.queued.last().closed && !after.queued.last().abandoned
            }
        }),
{
    if lane.head_channel is Some {
        assert(lane.registered(channel).queued.drop_last() =~= lane.queued);
    }
}

/// A track that ends while it waits is only marked: nothing is delivered, and it keeps its place and
/// what it has collected. The end of the track at the head passes the turn on, to the first track that
/// is neither done nor abandoned; past all of them where there is none.
pub proof fn lemma_end_of_a_track<C, T>(lane: LaneModel<C, T>, seq: int)
    requires
        lane.wf(),
        0 <= seq < lane.next_seq,
    ensures
        ({
            let (after, flush) = lane.closed(seq);
            let place = seq - lane.head - 1;
            &&& after.next_seq == lane.next_seq
            &&& seq != lane.head ==> {
                &&& flush.finished.len() == 0 && flush.head_items.len() == 0
                &&& after.head == lane.head && after.head_channel == lane.head_channel
                &&& after.queued.len() == lane.queued.len()
                &&& forall|i: int|
                    0 <= i < lane.queued.len() ==> {
                        &&& (#[trigger] after.queued[i]).channel == lane.queued[i].channel
                        &&& after.queued[i].buffer == lane.queued[i].buffer
                        &&& after.queued[i].abandoned == lane.queued[i].abandoned
                        &&& after.queued[i].closed == (lane.queued[i].closed || i == place)
                    }
            }
            &&& seq == lane.head ==> {
                &&& lane.head < after.head <= lane.next_seq
                &&& after.head_channel is Some <==> after.head < lane.next_seq
                &&& forall|i: int|
                    0 <= i < after.head - lane.head - 1 ==> (#[trigger] lane.queued[i]).closed
                        || lane.queued[i].abandoned
                &&& after.head < lane.next_seq ==> {
                    let turn = lane.queued[after.head - lane.head - 1];
                    &&& !turn.closed && !turn.abandoned
                    &&& after.head_channel == Some(turn.channel)
                    &&& flush.head_items == turn.buffer
                    &&& after.queued == lane.queued.skip(after.head - lane.head)
                }
            }
        }),
{
    if seq == lane.head {
        lemma_turn_finds_the_next(lane);
    }
}

proof fn lemma_turn_finds_the_next<C, T>(lane: LaneModel<C, T>)
    ensures
        ({
            let (after, flush) = lane.advanced();
            let count = after.head - lane.head - 1;
            &&& after.next_seq == lane.next_seq
            &&& 0 <= count <= lane.queued.len()
            &&& after.head_channel is Some <==> count < lane.queued.len()
            &&& forall|i: int|
                0 <= i < count ==> (#[trigger] lane.queued[i]).closed || lane.queued[i].abandoned
            &&& count < lane.queued.len() ==> {
                let turn = lane.queued[count];
                &&& !turn.closed && !turn.abandoned
                &&& after.head_channel == Some(turn.channel)
                &&& flush.head_items == turn.buffer
                &&& after.queued == lane.queued.skip(count + 1)
            }
        }),
    decreases lane.queued.len(),
{
    if lane.queued.len() > 0 {
        let first = lane.queued[0];
        let rest = LaneModel {
            head: lane.head + 1,
            head_channel: None,
            queued: lane.queued.drop_first(),
            ..lane
        };
        if first.abandoned || first.closed {
            lemma_turn_finds_the_next(rest);
            let after = lane.advanced().0;
            let count = after.head - lane.head - 1;
            assert forall|i: int| 0 <= i < count implies (#[trigger] lane.queued[i]).closed
                || lane.queued[i].abandoned by {
                if i > 0 {
                    assert(rest.queued[i - 1] == lane.queued[i]);
                }
            }
            if count < lane.queued.len() {
                assert(rest.queued[count - 1] == lane.queued[count]);
                assert(rest.queued.skip(count) =~= lane.queued.skip(count + 1));
            }
        } else {
            assert(lane.queued.skip(1) =~= lane.queued.drop_first());
        }
    }
}

/// Abandoning the tracks that wait leaves the one at the head alone, and takes from each of the others
/// what it has collected, and its turn.
pub proof fn lemma_abandoning_spares_the_head<C, T>(lane: LaneModel<C, T>)
    ensures
        ({
            let after = lane.abandoned();
            &&& after.next_seq == lane.next_seq && after.head == lane.head && after.head_channel
                == lane.head_channel && after.queued.len() == lane.queued.len()
            &&& forall|i: int|
                0 <= i < lane.queued.len() ==> {
                    &&& (#[trigger] after.queued[i]).abandoned && after.queued[i].buffer.len() == 0
                    &&& after.queued[i].channel == lane.queued[i].channel
                    &&& after.queued[i].closed == lane.queued[i].closed
                }
        }),
{
}

/// What a sender makes of an item.
pub struct Prepared<T> {
    /// What goes into the track, if anything is left of the item.
    pub item: Option<T>,
    /// It is also to be delivered to the side channel now, before it enters the track.
    pub live: bool,
}

/// The sending half of a track. Items are clipped to the duration of the track, moved by the delay
/// of the side channel, and passed to the side channel as they arrive, before they enter the
/// bounded channel of the track. So subscribers see media on arrival, no matter when the queue
/// takes it.
#[verifier::reject_recursive_types(T)]
pub struct QueueSender<T> {
    sender: EventSender<T>,
    delay: Duration,
    duration: Option<Duration>,
    lane: Option<u64>,
}

impl<T: QueueItem> QueueSender<T> {
    pub closed spec fn delay(self) -> Duration {
        self.delay
    }

    pub closed spec fn duration(self) -> Option<Duration> {
        self.duration
    }

    /// The number of the track in the side channel's delivery order.
    pub closed spec fn seq(self) -> Option<u64> {
        self.lane
    }

    /// Where the items of the track go.
    pub closed spec fn sender(self) -> Sender<T> {
        self.sender.channel()
    }

    /// Everything handed to the channel of the track so far, in order, with its answers.
    pub closed spec fn handed(self) -> Seq<Handover<T>> {
        self.sender.handed()
    }

    /// What the track has of an item before it is moved.
    pub open spec fn kept_of(self, item: T) -> Option<T> {
        match self.duration() {
            Some(duration) => item.clipped(duration),
            None => Some(item),
        }
    }

    /// What the track has of an item can be moved.
    pub open spec fn takes(self, item: T) -> bool {
        self.kept_of(item) is Some ==> self.kept_of(item)->0.can_shift(self.delay())
    }

    /// What is left of an item once it is clipped and moved.
    pub open spec fn left_of(self, item: T) -> Option<T> {
        match self.kept_of(item) {
            Some(kept) => Some(kept.shifted(self.delay())),
            None => None,
        }
    }

    pub fn new(sender: Sender<T>, delay: Duration, duration: Option<Duration>, lane: Option<u64>) -> (r:
        Self)
        ensures
            r.delay() == delay,
            r.duration() == duration,
            r.seq() == lane,
            r.sender() == sender,
            r.handed() == Seq::<Handover<T>>::empty(),
    {
        QueueSender { sender: EventSender::new(sender), delay, duration, lane }
    }

    /// Whether what the track has of an item can be moved.
    pub fn accepts(&self, item: &T) -> (r: bool)
        ensures
            r == self.takes(*item),
    {
        match self.duration {
            Some(duration) => match item.share().clip(duration) {
                Some(kept) => kept.shift_fits(self.delay),
                None => true,
            },
            None => item.shift_fits(self.delay),
        }
    }

    /// Clips and moves an item and passes what is left of it to the delivery order.
    pub fn prepare<C>(&self, item: T, lane: &mut Option<SideChannelLane<C, T>>) -> (r: Prepared<T>)
        requires
            self.takes(item),
            *old(lane) is Some ==> old(lane)->0.wf(),
        ensures
            r.item == self.left_of(item),
            *final(lane) is Some <==> *old(lane) is Some,
            *final(lane) is Some ==> final(lane)->0.wf(),
            if self.left_of(item) is Some && self.seq() is Some && *old(lane) is Some {
                &&& final(lane)->0.model() == old(lane)->0.model().forwarded(
                    self.seq()->0 as int,
                    self.left_of(item)->0,
                )
                &&& r.live == old(lane)->0.model().delivers(self.seq()->0 as int)
                &&& r.live == (self.seq()->0 == old(lane)->0.model().head && old(lane)->0.model().head_channel is Some)
            } else {
                *final(lane) == *old(lane) && !r.live
            },
    {
        let mut item = match self.duration {
            Some(duration) => match item.clip(duration) {
                Some(item) => item,
                None => {
                    return Prepared { item: None, live: false };
                },
            },
            None => item,
        };
        item.shift_pts(self.delay);
        let live = match (self.lane, lane.as_mut()) {
            (Some(seq), Some(lane)) => lane.forward(seq, &item),
            _ => false,
        };
        Prepared { item: Some(item), live }
    }

    /// Tries to put what `prepare` left of an item into the track: it is handed to the channel of
    /// the track, once, and the answer is passed on. An item that was dropped needs no room, and
    /// nothing is handed over.
    pub fn try_send(&mut self, item: Option<T>) -> (r: Result<(), TrySendError<T>>)
        ensures
            final(self).delay() == old(self).delay(),
            final(self).duration() == old(self).duration(),
            final(self).seq() == old(self).seq(),
            final(self).sender() == old(self).sender(),
            match item {
                Some(item) => {
                    &&& final(self).handed() == old(self).handed().push(
                        Handover { item, answer: r },
                    )
                    &&& (Handover { item, answer: r }).answered_by(old(self).sender())
                },
                None => r is Ok && final(self).handed() == old(self).handed(),
            },
            r matches Err(TrySendError::Full(back)) ==> item == Some(back),
            r matches Err(TrySendError::Disconnected(back)) ==> item == Some(back),
    {
        match item {
            Some(item) => self.sender.try_send(item),
            None => Ok(()),
        }
    }

    /// The sender is gone: its track is done.
    pub fn close<C>(self, lane: &mut Option<SideChannelLane<C, T>>) -> (r: Option<LaneFlush<C, T>>)
        requires
            *old(lane) is Some ==> old(lane)->0.wf() && (self.seq() is Some ==> self.seq()->0
                < old(lane)->0.model().next_seq),
        ensures
            *final(lane) is Some <==> *old(lane) is Some,
            *final(lane) is Some ==> final(lane)->0.wf(),
            if self.seq() is Some && *old(lane) is Some {
                &&& r is Some
                &&& (final(lane)->0.model(), r->0.model()) == old(lane)->0.model().closed(
                    self.seq()->0 as int,
                )
            } else {
                r is None && *final(lane) == *old(lane)
            },
    {
        match (self.lane, lane.as_mut()) {
            (Some(seq), Some(lane)) => Some(lane.close(seq)),
            _ => None,
        }
    }
}

/// A frame enters a track only if it starts before the end of the track, by its own time, and then it
/// enters whole, later by the delay of the side channel. A track without an end takes every frame.
pub proof fn lemma_frames_before_the_end_enter_late<D>(
    sender: QueueSender<Frame<D>>,
    frame: Frame<D>,
)
    requires
        frame.pts.nanos + sender.delay().nanos <= MAX_NANOS,
    ensures
        ({
            let left = sender.left_of(frame);
            let inside = match sender.duration() {
                Some(end) => frame.pts.nanos < end.nanos,
                None => true,
            };
            &&& sender.takes(frame)
            &&& left is Some <==> inside
            &&& left is Some ==> {
                &&& left->0.pts.nanos == frame.pts.nanos + sender.delay().nanos
                &&& left->0.data == frame.data
                &&& left->0.resolution == frame.resolution
            }
        }),
{
}

} // verus!
