//! What subscribers see of the tracks of an input, from the first track to the last.

use crate::side_channel::{FlushModel, LaneModel, QueuedModel};
use vstd::prelude::*;

verus! {

/// One thing that happens to a delivery order.
pub enum LaneStep<C, T> {
    /// A track is added, whose items go to this channel.
    Register(C),
    /// An item of this track arrives.
    Forward(int, T),
    /// This track is done.
    Close(int),
}

/// What was told about the tracks, by their numbers.
pub struct Told<C, T> {
    pub channels: Seq<C>,
    /// The items of each track, in the order in which they arrived.
    pub items: Seq<Seq<T>>,
    pub closed: Seq<bool>,
}

impl<C, T> Told<C, T> {
    /// Nothing was told.
    pub open spec fn nothing() -> Self {
        Told { channels: Seq::empty(), items: Seq::empty(), closed: Seq::empty() }
    }

    pub open spec fn wf(self) -> bool {
        self.items.len() == self.channels.len() && self.closed.len() == self.channels.len()
    }

    /// The track was added, and is not done.
    pub open spec fn is_open(self, track: int) -> bool {
        0 <= track < self.channels.len() && !self.closed[track]
    }

    /// Items arrive for tracks that were added and are not done, and a track is done once.
    pub open spec fn allows(self, step: LaneStep<C, T>) -> bool {
        match step {
            LaneStep::Register(_) => true,
            LaneStep::Forward(track, _) => self.is_open(track),
            LaneStep::Close(track) => self.is_open(track),
        }
    }

    pub open spec fn with(self, step: LaneStep<C, T>) -> Self {
        match step {
            LaneStep::Register(channel) => Told {
                channels: self.channels.push(channel),
                items: self.items.push(Seq::empty()),
                closed: self.closed.push(false),
            },
            LaneStep::Forward(track, item) => Told {
                items: self.items.update(track, self.items[track].push(item)),
                ..self
            },
            LaneStep::Close(track) => Told { closed: self.closed.update(track, true), ..self },
        }
    }

    /// The items of the first `count` tracks, each with the channel of its track: track after track,
    /// and within a track in the order in which they arrived.
    pub open spec fn in_order(self, count: int) -> Seq<(C, T)>
        decreases count,
    {
        if count <= 0 {
            Seq::empty()
        } else {
            self.in_order(count - 1) + sent_to(self.channels[count - 1], self.items[count - 1])
        }
    }

    /// Every track is done.
    pub open spec fn all_closed(self) -> bool {
        forall|track: int| 0 <= track < self.closed.len() ==> #[trigger] self.closed[track]
    }
}

/// Each of the items, sent to `channel`.
pub open spec fn sent_to<C, T>(channel: C, items: Seq<T>) -> Seq<(C, T)> {
    items.map_values(|item: T| (channel, item))
}

/// The items of one track after the other.
pub open spec fn sent_in_turn<C, T>(tracks: Seq<(C, Seq<T>)>) -> Seq<(C, T)>
    decreases tracks.len(),
{
    if tracks.len() == 0 {
        Seq::empty()
    } else {
        sent_to(tracks[0].0, tracks[0].1) + sent_in_turn(tracks.drop_first())
    }
}

/// What a turn that passes on sends: the tracks that were done, and then what the track that is now
/// at the head has collected.
pub open spec fn flushed<C, T>(lane: LaneModel<C, T>, flush: FlushModel<C, T>) -> Seq<(C, T)> {
    sent_in_turn(flush.finished) + match lane.head_channel {
        Some(channel) => sent_to(channel, flush.head_items),
        None => Seq::empty(),
    }
}

/// What a step makes of the delivery order, and what is sent on account of it.
pub open spec fn lane_after<C, T>(lane: LaneModel<C, T>, step: LaneStep<C, T>) -> (
    LaneModel<C, T>,
    Seq<(C, T)>,
) {
    match step {
        LaneStep::Register(channel) => (lane.registered(channel), Seq::empty()),
        LaneStep::Forward(track, item) => (
            lane.forwarded(track, item),
            match lane.head_channel {
                Some(channel) if track == lane.head => seq![(channel, item)],
                _ => Seq::empty(),
            },
        ),
        LaneStep::Close(track) => {
            let (after, flush) = lane.closed(track);
            (after, flushed(after, flush))
        },
    }
}

/// A delivery order with no track.
pub open spec fn fresh_lane<C, T>() -> LaneModel<C, T> {
    LaneModel { next_seq: 0, head: 0, head_channel: None, queued: Seq::empty() }
}

/// What a history makes of a fresh delivery order, and all that is sent on account of it, in order.
pub open spec fn lane_history<C, T>(steps: Seq<LaneStep<C, T>>) -> (LaneModel<C, T>, Seq<(C, T)>)
    decreases steps.len(),
{
    if steps.len() == 0 {
        (fresh_lane(), Seq::empty())
    } else {
        let (lane, sent) = lane_history(steps.drop_last());
        let (after, more) = lane_after(lane, steps.last());
        (after, sent + more)
    }
}

/// What a history tells.
pub open spec fn told_by<C, T>(steps: Seq<LaneStep<C, T>>) -> Told<C, T>
    decreases steps.len(),
{
    if steps.len() == 0 {
        Told::nothing()
    } else {
        told_by(steps.drop_last()).with(steps.last())
    }
}

/// Every step of the history is allowed where it stands.
pub open spec fn is_history<C, T>(steps: Seq<LaneStep<C, T>>) -> bool
    decreases steps.len(),
{
    steps.len() == 0 || (is_history(steps.drop_last()) && told_by(steps.drop_last()).allows(
        steps.last(),
    ))
}

/// The tracks behind the head wait with all that arrived for them.
pub open spec fn waits_with<C, T>(lane: LaneModel<C, T>, told: Told<C, T>) -> bool {
    &&& lane.next_seq == told.channels.len()
    &&& lane.head < lane.next_seq ==> lane.head + 1 + lane.queued.len() == told.channels.len()
    &&& forall|i: int|
        0 <= i < lane.queued.len() ==> #[trigger] lane.queued[i] == (QueuedModel {
            channel: told.channels[lane.head + 1 + i],
            buffer: told.items[lane.head + 1 + i],
            closed: told.closed[lane.head + 1 + i],
            abandoned: false,
        })
}

/// How many tracks have had their turn or have it now.
pub open spec fn reached<C, T>(lane: LaneModel<C, T>) -> int {
    if lane.head < lane.next_seq {
        lane.head + 1
    } else {
        lane.next_seq
    }
}

/// The delivery order is where it should be after what was told, and `sent` is what should have been
/// sent.
pub open spec fn on_course<C, T>(lane: LaneModel<C, T>, told: Told<C, T>, sent: Seq<(C, T)>) -> bool {
    &&& told.wf()
    &&& lane.wf()
    &&& waits_with(lane, told)
    &&& forall|track: int| 0 <= track < lane.head ==> #[trigger] told.closed[track]
    &&& lane.head < lane.next_seq ==> !told.closed[lane.head] && lane.head_channel == Some(
        told.channels[lane.head],
    )
    &&& sent == told.in_order(reached(lane))
}

/// What is told of later tracks changes nothing about the first ones.
proof fn lemma_in_order_is_local<C, T>(one: Told<C, T>, other: Told<C, T>, count: int)
    requires
        count <= one.channels.len(),
        count <= other.channels.len(),
        forall|track: int|
            0 <= track < count ==> #[trigger] one.channels[track] == other.channels[track],
        forall|track: int|
            0 <= track < count ==> #[trigger] one.items[track] == other.items[track],
    ensures
        one.in_order(count) == other.in_order(count),
    decreases count,
{
    if count > 0 {
        lemma_in_order_is_local(one, other, count - 1);
        assert(one.channels[count - 1] == other.channels[count - 1]);
        assert(one.items[count - 1] == other.items[count - 1]);
    }
}

proof fn lemma_turn_passes<C, T>(lane: LaneModel<C, T>, told: Told<C, T>)
    requires
        told.wf(),
        0 <= lane.head,
        lane.next_seq == told.channels.len(),
        lane.head + 1 + lane.queued.len() == told.channels.len(),
        waits_with(lane, told),
    ensures
        ({
            let (end, flush) = lane.advanced();
            &&& end.wf()
            &&& lane.head < end.head
            &&& waits_with(end, told)
            &&& forall|track: int| lane.head < track < end.head ==> #[trigger] told.closed[track]
            &&& end.head < end.next_seq ==> !told.closed[end.head] && end.head_channel == Some(
                told.channels[end.head],
            )
            &&& told.in_order(lane.head + 1) + flushed(end, flush) == told.in_order(reached(end))
        }),
    decreases lane.queued.len(),
{
    let (end, flush) = lane.advanced();
    let head = lane.head;
    if lane.queued.len() == 0 {
        assert(told.in_order(head + 1) + flushed(end, flush) =~= told.in_order(head + 1));
    } else {
        let first = lane.queued[0];
        let rest = LaneModel {
            head: head + 1,
            head_channel: None,
            queued: lane.queued.drop_first(),
            ..lane
        };
        assert(first == QueuedModel {
            channel: told.channels[head + 1 + 0],
            buffer: told.items[head + 1 + 0],
            closed: told.closed[head + 1 + 0],
            abandoned: false,
        });
        assert forall|i: int| 0 <= i < rest.queued.len() implies #[trigger] rest.queued[i] == (
        QueuedModel {
            channel: told.channels[rest.head + 1 + i],
            buffer: told.items[rest.head + 1 + i],
            closed: told.closed[rest.head + 1 + i],
            abandoned: false,
        }) by {
            assert(rest.queued[i] == lane.queued[i + 1]);
        }
        if first.closed {
            lemma_turn_passes(rest, told);
            let (rest_end, rest_flush) = rest.advanced();
            assert(rest_end == end);
            assert(flush.finished.drop_first() =~= rest_flush.finished);
            assert(flush.finished[0] == (first.channel, first.buffer));
            assert(told.in_order(head + 1) + flushed(end, flush) =~= (told.in_order(head + 1)
                + sent_to(first.channel, first.buffer)) + flushed(end, rest_flush));
            assert(told.in_order(head + 2) == told.in_order(head + 1) + sent_to(
                first.channel,
                first.buffer,
            ));
            assert forall|track: int| head < track < end.head implies #[trigger] told.closed[track] by {
                if track > head + 1 {
                    assert(rest.head < track);
                }
            }
        } else {
            assert forall|i: int| 0 <= i < end.queued.len() implies #[trigger] end.queued[i] == (
            QueuedModel {
                channel: told.channels[end.head + 1 + i],
                buffer: told.items[end.head + 1 + i],
                closed: told.closed[end.head + 1 + i],
                abandoned: false,
            }) by {
                assert(end.queued[i] == rest.queued[i]);
            }
            assert(sent_in_turn(flush.finished) =~= Seq::<(C, T)>::empty());
            assert(flushed(end, flush) =~= sent_to(first.channel, first.buffer));
            assert(told.in_order(head + 2) == told.in_order(head + 1) + sent_to(
                first.channel,
                first.buffer,
            ));
        }
    }
}

proof fn lemma_stays_on_course<C, T>(
    lane: LaneModel<C, T>,
    told: Told<C, T>,
    sent: Seq<(C, T)>,
    step: LaneStep<C, T>,
)
    requires
        on_course(lane, told, sent),
        told.allows(step),
    ensures
        on_course(lane_after(lane, step).0, told.with(step), sent + lane_after(lane, step).1),
{
    let (after, more) = lane_after(lane, step);
    let next = told.with(step);
    match step {
        LaneStep::Register(channel) => {
            assert(sent + more =~= sent);
            lemma_in_order_is_local(told, next, reached(lane));
            if lane.head == lane.next_seq {
                assert(sent_to(channel, Seq::<T>::empty()) =~= Seq::<(C, T)>::empty());
                assert(next.in_order(reached(lane) + 1) =~= next.in_order(reached(lane)));
            }
        },
        LaneStep::Forward(track, item) => {
            assert(lane.head <= track);
            lemma_in_order_is_local(told, next, track);
            if track == lane.head {
                let channel = told.channels[track];
                assert(sent_to(channel, told.items[track].push(item)) =~= sent_to(
                    channel,
                    told.items[track],
                ).push((channel, item)));
                assert(sent + more =~= next.in_order(track + 1));
            } else {
                lemma_in_order_is_local(told, next, reached(lane));
                assert(sent + more =~= sent);
            }
        },
        LaneStep::Close(track) => {
            assert(lane.head <= track);
            lemma_in_order_is_local(told, next, reached(lane));
            if track == lane.head {
                lemma_turn_passes(lane, next);
            } else {
                assert(flushed(after, lane.closed(track).1) =~= Seq::<(C, T)>::empty());
                assert(sent + more =~= sent);
            }
        },
    }
}

proof fn lemma_history_on_course<C, T>(steps: Seq<LaneStep<C, T>>)
    requires
        is_history(steps),
    ensures
        on_course(lane_history(steps).0, told_by(steps), lane_history(steps).1),
    decreases steps.len(),
{
    if steps.len() > 0 {
        lemma_history_on_course(steps.drop_last());
        let (lane, sent) = lane_history(steps.drop_last());
        lemma_stays_on_course(lane, told_by(steps.drop_last()), sent, steps.last());
    } else {
        assert(lane_history(steps).1 =~= told_by(steps).in_order(0));
    }
}

/// Over any history in which no track is abandoned, whatever is sent comes track after track, and
/// within a track in the order in which it arrived, each item to the channel of its track and once.
/// Nothing of a track is sent before all tracks with smaller numbers are done.
pub proof fn lemma_items_are_sent_in_order<C, T>(steps: Seq<LaneStep<C, T>>)
    requires
        is_history(steps),
    ensures
        ({
            let (lane, sent) = lane_history(steps);
            let told = told_by(steps);
            &&& sent == told.in_order(reached(lane))
            &&& forall|track: int| 0 <= track < reached(lane) - 1 ==> #[trigger] told.closed[track]
        }),
{
    lemma_history_on_course(steps);
}

/// Once every track is done, every item that arrived has been sent: exactly once, to the channel of
/// its track, the tracks in the order of their numbers.
pub proof fn lemma_every_item_is_sent_once<C, T>(steps: Seq<LaneStep<C, T>>)
    requires
        is_history(steps),
        told_by(steps).all_closed(),
    ensures
        lane_history(steps).1 == told_by(steps).in_order(told_by(steps).channels.len() as int),
{
    lemma_history_on_course(steps);
    let lane = lane_history(steps).0;
    if lane.head < lane.next_seq {
        assert(told_by(steps).closed[lane.head]);
    }
}

} // verus!
