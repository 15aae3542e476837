//! One video input: the frames it has received and not yet shown.

use crate::channel::{Attempt, EventReceiver, TryRecvError};
use crate::clock::{told_elapsed, Clock};
use crate::frame::{Frame, PipelineEvent};
use crate::shared_pts::{or_else, SharedPts};
use crate::time::{distance, Duration, MAX_NANOS};
use crossbeam_channel::Receiver;
use std::collections::VecDeque;
use std::time::Instant;
use vstd::prelude::*;

verus! {

/// The most attempts to receive that one call makes, so that it ends even where a producer never
/// stops.
pub const MAX_ATTEMPTS: u64 = u64::MAX;

/// What an input reports about itself, each at most once.
#[derive(Debug, Clone, Copy, PartialEq, Eq, Structural)]
pub enum VideoInputEvent {
    /// The first item has arrived.
    Delivered,
    /// The first frame was handed out.
    Playing,
    /// The stream has ended.
    Eos,
}

/// Why no item was enqueued.
#[derive(Debug, Clone, Copy, PartialEq, Eq, Structural)]
pub enum EnqueueError {
    /// Nothing is waiting, or the input has not started.
    Empty,
    /// Nothing is waiting, and every sender is gone.
    Disconnected,
    /// A frame arrived whose timestamp, counted from the input's offset, is not representable. It
    /// was dropped.
    PtsOutOfRange,
}

/// How a run of attempts relates to the attempts it is held against.
pub enum RunEnd {
    /// It made exactly those attempts and ended with this answer.
    Complete(bool),
    /// It would have made more.
    RanOut,
    /// It ended before it made them all.
    Surplus,
}

/// Every attempt was answered by `channel`.
spec fn all_answered<T>(attempts: Seq<Attempt<T>>, channel: Receiver<T>) -> bool {
    forall|i: int| 0 <= i < attempts.len() ==> (#[trigger] attempts[i]).answered_by(channel)
}

/// `Complete` with this answer if no attempt is left over.
pub open spec fn ended<T>(answer: bool, left: Seq<Attempt<T>>) -> RunEnd {
    if left.len() == 0 {
        RunEnd::Complete(answer)
    } else {
        RunEnd::Surplus
    }
}

/// A frame or an end of stream for one output picture.
#[derive(Debug)]
pub struct FrameEvent<D> {
    pub required: bool,
    pub event: PipelineEvent<Frame<D>>,
}

/// What an input is, seen from outside: everything that decides what it does next.
pub struct VideoInputModel<D> {
    /// Frames in the order of their timestamps.
    pub queue: Seq<Frame<D>>,
    pub eos_received: bool,
    /// The timestamp of the first frame or sample of the input, once there was one.
    pub first_pts: Option<Duration>,
    pub delivered_sent: bool,
    pub playing_sent: bool,
    pub eos_sent: bool,
    /// What was reported and not yet collected.
    pub events: Seq<VideoInputEvent>,
    pub required: bool,
    pub offset: Option<Duration>,
}

impl<D> VideoInputModel<D> {
    /// `Delivered` is reported, unless it was before.
    pub open spec fn report_delivered(self) -> Self {
        if self.delivered_sent {
            self
        } else {
            VideoInputModel {
                delivered_sent: true,
                events: self.events.push(VideoInputEvent::Delivered),
                ..self
            }
        }
    }

    /// `Playing` is reported, unless it was before.
    pub open spec fn report_playing(self) -> Self {
        if self.playing_sent {
            self
        } else {
            VideoInputModel {
                playing_sent: true,
                events: self.events.push(VideoInputEvent::Playing),
                ..self
            }
        }
    }

    /// `Eos` is reported, unless it was before.
    pub open spec fn report_eos(self) -> Self {
        if self.eos_sent {
            self
        } else {
            VideoInputModel {
                eos_sent: true,
                events: self.events.push(VideoInputEvent::Eos),
                ..self
            }
        }
    }

    /// The newest frame in the queue is not older than `pts`.
    pub open spec fn has_frame_for(self, pts: Duration) -> bool {
        self.queue.len() > 0 && self.queue.last().pts.nanos >= pts.nanos
    }

    /// The input has an offset, and its start lies after `pts`.
    pub open spec fn starts_after(self, pts: Duration, queue_start_pts: Duration) -> bool {
        self.offset matches Some(offset) && queue_start_pts.nanos + offset.nanos > pts.nanos
    }

    /// The input takes items now: it has no offset, or the queue has started.
    pub open spec fn receives(self, queue_start_pts: Option<Duration>) -> bool {
        self.offset is None || queue_start_pts is Some
    }

    /// Each of `attempts` tried to take an item out of the channel if the input takes items now, and
    /// left the channel as it was if it does not.
    pub open spec fn asked_by(
        self,
        queue_start_pts: Option<Duration>,
        attempts: Seq<Attempt<PipelineEvent<Frame<D>>>>,
    ) -> bool {
        forall|i: int|
            0 <= i < attempts.len() ==> ((#[trigger] attempts[i]).received is Some
                <==> self.receives(queue_start_pts))
    }

    /// What one attempt to receive does.
    pub open spec fn after_attempt(
        self,
        queue_start_pts: Option<Duration>,
        attempt: Attempt<PipelineEvent<Frame<D>>>,
    ) -> (Self, Result<(), EnqueueError>) {
        let seen = if attempt.waiting {
            self.report_delivered()
        } else {
            self
        };
        if !self.receives(queue_start_pts) {
            (seen, Err(EnqueueError::Empty))
        } else {
            match attempt.received->0 {
                Err(TryRecvError::Empty) => (seen, Err(EnqueueError::Empty)),
                Err(TryRecvError::Disconnected) => (seen, Err(EnqueueError::Disconnected)),
                Ok(PipelineEvent::EOS) => (
                    VideoInputModel { eos_received: true, ..seen },
                    Ok(()),
                ),
                Ok(PipelineEvent::Data(frame)) => {
                    let first = or_else(self.first_pts, frame.pts);
                    let known = VideoInputModel { first_pts: Some(first), ..seen };
                    match self.offset {
                        None => (known.enqueued(frame, frame.pts), Ok(())),
                        Some(offset) => {
                            let shifted = queue_start_pts->0.nanos + offset.nanos + frame.pts.nanos;
                            if shifted > MAX_NANOS || shifted < first.nanos {
                                (known, Err(EnqueueError::PtsOutOfRange))
                            } else {
                                (
                                    known.enqueued(
                                        frame,
                                        Duration { nanos: (shifted - first.nanos) as u128 },
                                    ),
                                    Ok(()),
                                )
                            }
                        },
                    }
                },
            }
        }
    }

    /// `frame` joins the queue, to be shown at `pts`.
    pub open spec fn enqueued(self, frame: Frame<D>, pts: Duration) -> Self {
        VideoInputModel { queue: self.queue.push(Frame { pts, ..frame }), ..self }
    }

    /// What a run of attempts does that goes on until the queue reaches `pts` or an attempt fails:
    /// the state it ends in, and whether it reached `pts`.
    pub open spec fn filled_until(
        self,
        pts: Duration,
        queue_start_pts: Duration,
        attempts: Seq<Attempt<PipelineEvent<Frame<D>>>>,
    ) -> (Self, RunEnd)
        decreases attempts.len(),
    {
        if self.has_frame_for(pts) {
            (self, ended(true, attempts))
        } else if attempts.len() == 0 {
            (self, RunEnd::RanOut)
        } else {
            let (next, result) = self.after_attempt(Some(queue_start_pts), attempts[0]);
            match result {
                Err(_) => (next, ended(false, attempts.drop_first())),
                Ok(_) => next.filled_until(pts, queue_start_pts, attempts.drop_first()),
            }
        }
    }

    /// `after` and `ready` are what asking for readiness at `pts` gives, where the channel answered
    /// with `attempts`.
    pub open spec fn readied(
        self,
        pts: Duration,
        queue_start_pts: Duration,
        attempts: Seq<Attempt<PipelineEvent<Frame<D>>>>,
        after: Self,
        ready: bool,
    ) -> bool {
        if self.eos_received {
            ready && after == self && attempts.len() == 0
        } else {
            let (end, outcome) = self.filled_until(pts, queue_start_pts, attempts);
            &&& after == end
            &&& outcome is Complete || (outcome is RanOut && attempts.len() == MAX_ATTEMPTS)
            &&& self.asked_by(Some(queue_start_pts), attempts)
            &&& ready == (outcome == RunEnd::Complete(true) || after.eos_received
                || self.starts_after(pts, queue_start_pts))
        }
    }

    /// The queue without the frames before the one closest to `pts`.
    pub open spec fn trimmed(self, pts: Duration) -> Self {
        VideoInputModel { queue: self.queue.skip(closest_index(self.queue, pts)), ..self }
    }

    /// What dropping old frames does, with the answers of the channel where the queue was empty.
    pub open spec fn old_dropped(
        self,
        pts: Duration,
        queue_start_pts: Duration,
        attempts: Seq<Attempt<PipelineEvent<Frame<D>>>>,
    ) -> (Self, RunEnd)
        decreases attempts.len(),
    {
        if self.queue.len() > 0 {
            (self.trimmed(pts), ended(true, attempts))
        } else if attempts.len() == 0 {
            (self, RunEnd::RanOut)
        } else {
            let (next, result) = self.after_attempt(Some(queue_start_pts), attempts[0]);
            match result {
                Err(_) => (next, ended(true, attempts.drop_first())),
                Ok(_) => next.old_dropped(pts, queue_start_pts, attempts.drop_first()),
            }
        }
    }

    /// `after` is what dropping old frames gives, where the channel answered with `attempts`.
    pub open spec fn dropped_to(
        self,
        pts: Duration,
        queue_start_pts: Duration,
        attempts: Seq<Attempt<PipelineEvent<Frame<D>>>>,
        after: Self,
    ) -> bool {
        let (end, outcome) = self.old_dropped(pts, queue_start_pts, attempts);
        &&& after == end
        &&& self.asked_by(Some(queue_start_pts), attempts)
        &&& outcome is Complete || (outcome is RanOut && attempts.len() == MAX_ATTEMPTS)
    }

    /// The input has something to show at `pts`: its offset, or its first timestamp, has passed.
    pub open spec fn started_by(self, pts: Duration, queue_start_pts: Duration) -> bool {
        match self.offset {
            Some(offset) => queue_start_pts.nanos + offset.nanos < pts.nanos,
            None => self.first_pts is Some && self.first_pts->0.nanos < pts.nanos,
        }
    }

    /// The frame to show at `pts`: the oldest one left, once the input has started.
    pub open spec fn current_frame(self, pts: Duration, queue_start_pts: Duration) -> Option<
        Frame<D>,
    > {
        if self.started_by(pts, queue_start_pts) && self.queue.len() > 0 {
            Some(self.queue[0])
        } else {
            None
        }
    }

    /// What handing out a frame does, once the queue has been filled and trimmed: the last frame
    /// of a stream that has ended is given away, and the end of stream is announced once, when
    /// there is no frame left to hand out.
    pub open spec fn handed_out(self, pts: Duration, queue_start_pts: Duration) -> (
        Self,
        Option<FrameEvent<D>>,
    ) {
        let frame = self.current_frame(pts, queue_start_pts);
        let rest = if self.eos_received && self.queue.len() == 1 {
            VideoInputModel { queue: Seq::empty(), ..self }
        } else {
            self
        };
        match frame {
            Some(frame) => (
                rest.report_playing(),
                Some(FrameEvent { required: self.required, event: PipelineEvent::Data(frame) }),
            ),
            None => if self.eos_received && !self.eos_sent {
                (
                    rest.report_eos(),
                    Some(FrameEvent { required: true, event: PipelineEvent::EOS }),
                )
            } else {
                (rest, None)
            },
        }
    }

    /// The first `fill` of `attempts` are the answers to filling the queue, the others those to
    /// dropping old frames, and `after` and `event` are what asking for a frame then gives.
    pub open spec fn frame_taken(
        self,
        pts: Duration,
        queue_start_pts: Duration,
        attempts: Seq<Attempt<PipelineEvent<Frame<D>>>>,
        fill: int,
        after: Self,
        event: Option<FrameEvent<D>>,
    ) -> bool {
        &&& 0 <= fill <= attempts.len()
        &&& exists|filled: Self, ready: bool, trimmed: Self|
            {
                &&& #[trigger] self.readied(
                    pts,
                    queue_start_pts,
                    attempts.take(fill),
                    filled,
                    ready,
                )
                &&& #[trigger] filled.dropped_to(
                    pts,
                    queue_start_pts,
                    attempts.skip(fill),
                    trimmed,
                )
                &&& (after, event) == trimmed.handed_out(pts, queue_start_pts)
            }
    }

    /// What dropping stale frames before the start does: frames whose time has passed go, and
    /// where none is left another attempt is made.
    pub open spec fn stale_dropped(
        self,
        elapsed: Duration,
        attempts: Seq<Attempt<PipelineEvent<Frame<D>>>>,
    ) -> (Self, RunEnd)
        decreases attempts.len(), self.queue.len(),
    {
        if self.queue.len() > 0 {
            if self.queue[0].pts.nanos >= elapsed.nanos {
                (self, ended(true, attempts))
            } else {
                VideoInputModel { queue: self.queue.drop_first(), ..self }.stale_dropped(
                    elapsed,
                    attempts,
                )
            }
        } else if attempts.len() == 0 {
            (self, RunEnd::RanOut)
        } else {
            let (next, result) = self.after_attempt(None, attempts[0]);
            if result is Err || next.queue.len() == 0 {
                (next, ended(true, attempts.drop_first()))
            } else {
                next.stale_dropped(elapsed, attempts.drop_first())
            }
        }
    }

    /// `after` is what dropping stale frames gives at `elapsed`, where the channel answered with
    /// `attempts`.
    pub open spec fn stale_dropped_to(
        self,
        elapsed: Duration,
        attempts: Seq<Attempt<PipelineEvent<Frame<D>>>>,
        after: Self,
    ) -> bool {
        let (end, outcome) = self.stale_dropped(elapsed, attempts);
        &&& after == end
        &&& self.asked_by(None, attempts)
        &&& outcome is Complete || (outcome is RanOut && attempts.len() == MAX_ATTEMPTS)
    }
}

/// `index` is the first of the frames whose timestamp lies closest to `pts`.
pub open spec fn is_first_closest<D>(queue: Seq<Frame<D>>, pts: Duration, index: int) -> bool {
    &&& 0 <= index < queue.len()
    &&& forall|other: int|
        0 <= other < queue.len() ==> distance(
            queue[index].pts.nanos as int,
            pts.nanos as int,
        ) <= distance((#[trigger] queue[other]).pts.nanos as int, pts.nanos as int)
    &&& forall|other: int|
        0 <= other < index ==> distance(queue[index].pts.nanos as int, pts.nanos as int)
            < distance((#[trigger] queue[other]).pts.nanos as int, pts.nanos as int)
}

/// The first of the frames whose timestamp lies closest to `pts`.
pub open spec fn closest_index<D>(queue: Seq<Frame<D>>, pts: Duration) -> int {
    choose|index: int| is_first_closest(queue, pts, index)
}

proof fn lemma_closest_unique<D>(queue: Seq<Frame<D>>, pts: Duration, index: int)
    requires
        is_first_closest(queue, pts, index),
    ensures
        closest_index(queue, pts) == index,
{
    let chosen = closest_index(queue, pts);
    assert(is_first_closest(queue, pts, chosen));
    if chosen < index {
        assert(distance(queue[chosen].pts.nanos as int, pts.nanos as int) <= distance(
            queue[index].pts.nanos as int,
            pts.nanos as int,
        ));
    }
    if index < chosen {
        assert(distance(queue[index].pts.nanos as int, pts.nanos as int) <= distance(
            queue[chosen].pts.nanos as int,
            pts.nanos as int,
        ));
    }
}

/// The frames of one video input, received and not yet shown.
#[verifier::reject_recursive_types(D)]
pub struct VideoQueueInput<D> {
    queue: VecDeque<Frame<D>>,
    receiver: EventReceiver<PipelineEvent<Frame<D>>>,
    required: bool,
    offset_from_start: Option<Duration>,
    eos_received: bool,
    clock: Clock,
    shared_state: usize,
    delivered_sent: bool,
    playing_sent: bool,
    eos_sent: bool,
    events: Vec<VideoInputEvent>,
}

impl<D> VideoQueueInput<D> {
    /// What the input is; `shared` is the table its first timestamp is kept in.
    pub closed spec fn model(self, shared: Seq<Option<Duration>>) -> VideoInputModel<D> {
        VideoInputModel {
            queue: self.queue@,
            eos_received: self.eos_received,
            first_pts: shared[self.shared_state as int],
            delivered_sent: self.delivered_sent,
            playing_sent: self.playing_sent,
            eos_sent: self.eos_sent,
            events: self.events@,
            required: self.required,
            offset: self.offset_from_start,
        }
    }

    /// The slot of the shared table that holds the first timestamp.
    pub closed spec fn slot(self) -> int {
        self.shared_state as int
    }

    /// The channel that the input receives from.
    pub closed spec fn channel(self) -> Receiver<PipelineEvent<Frame<D>>> {
        self.receiver.channel()
    }

    /// The moment from which timestamps count.
    pub closed spec fn sync_point(self) -> Instant {
        self.clock.since()
    }

    /// Every reading of the clock that counts from that moment.
    pub closed spec fn readings(self) -> Seq<Option<Duration>> {
        self.clock.readings()
    }

    /// Every attempt made to receive.
    pub closed spec fn attempts(self) -> Seq<Attempt<PipelineEvent<Frame<D>>>> {
        self.receiver.attempts()
    }

    /// The attempts made since the input was `before`.
    pub open spec fn attempts_since(self, before: Self) -> Seq<Attempt<PipelineEvent<Frame<D>>>> {
        self.attempts().skip(before.attempts().len() as int)
    }

    /// The same channel, and the same moment from which timestamps count.
    pub open spec fn same_source(self, before: Self) -> bool {
        self.channel() == before.channel() && self.sync_point() == before.sync_point()
    }

    /// The same input at a later time: what never changes is as it was, and every attempt made
    /// before is still on record.
    pub open spec fn follows(self, before: Self) -> bool {
        &&& self.slot() == before.slot()
        &&& self.same_source(before)
        &&& before.attempts().len() <= self.attempts().len()
        &&& self.attempts().take(before.attempts().len() as int) == before.attempts()
        &&& forall|i: int|
            before.attempts().len() <= i < self.attempts().len() ==> (
            #[trigger] self.attempts()[i]).answered_by(self.channel())
    }

    /// The input's offset, counted from `queue_start_pts`, is representable.
    pub open spec fn offset_fits(self, queue_start_pts: Duration) -> bool {
        self.offset() is Some ==> queue_start_pts.nanos + self.offset()->0.nanos <= MAX_NANOS
    }

    /// The configured offset from the start of the queue.
    pub closed spec fn offset(self) -> Option<Duration> {
        self.offset_from_start
    }

    /// An input that has received nothing yet. Its first timestamp is kept in slot `shared_state`.
    pub fn new(
        receiver: Receiver<PipelineEvent<Frame<D>>>,
        required: bool,
        offset_from_start: Option<Duration>,
        shared_state: usize,
        sync_point: Instant,
    ) -> (r: Self)
        ensures
            r.slot() == shared_state,
            r.channel() == receiver,
            r.sync_point() == sync_point,
            r.readings() == Seq::<Option<Duration>>::empty(),
            r.attempts().len() == 0,
            r.offset() == offset_from_start,
            forall|shared: Seq<Option<Duration>>| #[trigger]
                r.model(shared) == (VideoInputModel {
                    queue: Seq::<Frame<D>>::empty(),
                    eos_received: false,
                    first_pts: shared[shared_state as int],
                    delivered_sent: false,
                    playing_sent: false,
                    eos_sent: false,
                    events: Seq::<VideoInputEvent>::empty(),
                    required,
                    offset: offset_from_start,
                }),
    {
        VideoQueueInput {
            queue: VecDeque::new(),
            receiver: EventReceiver::new(receiver),
            required,
            offset_from_start,
            eos_received: false,
            clock: Clock::new(sync_point),
            shared_state,
            delivered_sent: false,
            playing_sent: false,
            eos_sent: false,
            events: Vec::new(),
        }
    }

    /// Puts what one attempt to receive brought into the queue.
    pub fn accept(
        &mut self,
        queue_start_pts: Option<Duration>,
        attempt: Attempt<PipelineEvent<Frame<D>>>,
        shared: &mut SharedPts,
    ) -> (r: Result<(), EnqueueError>)
        requires
            old(self).slot() < old(shared)@.len(),
            queue_start_pts is Some ==> old(self).offset_fits(queue_start_pts->0),
            attempt.received is Some <==> old(self).model(old(shared)@).receives(queue_start_pts),
        ensures
            old(self).model(old(shared)@).after_attempt(queue_start_pts, attempt) == (
                final(self).model(final(shared)@),
                r,
            ),
            final(self).slot() == old(self).slot(),
            final(self).same_source(*old(self)),
            final(self).readings() == old(self).readings(),
            final(self).offset() == old(self).offset(),
            final(self).attempts() == old(self).attempts(),
            final(shared)@ == old(shared)@.update(
                old(self).slot(),
                final(self).model(final(shared)@).first_pts,
            ),
    {
        assert(shared@.update(self.slot(), shared@[self.slot()]) =~= shared@);
        if attempt.waiting && !self.delivered_sent {
            self.delivered_sent = true;
            self.events.push(VideoInputEvent::Delivered);
        }
        let received = match attempt.received {
            Some(received) => received,
            None => {
                return Err(EnqueueError::Empty);
            },
        };
        match received {
            Err(TryRecvError::Empty) => Err(EnqueueError::Empty),
            Err(TryRecvError::Disconnected) => Err(EnqueueError::Disconnected),
            Ok(PipelineEvent::EOS) => {
                self.eos_received = true;
                Ok(())
            },
            Ok(PipelineEvent::Data(frame)) => {
                let first_pts = shared.get_or_init(self.shared_state, frame.pts);
                let pts = match (self.offset_from_start, queue_start_pts) {
                    (Some(offset), Some(start)) => {
                        let offset_pts = start.plus(offset);
                        match offset_pts.checked_add(frame.pts) {
                            Some(shifted) => {
                                if shifted.nanos < first_pts.nanos {
                                    return Err(EnqueueError::PtsOutOfRange);
                                }
                                Duration { nanos: shifted.nanos - first_pts.nanos }
                            },
                            None => {
                                return Err(EnqueueError::PtsOutOfRange);
                            },
                        }
                    },
                    _ => frame.pts,
                };
                self.queue.push_back(Frame { data: frame.data, pts, resolution: frame.resolution });
                Ok(())
            },
        }
    }

    /// Tries to receive one item and puts it into the queue. Before the queue has started, an
    /// input with an offset receives nothing.
    pub fn try_enqueue_frame(
        &mut self,
        queue_start_pts: Option<Duration>,
        shared: &mut SharedPts,
    ) -> (r: Result<(), EnqueueError>)
        requires
            old(self).slot() < old(shared)@.len(),
            queue_start_pts is Some ==> old(self).offset_fits(queue_start_pts->0),
        ensures
            final(self).attempts().len() == old(self).attempts().len() + 1,
            old(self).model(old(shared)@).after_attempt(
                queue_start_pts,
                final(self).attempts().last(),
            ) == (final(self).model(final(shared)@), r),
            final(self).attempts().last().received is Some <==> old(self).model(
                old(shared)@,
            ).receives(queue_start_pts),
            final(self).follows(*old(self)),
            final(self).readings() == old(self).readings(),
            final(self).attempts() == old(self).attempts().push(final(self).attempts().last()),
            final(self).offset() == old(self).offset(),
            final(shared)@ == old(shared)@.update(
                old(self).slot(),
                final(self).model(final(shared)@).first_pts,
            ),
    {
        let receive = self.offset_from_start.is_none() || queue_start_pts.is_some();
        let attempt = self.receiver.attempt(receive);
        assert(self.attempts().take(old(self).attempts().len() as int) =~= old(self).attempts());
        self.accept(queue_start_pts, attempt, shared)
    }

    /// Fills the queue until it reaches `next_buffer_pts`, and tells whether the input has enough to
    /// serve that moment. An input whose offset still lies ahead of it is ready, though it shows
    /// nothing yet. Once the end of the stream has been received the input is always ready.
    pub fn try_enqueue_until_ready_for_pts(
        &mut self,
        next_buffer_pts: Duration,
        queue_start_pts: Duration,
        shared: &mut SharedPts,
    ) -> (ready: bool)
        requires
            old(self).slot() < old(shared)@.len(),
            old(self).offset_fits(queue_start_pts),
        ensures
            final(self).follows(*old(self)),
            final(self).readings() == old(self).readings(),
            old(self).model(old(shared)@).readied(
                next_buffer_pts,
                queue_start_pts,
                final(self).attempts_since(*old(self)),
                final(self).model(final(shared)@),
                ready,
            ),
            final(self).offset() == old(self).offset(),
            final(shared)@ == old(shared)@.update(
                old(self).slot(),
                final(self).model(final(shared)@).first_pts,
            ),
    {
        let ghost before = *self;
        let ghost slots = shared@;
        let ghost start = self.model(shared@);
        let ghost mut made: Seq<Attempt<PipelineEvent<Frame<D>>>> = Seq::empty();
        assert(shared@.update(self.slot(), shared@[self.slot()]) =~= shared@);
        assert(self.attempts().take(self.attempts().len() as int) =~= self.attempts());
        if self.eos_received {
            return true;
        }
        let mut attempts: u64 = 0;
        assert forall|rest: Seq<Attempt<PipelineEvent<Frame<D>>>>|
            #[trigger] start.filled_until(next_buffer_pts, queue_start_pts, made + rest)
                == self.model(shared@).filled_until(next_buffer_pts, queue_start_pts, rest) by {
            assert(made + rest =~= rest);
        }
        while attempts < MAX_ATTEMPTS && !self.reaches(next_buffer_pts, Ghost(shared@))
            invariant
                before == *old(self),
                slots == old(shared)@,
                0 <= before.slot() < slots.len(),
                self.slot() == before.slot(),
                self.same_source(before),
                self.readings() == before.readings(),
                self.offset() == before.offset(),
                before.offset_fits(queue_start_pts),
                !start.eos_received,
                start == before.model(slots),
                self.attempts() == before.attempts() + made,
                made.len() == attempts,
                all_answered(made, before.channel()),
                start.asked_by(Some(queue_start_pts), made),
                shared@ == slots.update(before.slot(), self.model(shared@).first_pts),
                forall|rest: Seq<Attempt<PipelineEvent<Frame<D>>>>|
                    #[trigger] start.filled_until(next_buffer_pts, queue_start_pts, made + rest)
                        == self.model(shared@).filled_until(next_buffer_pts, queue_start_pts, rest),
            decreases MAX_ATTEMPTS - attempts,
        {
            let ghost current = self.model(shared@);
            let ghost made_before = made;
            let result = self.try_enqueue_frame(Some(queue_start_pts), shared);
            let ghost attempt = self.attempts().last();
            proof {
                made = made.push(attempt);
                assert(self.attempts() =~= before.attempts() + made);
                assert forall|rest: Seq<Attempt<PipelineEvent<Frame<D>>>>|
                    #[trigger] start.filled_until(next_buffer_pts, queue_start_pts, made + rest)
                        == current.filled_until(
                        next_buffer_pts,
                        queue_start_pts,
                        seq![attempt] + rest,
                    ) by {
                    assert(made + rest =~= made_before + (seq![attempt] + rest));
                }
                assert forall|rest: Seq<Attempt<PipelineEvent<Frame<D>>>>|
                    (seq![attempt] + rest).drop_first() == rest by {
                    assert((seq![attempt] + rest).drop_first() =~= rest);
                }
                assert(shared@ =~= slots.update(before.slot(), self.model(shared@).first_pts));
            }
            attempts = attempts + 1;
            if result.is_err() {
                proof {
                    let none = Seq::<Attempt<PipelineEvent<Frame<D>>>>::empty();
                    assert(made + none =~= made);
                    assert((seq![attempt] + none).drop_first() =~= none);
                    lemma_attempts_since(before, *self, made);
                }
                return self.eos_received || self.lies_ahead(next_buffer_pts, queue_start_pts);
            }
        }
        proof {
            let none = Seq::<Attempt<PipelineEvent<Frame<D>>>>::empty();
            assert(made + none =~= made);
            lemma_attempts_since(before, *self, made);
        }
        self.eos_received || self.lies_ahead(next_buffer_pts, queue_start_pts) || self.reaches(
            next_buffer_pts,
            Ghost(shared@),
        )
    }

    /// Drops the frames before the one closest to `next_buffer_pts`. Frames arrive in the order of
    /// their timestamps, so none of those will be needed again. Where the queue is empty, tries to
    /// fill it first.
    pub fn drop_old_frames(
        &mut self,
        next_buffer_pts: Duration,
        queue_start_pts: Duration,
        shared: &mut SharedPts,
    )
        requires
            old(self).slot() < old(shared)@.len(),
            old(self).offset_fits(queue_start_pts),
        ensures
            final(self).follows(*old(self)),
            final(self).readings() == old(self).readings(),
            old(self).model(old(shared)@).dropped_to(
                next_buffer_pts,
                queue_start_pts,
                final(self).attempts_since(*old(self)),
                final(self).model(final(shared)@),
            ),
            final(self).offset() == old(self).offset(),
            final(shared)@ == old(shared)@.update(
                old(self).slot(),
                final(self).model(final(shared)@).first_pts,
            ),
    {
        let ghost before = *self;
        let ghost slots = shared@;
        let ghost start = self.model(shared@);
        let ghost mut made: Seq<Attempt<PipelineEvent<Frame<D>>>> = Seq::empty();
        assert(shared@.update(self.slot(), shared@[self.slot()]) =~= shared@);
        let mut attempts: u64 = 0;
        assert forall|rest: Seq<Attempt<PipelineEvent<Frame<D>>>>|
            #[trigger] start.old_dropped(next_buffer_pts, queue_start_pts, made + rest)
                == self.model(shared@).old_dropped(next_buffer_pts, queue_start_pts, rest) by {
            assert(made + rest =~= rest);
        }
        while attempts < MAX_ATTEMPTS && self.queue.len() == 0
            invariant
                before == *old(self),
                slots == old(shared)@,
                0 <= before.slot() < slots.len(),
                self.slot() == before.slot(),
                self.same_source(before),
                self.readings() == before.readings(),
                self.offset() == before.offset(),
                before.offset_fits(queue_start_pts),
                start == before.model(slots),
                self.attempts() == before.attempts() + made,
                made.len() == attempts,
                all_answered(made, before.channel()),
                start.asked_by(Some(queue_start_pts), made),
                shared@ == slots.update(before.slot(), self.model(shared@).first_pts),
                forall|rest: Seq<Attempt<PipelineEvent<Frame<D>>>>|
                    #[trigger] start.old_dropped(next_buffer_pts, queue_start_pts, made + rest)
                        == self.model(shared@).old_dropped(next_buffer_pts, queue_start_pts, rest),
            decreases MAX_ATTEMPTS - attempts,
        {
            let ghost current = self.model(shared@);
            let ghost made_before = made;
            let result = self.try_enqueue_frame(Some(queue_start_pts), shared);
            let ghost attempt = self.attempts().last();
            proof {
                made = made.push(attempt);
                assert(self.attempts() =~= before.attempts() + made);
                assert forall|rest: Seq<Attempt<PipelineEvent<Frame<D>>>>|
                    #[trigger] start.old_dropped(next_buffer_pts, queue_start_pts, made + rest)
                        == current.old_dropped(
                        next_buffer_pts,
                        queue_start_pts,
                        seq![attempt] + rest,
                    ) by {
                    assert(made + rest =~= made_before + (seq![attempt] + rest));
                }
                assert forall|rest: Seq<Attempt<PipelineEvent<Frame<D>>>>|
                    (seq![attempt] + rest).drop_first() == rest by {
                    assert((seq![attempt] + rest).drop_first() =~= rest);
                }
                assert(shared@ =~= slots.update(before.slot(), self.model(shared@).first_pts));
            }
            attempts = attempts + 1;
            if result.is_err() {
                proof {
                    let none = Seq::<Attempt<PipelineEvent<Frame<D>>>>::empty();
                    assert(made + none =~= made);
                    assert((seq![attempt] + none).drop_first() =~= none);
                    lemma_attempts_since(before, *self, made);
                }
                return;
            }
        }
        let ghost untrimmed = self.model(shared@);
        if self.queue.len() > 0 {
            let index: usize = self.closest_frame(next_buffer_pts);
            proof {
                lemma_closest_unique(self.queue@, next_buffer_pts, index as int);
            }
            self.discard(index);
        }
        proof {
            let none = Seq::<Attempt<PipelineEvent<Frame<D>>>>::empty();
            assert(made + none =~= made);
            assert(self.queue@.len() > 0 ==> self.model(shared@) == untrimmed.trimmed(
                next_buffer_pts,
            ));
            lemma_attempts_since(before, *self, made);
        }
    }

    /// The first frame whose timestamp is closest to `pts`.
    fn closest_frame(&self, pts: Duration) -> (index: usize)
        requires
            self.queue@.len() > 0,
        ensures
            is_first_closest(self.queue@, pts, index as int),
    {
        let mut best: usize = 0;
        let mut index: usize = 1;
        while index < self.queue.len()
            invariant
                1 <= index <= self.queue@.len(),
                is_first_closest(self.queue@.take(index as int), pts, best as int),
            decreases self.queue@.len() - index,
        {
            let ghost seen = self.queue@.take(index as int);
            let ghost more = self.queue@.take(index + 1);
            assert(more =~= seen.push(self.queue@[index as int]));
            let apart = self.queue[index].pts.abs_diff(pts);
            let least = self.queue[best].pts.abs_diff(pts);
            assert(forall|other: int| 0 <= other < seen.len() ==> seen[other] == more[other]);
            if apart.nanos < least.nanos {
                assert forall|other: int| 0 <= other < index implies distance(
                    more[index as int].pts.nanos as int,
                    pts.nanos as int,
                ) < distance((#[trigger] more[other]).pts.nanos as int, pts.nanos as int) by {
                    assert(seen[other] == more[other]);
                }
                best = index;
            } else {
                assert forall|other: int| 0 <= other < more.len() implies distance(
                    more[best as int].pts.nanos as int,
                    pts.nanos as int,
                ) <= distance((#[trigger] more[other]).pts.nanos as int, pts.nanos as int) by {
                    if other < index {
                        assert(seen[other] == more[other]);
                    }
                }
                assert forall|other: int| 0 <= other < best implies distance(
                    more[best as int].pts.nanos as int,
                    pts.nanos as int,
                ) < distance((#[trigger] more[other]).pts.nanos as int, pts.nanos as int) by {
                    assert(seen[other] == more[other]);
                }
            }
            index = index + 1;
        }
        assert(self.queue@.take(index as int) =~= self.queue@);
        best
    }

    /// Drops the `count` oldest frames.
    fn discard(&mut self, count: usize)
        requires
            count <= old(self).queue@.len(),
        ensures
            *final(self) == (VideoQueueInput { queue: final(self).queue, ..*old(self) }),
            final(self).queue@ == old(self).queue@.skip(count as int),
    {
        let mut done: usize = 0;
        assert(self.queue@ =~= old(self).queue@.skip(0));
        while done < count
            invariant
                done <= count <= old(self).queue@.len(),
                *self == (VideoQueueInput { queue: self.queue, ..*old(self) }),
                self.queue@ == old(self).queue@.skip(done as int),
            decreases count - done,
        {
            let _ = self.queue.pop_front();
            done = done + 1;
            assert(self.queue@ =~= old(self).queue@.skip(done as int));
        }
    }

    /// The frame to show at `buffer_pts`, or the end of the stream. Frames older than the one
    /// shown are dropped. Whether the input is required plays no part in what is found.
    pub fn get_frame(
        &mut self,
        buffer_pts: Duration,
        queue_start_pts: Duration,
        shared: &mut SharedPts,
    ) -> (event: Option<FrameEvent<D>>)
        requires
            old(self).slot() < old(shared)@.len(),
            old(self).offset_fits(queue_start_pts),
        ensures
            final(self).follows(*old(self)),
            final(self).readings() == old(self).readings(),
            exists|fill: int|
                old(self).model(old(shared)@).frame_taken(
                    buffer_pts,
                    queue_start_pts,
                    final(self).attempts_since(*old(self)),
                    fill,
                    final(self).model(final(shared)@),
                    event,
                ),
            final(self).offset() == old(self).offset(),
            final(shared)@ == old(shared)@.update(
                old(self).slot(),
                final(self).model(final(shared)@).first_pts,
            ),
    {
        let ghost before = *self;
        let ghost before_shared = shared@;
        let ready = self.try_enqueue_until_ready_for_pts(buffer_pts, queue_start_pts, shared);
        let ghost filled = *self;
        let ghost filled_shared = shared@;
        self.drop_old_frames(buffer_pts, queue_start_pts, shared);
        let ghost trimmed = *self;
        proof {
            let made = self.attempts_since(before);
            let fill = filled.attempts_since(before).len() as int;
            assert(filled.attempts() =~= before.attempts() + filled.attempts_since(before));
            assert(self.attempts() =~= filled.attempts() + self.attempts_since(filled));
            assert(made.take(fill) =~= filled.attempts_since(before));
            assert(made.skip(fill) =~= self.attempts_since(filled));
            assert(self.attempts().take(before.attempts().len() as int) =~= before.attempts());
            assert(shared@ =~= before_shared.update(before.slot(), self.model(shared@).first_pts));
        }
        let event = self.hand_out(buffer_pts, queue_start_pts, shared);
        proof {
            let made = self.attempts_since(before);
            let fill = filled.attempts_since(before).len() as int;
            let start = before.model(before_shared);
            assert(start.readied(
                buffer_pts,
                queue_start_pts,
                made.take(fill),
                filled.model(filled_shared),
                ready,
            ));
            assert(filled.model(filled_shared).dropped_to(
                buffer_pts,
                queue_start_pts,
                made.skip(fill),
                trimmed.model(shared@),
            ));
            assert(start.frame_taken(
                buffer_pts,
                queue_start_pts,
                made,
                fill,
                self.model(shared@),
                event,
            ));
        }
        event
    }

    /// Hands out the frame to show at `buffer_pts` from a queue that has been filled and trimmed.
    pub fn hand_out(
        &mut self,
        buffer_pts: Duration,
        queue_start_pts: Duration,
        shared: &SharedPts,
    ) -> (event: Option<FrameEvent<D>>)
        requires
            old(self).slot() < shared@.len(),
            old(self).offset_fits(queue_start_pts),
        ensures
            (final(self).model(shared@), event) == old(self).model(shared@).handed_out(
                buffer_pts,
                queue_start_pts,
            ),
            final(self).slot() == old(self).slot(),
            final(self).same_source(*old(self)),
            final(self).readings() == old(self).readings(),
            final(self).offset() == old(self).offset(),
            final(self).attempts() == old(self).attempts(),
    {
        let started = match self.offset_from_start {
            Some(offset) => queue_start_pts.plus(offset).nanos < buffer_pts.nanos,
            None => match shared.get(self.shared_state) {
                Some(first_pts) => first_pts.nanos < buffer_pts.nanos,
                None => false,
            },
        };
        let frame = if started && self.queue.len() > 0 {
            Some(self.queue[0].share())
        } else {
            None
        };
        if self.eos_received && self.queue.len() == 1 {
            let _ = self.queue.pop_front();
            assert(self.queue@ =~= Seq::<Frame<D>>::empty());
        }
        match frame {
            Some(frame) => {
                if !self.playing_sent {
                    self.playing_sent = true;
                    self.events.push(VideoInputEvent::Playing);
                }
                Some(FrameEvent { required: self.required, event: PipelineEvent::Data(frame) })
            },
            None => {
                if self.eos_received && !self.eos_sent {
                    self.eos_sent = true;
                    self.events.push(VideoInputEvent::Eos);
                    Some(FrameEvent { required: true, event: PipelineEvent::EOS })
                } else {
                    None
                }
            },
        }
    }

    /// Drops frames that no output picture will need, before the queue has started: those whose
    /// time, counted from the sync point, has passed.
    pub fn drop_old_frames_before_start(&mut self, shared: &mut SharedPts)
        requires
            old(self).slot() < old(shared)@.len(),
        ensures
            final(self).follows(*old(self)),
            exists|elapsed: Duration|
                {
                    &&& elapsed.representable()
                    &&& told_elapsed(old(self).sync_point(), elapsed)
                    &&& final(self).readings() == old(self).readings().push(Some(elapsed))
                    &&& #[trigger] old(self).model(old(shared)@).stale_dropped_to(
                        elapsed,
                        final(self).attempts_since(*old(self)),
                        final(self).model(final(shared)@),
                    )
                },
            final(self).offset() == old(self).offset(),
            final(shared)@ == old(shared)@.update(
                old(self).slot(),
                final(self).model(final(shared)@).first_pts,
            ),
    {
        let elapsed = self.clock.elapsed();
        let ghost read = *self;
        assert(read.model(shared@) == old(self).model(old(shared)@));
        self.drop_stale_frames(elapsed, shared);
        assert(self.attempts_since(read) == self.attempts_since(*old(self)));
    }

    /// Drops the frames whose time has passed when `elapsed` has gone by since the sync point.
    pub fn drop_stale_frames(&mut self, elapsed: Duration, shared: &mut SharedPts)
        requires
            old(self).slot() < old(shared)@.len(),
        ensures
            final(self).follows(*old(self)),
            final(self).readings() == old(self).readings(),
            old(self).model(old(shared)@).stale_dropped_to(
                elapsed,
                final(self).attempts_since(*old(self)),
                final(self).model(final(shared)@),
            ),
            final(self).offset() == old(self).offset(),
            final(shared)@ == old(shared)@.update(
                old(self).slot(),
                final(self).model(final(shared)@).first_pts,
            ),
    {
        let ghost before = *self;
        let ghost slots = shared@;
        let ghost start = self.model(shared@);
        let ghost mut made: Seq<Attempt<PipelineEvent<Frame<D>>>> = Seq::empty();
        assert(shared@.update(self.slot(), shared@[self.slot()]) =~= shared@);
        let mut attempts: u64 = 0;
        assert forall|rest: Seq<Attempt<PipelineEvent<Frame<D>>>>|
            #[trigger] start.stale_dropped(elapsed, made + rest) == self.model(
                shared@,
            ).stale_dropped(elapsed, rest) by {
            assert(made + rest =~= rest);
        }
        loop
            invariant
                before == *old(self),
                slots == old(shared)@,
                0 <= before.slot() < slots.len(),
                self.slot() == before.slot(),
                self.same_source(before),
                self.readings() == before.readings(),
                self.offset() == before.offset(),
                start == before.model(slots),
                self.attempts() == before.attempts() + made,
                made.len() == attempts,
                all_answered(made, before.channel()),
                start.asked_by(None, made),
                shared@ == slots.update(before.slot(), self.model(shared@).first_pts),
                forall|rest: Seq<Attempt<PipelineEvent<Frame<D>>>>|
                    #[trigger] start.stale_dropped(elapsed, made + rest) == self.model(
                        shared@,
                    ).stale_dropped(elapsed, rest),
            decreases MAX_ATTEMPTS - attempts, self.queue@.len(),
        {
            let ghost none = Seq::<Attempt<PipelineEvent<Frame<D>>>>::empty();
            proof {
                assert(made + none =~= made);
                lemma_attempts_since(before, *self, made);
            }
            let ghost current = self.model(shared@);
            if self.queue.len() == 0 {
                if attempts == MAX_ATTEMPTS {
                    return;
                }
                let ghost made_before = made;
                let result = self.try_enqueue_frame(None, shared);
                let ghost attempt = self.attempts().last();
                proof {
                    made = made.push(attempt);
                    assert(self.attempts() =~= before.attempts() + made);
                    assert forall|rest: Seq<Attempt<PipelineEvent<Frame<D>>>>|
                        #[trigger] start.stale_dropped(elapsed, made + rest)
                            == current.stale_dropped(elapsed, seq![attempt] + rest) by {
                        assert(made + rest =~= made_before + (seq![attempt] + rest));
                    }
                    assert forall|rest: Seq<Attempt<PipelineEvent<Frame<D>>>>|
                        (seq![attempt] + rest).drop_first() == rest by {
                        assert((seq![attempt] + rest).drop_first() =~= rest);
                    }
                    assert(shared@ =~= slots.update(before.slot(), self.model(shared@).first_pts));
                    assert(made + none =~= made);
                    lemma_attempts_since(before, *self, made);
                }
                attempts = attempts + 1;
                if result.is_err() || self.queue.len() == 0 {
                    return;
                }
            } else {
                if self.queue[0].pts.nanos >= elapsed.nanos {
                    return;
                }
                let _ = self.queue.pop_front();
                proof {
                    assert(self.queue@ =~= current.queue.drop_first());
                    assert(self.model(shared@) == (VideoInputModel {
                        queue: current.queue.drop_first(),
                        ..current
                    }));
                }
            }
        }
    }

    /// Whether the input's offset, counted from `queue_start_pts`, is representable.
    pub fn accepts_start(&self, queue_start_pts: Duration) -> (r: bool)
        ensures
            r == self.offset_fits(queue_start_pts),
    {
        match self.offset_from_start {
            Some(offset) => queue_start_pts.nanos <= MAX_NANOS && offset.nanos <= MAX_NANOS
                - queue_start_pts.nanos,
            None => true,
        }
    }

    /// Whether output pictures wait for this input.
    pub fn required(&self) -> (r: bool)
        ensures
            forall|shared: Seq<Option<Duration>>| r == (#[trigger] self.model(shared)).required,
    {
        self.required
    }

    /// Takes what was reported since the last call.
    pub fn take_events(&mut self) -> (r: Vec<VideoInputEvent>)
        ensures
            forall|shared: Seq<Option<Duration>>| #[trigger]
                final(self).model(shared) == (VideoInputModel {
                    events: Seq::<VideoInputEvent>::empty(),
                    ..old(self).model(shared)
                }) && r@ == old(self).model(shared).events,
            final(self).slot() == old(self).slot(),
            final(self).same_source(*old(self)),
            final(self).readings() == old(self).readings(),
            final(self).offset() == old(self).offset(),
            final(self).attempts() == old(self).attempts(),
    {
        let mut taken: Vec<VideoInputEvent> = Vec::new();
        taken.append(&mut self.events);
        assert(taken@ =~= old(self).events@);
        taken
    }

    /// The input has an offset, and its start lies after `pts`.
    fn lies_ahead(&self, pts: Duration, queue_start_pts: Duration) -> (r: bool)
        requires
            self.offset_fits(queue_start_pts),
        ensures
            forall|shared: Seq<Option<Duration>>|
                r == (#[trigger] self.model(shared)).starts_after(pts, queue_start_pts),
    {
        match self.offset_from_start {
            Some(offset) => queue_start_pts.plus(offset).nanos > pts.nanos,
            None => false,
        }
    }

    /// The newest frame in the queue is not older than `pts`.
    fn reaches(&self, pts: Duration, Ghost(shared): Ghost<Seq<Option<Duration>>>) -> (r: bool)
        ensures
            r == self.model(shared).has_frame_for(pts),
    {
        let len: usize = self.queue.len();
        len > 0 && self.queue[len - 1].pts.nanos >= pts.nanos
    }
}

/// A run that fills the queue keeps what was announced and never un-ends a stream.
proof fn lemma_filling_keeps<D>(
    before: VideoInputModel<D>,
    pts: Duration,
    queue_start_pts: Duration,
    attempts: Seq<Attempt<PipelineEvent<Frame<D>>>>,
)
    ensures
        before.filled_until(pts, queue_start_pts, attempts).0.eos_sent == before.eos_sent,
        before.filled_until(pts, queue_start_pts, attempts).0.playing_sent == before.playing_sent,
        before.filled_until(pts, queue_start_pts, attempts).0.required == before.required,
        before.filled_until(pts, queue_start_pts, attempts).0.offset == before.offset,
        before.first_pts is Some ==> before.filled_until(
            pts,
            queue_start_pts,
            attempts,
        ).0.first_pts == before.first_pts,
        before.eos_received ==> before.filled_until(
            pts,
            queue_start_pts,
            attempts,
        ).0.eos_received,
    decreases attempts.len(),
{
    if !before.has_frame_for(pts) && attempts.len() > 0 {
        let (next, result) = before.after_attempt(Some(queue_start_pts), attempts[0]);
        if result is Ok {
            lemma_filling_keeps(next, pts, queue_start_pts, attempts.drop_first());
        }
    }
}

/// A run that drops old frames keeps what was announced and never un-ends a stream.
proof fn lemma_dropping_keeps<D>(
    before: VideoInputModel<D>,
    pts: Duration,
    queue_start_pts: Duration,
    attempts: Seq<Attempt<PipelineEvent<Frame<D>>>>,
)
    ensures
        before.old_dropped(pts, queue_start_pts, attempts).0.eos_sent == before.eos_sent,
        before.old_dropped(pts, queue_start_pts, attempts).0.playing_sent == before.playing_sent,
        before.first_pts is Some ==> before.old_dropped(
            pts,
            queue_start_pts,
            attempts,
        ).0.first_pts == before.first_pts,
        before.eos_received ==> before.old_dropped(pts, queue_start_pts, attempts).0.eos_received,
    decreases attempts.len(),
{
    if before.queue.len() == 0 && attempts.len() > 0 {
        let (next, result) = before.after_attempt(Some(queue_start_pts), attempts[0]);
        if result is Ok {
            lemma_dropping_keeps(next, pts, queue_start_pts, attempts.drop_first());
        }
    }
}

/// The first timestamp, once it is known, stays what it is, whatever arrives later.
pub proof fn lemma_first_pts_is_kept<D>(
    before: VideoInputModel<D>,
    pts: Duration,
    queue_start_pts: Duration,
    attempts: Seq<Attempt<PipelineEvent<Frame<D>>>>,
    fill: int,
    after: VideoInputModel<D>,
    event: Option<FrameEvent<D>>,
)
    requires
        before.frame_taken(pts, queue_start_pts, attempts, fill, after, event),
        before.first_pts is Some,
    ensures
        after.first_pts == before.first_pts,
{
    let (filled, ready, trimmed) = choose|
        filled: VideoInputModel<D>,
        ready: bool,
        trimmed: VideoInputModel<D>,
    |
        {
            &&& #[trigger] before.readied(pts, queue_start_pts, attempts.take(fill), filled, ready)
            &&& #[trigger] filled.dropped_to(pts, queue_start_pts, attempts.skip(fill), trimmed)
            &&& (after, event) == trimmed.handed_out(pts, queue_start_pts)
        };
    lemma_filling_keeps(before, pts, queue_start_pts, attempts.take(fill));
    lemma_dropping_keeps(filled, pts, queue_start_pts, attempts.skip(fill));
}

/// The end of the stream is handed out at most once: whoever asks for a frame after it was
/// announced never gets it again, and it stays announced.
pub proof fn lemma_eos_handed_out_once<D>(
    before: VideoInputModel<D>,
    pts: Duration,
    queue_start_pts: Duration,
    attempts: Seq<Attempt<PipelineEvent<Frame<D>>>>,
    fill: int,
    after: VideoInputModel<D>,
    event: Option<FrameEvent<D>>,
)
    requires
        before.frame_taken(pts, queue_start_pts, attempts, fill, after, event),
    ensures
        before.eos_sent ==> after.eos_sent && !(event is Some && event->0.event is EOS),
        event is Some && event->0.event is EOS ==> after.eos_sent && after.eos_received,
{
    let (filled, ready, trimmed) = choose|
        filled: VideoInputModel<D>,
        ready: bool,
        trimmed: VideoInputModel<D>,
    |
        {
            &&& #[trigger] before.readied(pts, queue_start_pts, attempts.take(fill), filled, ready)
            &&& #[trigger] filled.dropped_to(pts, queue_start_pts, attempts.skip(fill), trimmed)
            &&& (after, event) == trimmed.handed_out(pts, queue_start_pts)
        };
    lemma_filling_keeps(before, pts, queue_start_pts, attempts.take(fill));
    lemma_dropping_keeps(filled, pts, queue_start_pts, attempts.skip(fill));
}

/// Once the end of the stream has been received an input is always ready, from the very call that
/// receives it. Later calls receive nothing.
pub proof fn lemma_ready_after_eos<D>(
    before: VideoInputModel<D>,
    pts: Duration,
    queue_start_pts: Duration,
    attempts: Seq<Attempt<PipelineEvent<Frame<D>>>>,
    after: VideoInputModel<D>,
    ready: bool,
)
    requires
        before.readied(pts, queue_start_pts, attempts, after, ready),
    ensures
        after.eos_received ==> ready,
        before.eos_received ==> attempts.len() == 0 && after == before,
{
}

proof fn lemma_filled_has_frame<D>(
    before: VideoInputModel<D>,
    pts: Duration,
    queue_start_pts: Duration,
    attempts: Seq<Attempt<PipelineEvent<Frame<D>>>>,
)
    ensures
        before.filled_until(pts, queue_start_pts, attempts).1 == RunEnd::Complete(true)
            ==> before.filled_until(pts, queue_start_pts, attempts).0.has_frame_for(pts),
    decreases attempts.len(),
{
    if !before.has_frame_for(pts) && attempts.len() > 0 {
        let (next, result) = before.after_attempt(Some(queue_start_pts), attempts[0]);
        if result is Ok {
            lemma_filled_has_frame(next, pts, queue_start_pts, attempts.drop_first());
        }
    }
}

/// Before the queue starts, nothing is taken from an input with an offset: its channel is only
/// looked at, and neither its first timestamp nor the end of its stream becomes known.
pub proof fn lemma_offset_input_waits_for_start<D>(
    before: VideoInputModel<D>,
    elapsed: Duration,
    attempts: Seq<Attempt<PipelineEvent<Frame<D>>>>,
    after: VideoInputModel<D>,
)
    requires
        before.stale_dropped_to(elapsed, attempts, after),
        before.offset is Some,
    ensures
        forall|i: int| 0 <= i < attempts.len() ==> (#[trigger] attempts[i]).received is None,
        attempts.len() <= 1,
        after.first_pts == before.first_pts,
        after.eos_received == before.eos_received,
        before.queue.len() == 0 ==> after.queue.len() == 0,
{
    lemma_waiting_drops_only(before, elapsed, attempts);
}

proof fn lemma_waiting_drops_only<D>(
    before: VideoInputModel<D>,
    elapsed: Duration,
    attempts: Seq<Attempt<PipelineEvent<Frame<D>>>>,
)
    requires
        before.offset is Some,
    ensures
        ({
            let (after, outcome) = before.stale_dropped(elapsed, attempts);
            &&& after.first_pts == before.first_pts
            &&& after.eos_received == before.eos_received
            &&& before.queue.len() == 0 ==> after.queue.len() == 0
            &&& outcome is Complete ==> attempts.len() <= 1
            &&& outcome is RanOut ==> attempts.len() == 0
        }),
    decreases before.queue.len(),
{
    if before.queue.len() > 0 && before.queue[0].pts.nanos < elapsed.nanos {
        let rest = VideoInputModel { queue: before.queue.drop_first(), ..before };
        lemma_waiting_drops_only(rest, elapsed, attempts);
    }
}

/// Asking an input whether it is ready changes neither whether it is required nor when it starts, nor
/// what it has announced.
pub proof fn lemma_asking_keeps_settings<D>(
    before: VideoInputModel<D>,
    pts: Duration,
    queue_start_pts: Duration,
    attempts: Seq<Attempt<PipelineEvent<Frame<D>>>>,
    after: VideoInputModel<D>,
    ready: bool,
)
    requires
        before.readied(pts, queue_start_pts, attempts, after, ready),
    ensures
        after.required == before.required,
        after.offset == before.offset,
        after.eos_sent == before.eos_sent,
        after.playing_sent == before.playing_sent,
{
    lemma_filling_keeps(before, pts, queue_start_pts, attempts);
}

/// An input whose offset lies ahead of `pts` is ready for it, whatever the channel answers.
pub proof fn lemma_ready_before_start<D>(
    before: VideoInputModel<D>,
    pts: Duration,
    queue_start_pts: Duration,
    attempts: Seq<Attempt<PipelineEvent<Frame<D>>>>,
    after: VideoInputModel<D>,
    ready: bool,
)
    requires
        before.readied(pts, queue_start_pts, attempts, after, ready),
        before.starts_after(pts, queue_start_pts),
    ensures
        ready,
{
}

/// An input that says it is ready for `pts` has a frame that is not older, or its stream has
/// ended, or it starts later. Asking it does not change whether it is required, nor when it starts.
pub proof fn lemma_ready_has_frame<D>(
    before: VideoInputModel<D>,
    pts: Duration,
    queue_start_pts: Duration,
    attempts: Seq<Attempt<PipelineEvent<Frame<D>>>>,
    after: VideoInputModel<D>,
)
    requires
        before.readied(pts, queue_start_pts, attempts, after, true),
    ensures
        after.eos_received || after.has_frame_for(pts) || after.starts_after(pts, queue_start_pts),
        after.required == before.required,
        after.offset == before.offset,
{
    lemma_filled_has_frame(before, pts, queue_start_pts, attempts);
    lemma_filling_keeps(before, pts, queue_start_pts, attempts);
}

/// Of the frames that are left when one is handed out, none lies closer to the time asked for than
/// the one handed out, and what was dropped before it lies further away.
pub proof fn lemma_closest_frame_is_kept<D>(input: VideoInputModel<D>, pts: Duration, index: int)
    requires
        is_first_closest(input.queue, pts, index),
    ensures
        input.trimmed(pts).queue == input.queue.skip(index),
        input.trimmed(pts).queue[0] == input.queue[index],
        forall|other: int|
            0 <= other < input.queue.len() ==> distance(
                input.trimmed(pts).queue[0].pts.nanos as int,
                pts.nanos as int,
            ) <= distance((#[trigger] input.queue[other]).pts.nanos as int, pts.nanos as int),
{
    lemma_closest_unique(input.queue, pts, index);
}

/// Nothing is shown at or before the moment at which the input starts.
pub proof fn lemma_no_frame_before_start<D>(
    before: VideoInputModel<D>,
    pts: Duration,
    queue_start_pts: Duration,
    attempts: Seq<Attempt<PipelineEvent<Frame<D>>>>,
    fill: int,
    after: VideoInputModel<D>,
    event: Option<FrameEvent<D>>,
)
    requires
        before.frame_taken(pts, queue_start_pts, attempts, fill, after, event),
        event is Some && event->0.event is Data,
    ensures
        after.started_by(pts, queue_start_pts),
        after.playing_sent,
{
}

/// Of the shared table an input takes its first timestamp, from its own slot, and nothing else.
pub proof fn lemma_model_reads_own_slot<D>(
    input: VideoQueueInput<D>,
    one: Seq<Option<Duration>>,
    other: Seq<Option<Duration>>,
)
    ensures
        input.model(one) == (VideoInputModel {
            first_pts: one[input.slot()],
            ..input.model(other)
        }),
        input.model(one).offset == input.offset(),
{
}

/// An input follows itself, with no attempt in between.
pub proof fn lemma_follows_itself<D>(input: VideoQueueInput<D>)
    ensures
        input.follows(input),
        input.attempts_since(input) == Seq::<Attempt<PipelineEvent<Frame<D>>>>::empty(),
{
    assert(input.attempts().take(input.attempts().len() as int) =~= input.attempts());
    assert(input.attempts_since(input) =~= Seq::empty());
}

/// What follows an input follows whatever that input follows.
pub proof fn lemma_follows_through<D>(
    first: VideoQueueInput<D>,
    second: VideoQueueInput<D>,
    third: VideoQueueInput<D>,
)
    requires
        second.follows(first),
        third.follows(second),
    ensures
        third.follows(first),
{
    let earlier = second.attempts().len() as int;
    assert(third.attempts().take(first.attempts().len() as int) =~= second.attempts().take(
        first.attempts().len() as int,
    ));
    assert forall|i: int| first.attempts().len() <= i < third.attempts().len() implies (
    #[trigger] third.attempts()[i]).answered_by(third.channel()) by {
        if i < earlier {
            assert(third.attempts().take(earlier)[i] == second.attempts()[i]);
        }
    }
}

proof fn lemma_attempts_since<D>(
    before: VideoQueueInput<D>,
    after: VideoQueueInput<D>,
    made: Seq<Attempt<PipelineEvent<Frame<D>>>>,
)
    requires
        after.attempts() == before.attempts() + made,
        after.slot() == before.slot(),
        after.same_source(before),
        all_answered(made, before.channel()),
    ensures
        after.attempts_since(before) == made,
        after.follows(before),
{
    assert(after.attempts_since(before) =~= made);
    assert(after.attempts().take(before.attempts().len() as int) =~= before.attempts());
}

/// What is left in the queue and what is handed out do not depend on whether the input is required:
/// that is only passed on with the frame.
pub proof fn lemma_required_plays_no_part<D>(
    input: VideoInputModel<D>,
    required: bool,
    pts: Duration,
    queue_start_pts: Duration,
)
    ensures
        ({
            let other = VideoInputModel { required, ..input };
            let (one_after, one_event) = input.handed_out(pts, queue_start_pts);
            let (other_after, other_event) = other.handed_out(pts, queue_start_pts);
            &&& other_after == VideoInputModel { required, ..one_after }
            &&& one_event is Some <==> other_event is Some
            &&& one_event is Some ==> one_event->0.event == other_event->0.event
            &&& one_event is Some && one_event->0.event is Data ==> one_event->0.required
                == input.required
            &&& one_event is Some && one_event->0.event is EOS ==> one_event->0.required
        }),
{
}

/// The last frame of a stream that has ended is given away when it is asked for, whether it is shown
/// or not; any other frame stays to be shown again. What is handed out is the oldest frame that is
/// left, from the moment on at which the input has started, and the end of the stream once no frame
/// can be.
pub proof fn lemma_ended_stream_runs_out<D>(
    input: VideoInputModel<D>,
    pts: Duration,
    queue_start_pts: Duration,
)
    ensures
        ({
            let (after, event) = input.handed_out(pts, queue_start_pts);
            let started = match input.offset {
                Some(offset) => queue_start_pts.nanos + offset.nanos < pts.nanos,
                None => input.first_pts is Some && input.first_pts->0.nanos < pts.nanos,
            };
            &&& input.eos_received && input.queue.len() == 1 ==> after.queue.len() == 0
            &&& !input.eos_received || input.queue.len() != 1 ==> after.queue == input.queue
            &&& started && input.queue.len() > 0 ==> event == Some(
                FrameEvent {
                    required: input.required,
                    event: PipelineEvent::Data(input.queue[0]),
                },
            )
            &&& event is Some && event->0.event is Data ==> started && input.queue.len() > 0
            &&& input.eos_received && !input.eos_sent && (!started || input.queue.len() == 0)
                ==> event == Some(FrameEvent::<D> { required: true, event: PipelineEvent::EOS })
            &&& event is Some && event->0.event is EOS ==> input.eos_received && !input.eos_sent
                && after.eos_sent && after.events == input.events.push(VideoInputEvent::Eos)
            &&& event is None ==> after.events == input.events && after.eos_sent == input.eos_sent
            &&& event is Some && event->0.event is Data ==> after.playing_sent && after.events
                == if input.playing_sent {
                input.events
            } else {
                input.events.push(VideoInputEvent::Playing)
            }
            &&& after.first_pts == input.first_pts && after.offset == input.offset
            &&& after.eos_received == input.eos_received && after.required == input.required
        }),
{
}

proof fn lemma_nothing_more_arrives<D>(
    input: VideoInputModel<D>,
    pts: Duration,
    queue_start_pts: Duration,
    attempts: Seq<Attempt<PipelineEvent<Frame<D>>>>,
)
    requires
        input.queue.len() == 0,
        attempts.len() > 0,
        attempts[0].received is Some,
        !attempts[0].brought(),
    ensures
        ({
            let after = input.old_dropped(pts, queue_start_pts, attempts).0;
            &&& after.queue == input.queue
            &&& after.eos_received == input.eos_received
            &&& after.eos_sent == input.eos_sent
        }),
{
}

/// The end of a stream is handed out. Once it has been received and no more than one frame is left,
/// the frame is handed out if the input has started, and the queue is empty afterwards. Asked again,
/// with nothing more arriving, the input hands out the end of the stream; this holds of every input,
/// required or not. After that it hands out nothing.
pub proof fn lemma_end_of_stream_is_handed_out<D>(
    before: VideoInputModel<D>,
    pts: Duration,
    queue_start_pts: Duration,
    attempts: Seq<Attempt<PipelineEvent<Frame<D>>>>,
    fill: int,
    after: VideoInputModel<D>,
    event: Option<FrameEvent<D>>,
)
    requires
        before.frame_taken(pts, queue_start_pts, attempts, fill, after, event),
        before.eos_received,
        before.queue.len() <= 1,
        forall|i: int| 0 <= i < attempts.len() ==> !(#[trigger] attempts[i]).brought(),
        attempts.len() < MAX_ATTEMPTS,
    ensures
        after.eos_received,
        after.queue.len() == 0,
        before.queue.len() == 1 && before.started_by(pts, queue_start_pts) ==> event == Some(
            FrameEvent { required: before.required, event: PipelineEvent::Data(before.queue[0]) },
        ),
        before.queue.len() == 0 && !before.eos_sent ==> event == Some(
            FrameEvent::<D> { required: true, event: PipelineEvent::EOS },
        ) && after.eos_sent && after.events.last() == VideoInputEvent::Eos,
        before.queue.len() == 0 && before.eos_sent ==> event is None,
{
    let (filled, ready, trimmed) = choose|
        filled: VideoInputModel<D>,
        ready: bool,
        trimmed: VideoInputModel<D>,
    |
        {
            &&& #[trigger] before.readied(pts, queue_start_pts, attempts.take(fill), filled, ready)
            &&& #[trigger] filled.dropped_to(pts, queue_start_pts, attempts.skip(fill), trimmed)
            &&& (after, event) == trimmed.handed_out(pts, queue_start_pts)
        };
    assert(fill == 0);
    let made = attempts.skip(fill);
    assert(made =~= attempts);
    if before.queue.len() == 1 {
        assert(is_first_closest(before.queue, pts, 0));
        lemma_closest_unique(before.queue, pts, 0);
        assert(before.queue.skip(0) =~= before.queue);
    } else {
        if made.len() > 0 {
            lemma_nothing_more_arrives(before, pts, queue_start_pts, made);
        }
    }
}

proof fn lemma_closest_exists<D>(queue: Seq<Frame<D>>, pts: Duration) -> (index: int)
    requires
        queue.len() > 0,
    ensures
        is_first_closest(queue, pts, index),
    decreases queue.len(),
{
    if queue.len() == 1 {
        assert(is_first_closest(queue, pts, 0));
        0
    } else {
        let earlier = queue.drop_last();
        let best = lemma_closest_exists(earlier, pts);
        let last = queue.len() - 1;
        assert(forall|i: int| 0 <= i < last ==> earlier[i] == queue[i]);
        if distance(queue[last].pts.nanos as int, pts.nanos as int) < distance(
            queue[best].pts.nanos as int,
            pts.nanos as int,
        ) {
            assert forall|other: int| 0 <= other < last implies distance(
                queue[last].pts.nanos as int,
                pts.nanos as int,
            ) < distance((#[trigger] queue[other]).pts.nanos as int, pts.nanos as int) by {
                assert(earlier[other] == queue[other]);
            }
            last
        } else {
            assert forall|other: int| 0 <= other < queue.len() implies distance(
                queue[best].pts.nanos as int,
                pts.nanos as int,
            ) <= distance((#[trigger] queue[other]).pts.nanos as int, pts.nanos as int) by {
                if other < last {
                    assert(earlier[other] == queue[other]);
                }
            }
            assert forall|other: int| 0 <= other < best implies distance(
                queue[best].pts.nanos as int,
                pts.nanos as int,
            ) < distance((#[trigger] queue[other]).pts.nanos as int, pts.nanos as int) by {
                assert(earlier[other] == queue[other]);
            }
            best
        }
    }
}

/// How far two timestamps lie apart, in nanoseconds.
pub open spec fn apart(one: Duration, other: Duration) -> int {
    if one.nanos < other.nanos {
        other.nanos - one.nanos
    } else {
        one.nanos - other.nanos
    }
}

/// Dropping old frames drops only from the front, and never all. The oldest frame that is left lies
/// as close to `pts` as any that was there, and closer than every frame that was dropped.
pub proof fn lemma_oldest_frame_left_is_closest<D>(input: VideoInputModel<D>, pts: Duration)
    requires
        input.queue.len() > 0,
    ensures
        ({
            let left = input.trimmed(pts).queue;
            let dropped = input.queue.len() - left.len();
            &&& 0 < left.len() <= input.queue.len()
            &&& left == input.queue.skip(dropped)
            &&& forall|i: int|
                0 <= i < input.queue.len() ==> apart(left[0].pts, pts) <= apart(
                    (#[trigger] input.queue[i]).pts,
                    pts,
                )
            &&& forall|i: int|
                0 <= i < dropped ==> apart(left[0].pts, pts) < apart(
                    (#[trigger] input.queue[i]).pts,
                    pts,
                )
            &&& input.trimmed(pts) == VideoInputModel { queue: left, ..input }
        }),
{
    let index = lemma_closest_exists(input.queue, pts);
    lemma_closest_unique(input.queue, pts, index);
}

/// An input that has started, and whose newest frame is not older than `pts`, hands out the frame
/// closest to `pts` of all that are there: it need not ask for more, and every frame before that one
/// lies further away.
pub proof fn lemma_closest_frame_is_handed_out<D>(
    before: VideoInputModel<D>,
    pts: Duration,
    queue_start_pts: Duration,
    attempts: Seq<Attempt<PipelineEvent<Frame<D>>>>,
    fill: int,
    after: VideoInputModel<D>,
    event: Option<FrameEvent<D>>,
)
    requires
        before.frame_taken(pts, queue_start_pts, attempts, fill, after, event),
        before.queue.len() > 0,
        before.queue.last().pts.nanos >= pts.nanos,
        match before.offset {
            Some(offset) => queue_start_pts.nanos + offset.nanos < pts.nanos,
            None => before.first_pts is Some && before.first_pts->0.nanos < pts.nanos,
        },
    ensures
        attempts.len() == 0,
        exists|i: int|
            {
                &&& 0 <= i < before.queue.len()
                &&& event == Some(
                    FrameEvent {
                        required: before.required,
                        event: PipelineEvent::Data(#[trigger] before.queue[i]),
                    },
                )
                &&& forall|j: int|
                    0 <= j < before.queue.len() ==> apart(before.queue[i].pts, pts) <= apart(
                        (#[trigger] before.queue[j]).pts,
                        pts,
                    )
                &&& forall|j: int|
                    0 <= j < i ==> apart(before.queue[i].pts, pts) < apart(
                        (#[trigger] before.queue[j]).pts,
                        pts,
                    )
                &&& !before.eos_received || i < before.queue.len() - 1 ==> after.queue
                    == before.queue.skip(i)
            },
{
    let (filled, ready, trimmed) = choose|
        filled: VideoInputModel<D>,
        ready: bool,
        trimmed: VideoInputModel<D>,
    |
        {
            &&& #[trigger] before.readied(pts, queue_start_pts, attempts.take(fill), filled, ready)
            &&& #[trigger] filled.dropped_to(pts, queue_start_pts, attempts.skip(fill), trimmed)
            &&& (after, event) == trimmed.handed_out(pts, queue_start_pts)
        };
    assert(filled == before);
    lemma_oldest_frame_left_is_closest(before, pts);
    let i = before.queue.len() - trimmed.queue.len();
    assert(attempts =~= attempts.take(fill) + attempts.skip(fill));
    assert(trimmed.queue[0] == before.queue[i]);
}

/// What arrives is appended, as it is but for its time. An input without an offset shows its frames
/// at their own timestamps. With an offset, the first frame is shown that long after the queue
/// started, and every other one as much later as its timestamp is later than the first one.
pub proof fn lemma_arriving_frame_is_enqueued<D>(
    before: VideoInputModel<D>,
    queue_start_pts: Duration,
    attempt: Attempt<PipelineEvent<Frame<D>>>,
    frame: Frame<D>,
)
    requires
        attempt.received == Some(Ok::<_, TryRecvError>(PipelineEvent::Data(frame))),
    ensures
        ({
            let (after, result) = before.after_attempt(Some(queue_start_pts), attempt);
            let first = match before.first_pts {
                Some(first) => first,
                None => frame.pts,
            };
            let shown = match before.offset {
                None => frame.pts.nanos as int,
                Some(offset) => queue_start_pts.nanos + offset.nanos + frame.pts.nanos
                    - first.nanos,
            };
            &&& after.first_pts == Some(first)
            &&& after.eos_received == before.eos_received
            &&& before.first_pts is None && before.offset is Some && queue_start_pts.nanos
                + before.offset->0.nanos + frame.pts.nanos <= MAX_NANOS ==> result is Ok
                && after.queue.last().pts.nanos == queue_start_pts.nanos + before.offset->0.nanos
            &&& result is Ok ==> {
                &&& after.queue.len() == before.queue.len() + 1
                &&& after.queue.drop_last() == before.queue
                &&& after.queue.last().data == frame.data
                &&& after.queue.last().resolution == frame.resolution
                &&& after.queue.last().pts.nanos == shown
            }
            &&& result is Err ==> {
                &&& after.queue == before.queue
                &&& before.offset is Some
                &&& shown < 0 || queue_start_pts.nanos + before.offset->0.nanos + frame.pts.nanos
                    > MAX_NANOS
            }
        }),
{
    let (after, result) = before.after_attempt(Some(queue_start_pts), attempt);
    if result is Ok {
        assert(after.queue.drop_last() =~= before.queue);
    }
}

/// The end of the stream is noted and changes nothing else; where nothing arrives, nothing changes.
/// An input says once that its first item has arrived, as soon as something waits.
pub proof fn lemma_arrivals_are_noted<D>(
    before: VideoInputModel<D>,
    queue_start_pts: Option<Duration>,
    attempt: Attempt<PipelineEvent<Frame<D>>>,
)
    ensures
        ({
            let (after, result) = before.after_attempt(queue_start_pts, attempt);
            let takes = before.offset is None || queue_start_pts is Some;
            let delivers = attempt.waiting && !before.delivered_sent;
            &&& after.delivered_sent <==> before.delivered_sent || attempt.waiting
            &&& after.events == if delivers {
                before.events.push(VideoInputEvent::Delivered)
            } else {
                before.events
            }
            &&& after.playing_sent == before.playing_sent && after.eos_sent == before.eos_sent
            &&& after.required == before.required && after.offset == before.offset
            &&& !takes ==> result == Err::<(), _>(EnqueueError::Empty) && after.queue
                == before.queue && after.eos_received == before.eos_received && after.first_pts
                == before.first_pts
            &&& takes && attempt.received == Some(
                Ok::<_, TryRecvError>(PipelineEvent::<Frame<D>>::EOS),
            ) ==> result is Ok && after.eos_received && after.queue == before.queue
                && after.first_pts == before.first_pts
            &&& takes && attempt.received is Some && attempt.received->0 is Err ==> {
                &&& after.queue == before.queue && after.eos_received == before.eos_received
                &&& after.first_pts == before.first_pts
                &&& attempt.received->0->Err_0 == TryRecvError::Empty ==> result == Err::<(), _>(
                    EnqueueError::Empty,
                )
                &&& attempt.received->0->Err_0 == TryRecvError::Disconnected ==> result == Err::<
                    (),
                    _,
                >(EnqueueError::Disconnected)
            }
        }),
{
}

proof fn lemma_filling_appends<D>(
    before: VideoInputModel<D>,
    pts: Duration,
    queue_start_pts: Duration,
    attempts: Seq<Attempt<PipelineEvent<Frame<D>>>>,
)
    ensures
        ({
            let (after, outcome) = before.filled_until(pts, queue_start_pts, attempts);
            &&& before.queue.len() <= after.queue.len()
            &&& after.queue.take(before.queue.len() as int) == before.queue
            &&& outcome == RunEnd::Complete(false) ==> after.queue.len() == 0 || after.queue.last().pts.nanos
                < pts.nanos
            &&& outcome is RanOut ==> after.queue.len() == 0 || after.queue.last().pts.nanos
                < pts.nanos
        }),
    decreases attempts.len(),
{
    let whole = before.filled_until(pts, queue_start_pts, attempts).0;
    assert(before.queue.take(before.queue.len() as int) =~= before.queue);
    if !(before.queue.len() > 0 && before.queue.last().pts.nanos >= pts.nanos) && attempts.len()
        > 0 {
        let (next, result) = before.after_attempt(Some(queue_start_pts), attempts[0]);
        if result is Ok {
            lemma_filling_appends(next, pts, queue_start_pts, attempts.drop_first());
            assert(next.queue.take(before.queue.len() as int) =~= before.queue);
            assert(whole.queue.take(before.queue.len() as int) =~= whole.queue.take(
                next.queue.len() as int,
            ).take(before.queue.len() as int));
        } else {
            assert(next.queue.take(before.queue.len() as int) =~= before.queue);
        }
    }
}

/// An input that has received the end of its stream, whose newest frame is not older than `pts`, or
/// whose offset lies after `pts`, is ready for it; no other is. Frames that are there already stay
/// as they are, and an input that has what it needs asks for nothing.
pub proof fn lemma_served_input_is_ready<D>(
    before: VideoInputModel<D>,
    pts: Duration,
    queue_start_pts: Duration,
    attempts: Seq<Attempt<PipelineEvent<Frame<D>>>>,
    after: VideoInputModel<D>,
    ready: bool,
)
    requires
        before.readied(pts, queue_start_pts, attempts, after, ready),
    ensures
        after.eos_received ==> ready,
        before.offset is Some && pts.nanos < queue_start_pts.nanos + before.offset->0.nanos
            ==> ready,
        before.queue.len() > 0 && pts.nanos <= before.queue.last().pts.nanos ==> ready
            && attempts.len() == 0 && after == before,
        ready ==> after.eos_received || (after.queue.len() > 0 && pts.nanos
            <= after.queue.last().pts.nanos) || (before.offset is Some && pts.nanos
            < queue_start_pts.nanos + before.offset->0.nanos),
        !ready ==> attempts.len() > 0 && (after.queue.len() == 0 || after.queue.last().pts.nanos
            < pts.nanos),
        before.queue.len() <= after.queue.len(),
        after.queue.take(before.queue.len() as int) == before.queue,
{
    assert(before.queue.take(before.queue.len() as int) =~= before.queue);
    lemma_filling_appends(before, pts, queue_start_pts, attempts);
    lemma_filled_has_frame(before, pts, queue_start_pts, attempts);
}

/// Before the queue starts, frames leave in order, from the front, until one is found whose time has
/// not passed; that one and all after it stay. As long as there is one, nothing is asked for.
pub proof fn lemma_only_stale_frames_are_dropped<D>(
    before: VideoInputModel<D>,
    elapsed: Duration,
    attempts: Seq<Attempt<PipelineEvent<Frame<D>>>>,
    after: VideoInputModel<D>,
    kept: int,
)
    requires
        before.stale_dropped_to(elapsed, attempts, after),
        0 <= kept < before.queue.len(),
        before.queue[kept].pts.nanos >= elapsed.nanos,
        forall|i: int| 0 <= i < kept ==> (#[trigger] before.queue[i]).pts.nanos < elapsed.nanos,
    ensures
        after == (VideoInputModel { queue: before.queue.skip(kept), ..before }),
        attempts.len() == 0,
{
    lemma_stale_frames_leave(before, elapsed, attempts, kept);
}

proof fn lemma_stale_frames_leave<D>(
    before: VideoInputModel<D>,
    elapsed: Duration,
    attempts: Seq<Attempt<PipelineEvent<Frame<D>>>>,
    kept: int,
)
    requires
        0 <= kept < before.queue.len(),
        before.queue[kept].pts.nanos >= elapsed.nanos,
        forall|i: int| 0 <= i < kept ==> (#[trigger] before.queue[i]).pts.nanos < elapsed.nanos,
    ensures
        before.stale_dropped(elapsed, attempts).0 == (VideoInputModel {
            queue: before.queue.skip(kept),
            ..before
        }),
        before.stale_dropped(elapsed, attempts).1 == if attempts.len() == 0 {
            RunEnd::Complete(true)
        } else {
            RunEnd::Surplus
        },
    decreases kept,
{
    if kept == 0 {
        assert(before.queue.skip(0) =~= before.queue);
    } else {
        assert(before.queue[0].pts.nanos < elapsed.nanos);
        let rest = VideoInputModel { queue: before.queue.drop_first(), ..before };
        assert forall|i: int| 0 <= i < kept - 1 implies (#[trigger] rest.queue[i]).pts.nanos
            < elapsed.nanos by {
            assert(before.queue[i + 1].pts.nanos < elapsed.nanos);
        }
        lemma_stale_frames_leave(rest, elapsed, attempts, kept - 1);
        assert(rest.queue.skip(kept - 1) =~= before.queue.skip(kept));
    }
}

/// Whatever is left when stale frames have been dropped starts with a frame whose time has not
/// passed. Nothing is announced by it but what arrives.
pub proof fn lemma_no_stale_frame_is_left<D>(
    before: VideoInputModel<D>,
    elapsed: Duration,
    attempts: Seq<Attempt<PipelineEvent<Frame<D>>>>,
    after: VideoInputModel<D>,
)
    requires
        before.stale_dropped_to(elapsed, attempts, after),
    ensures
        after.queue.len() > 0 ==> after.queue[0].pts.nanos >= elapsed.nanos,
        after.eos_sent == before.eos_sent && after.playing_sent == before.playing_sent,
        attempts.len() == 0 ==> after.queue.len() > 0,
{
    lemma_stale_head(before, elapsed, attempts);
}

proof fn lemma_stale_head<D>(
    before: VideoInputModel<D>,
    elapsed: Duration,
    attempts: Seq<Attempt<PipelineEvent<Frame<D>>>>,
)
    ensures
        ({
            let (after, outcome) = before.stale_dropped(elapsed, attempts);
            &&& outcome is Complete && after.queue.len() > 0 ==> after.queue[0].pts.nanos
                >= elapsed.nanos
            &&& outcome is RanOut ==> after.queue.len() == 0
            &&& outcome is Complete && attempts.len() == 0 ==> after.queue.len() > 0
            &&& after.eos_sent == before.eos_sent && after.playing_sent == before.playing_sent
        }),
    decreases attempts.len(), before.queue.len(),
{
    if before.queue.len() > 0 {
        if before.queue[0].pts.nanos < elapsed.nanos {
            lemma_stale_head(
                VideoInputModel { queue: before.queue.drop_first(), ..before },
                elapsed,
                attempts,
            );
        }
    } else if attempts.len() > 0 {
        let (next, result) = before.after_attempt(None, attempts[0]);
        if result is Ok && next.queue.len() > 0 {
            lemma_stale_head(next, elapsed, attempts.drop_first());
        }
    }
}

/// An attempt that brought nothing to the queue: nothing was asked for, nothing was there, or a frame
/// came whose time cannot be told.
pub open spec fn brought_nothing<D>(
    input: VideoInputModel<D>,
    attempt: Attempt<PipelineEvent<Frame<D>>>,
) -> bool {
    ||| attempt.received is None
    ||| attempt.received->0 is Err
    ||| input.offset is Some && attempt.received->0 matches Ok(PipelineEvent::Data(_))
}

/// An input that is not ready has taken all that there was: the last attempt to receive brought
/// nothing. So a frame that lies in the channel is never left there while it is needed.
pub proof fn lemma_unready_input_took_all<D>(
    input: VideoInputModel<D>,
    pts: Duration,
    queue_start_pts: Duration,
    attempts: Seq<Attempt<PipelineEvent<Frame<D>>>>,
    after: VideoInputModel<D>,
)
    requires
        input.readied(pts, queue_start_pts, attempts, after, false),
        attempts.len() < MAX_ATTEMPTS,
    ensures
        attempts.len() > 0,
        brought_nothing(input, attempts.last()),
{
    lemma_filling_ends_with_nothing(input, pts, queue_start_pts, attempts);
}

proof fn lemma_filling_ends_with_nothing<D>(
    input: VideoInputModel<D>,
    pts: Duration,
    queue_start_pts: Duration,
    attempts: Seq<Attempt<PipelineEvent<Frame<D>>>>,
)
    requires
        input.filled_until(pts, queue_start_pts, attempts).1 == RunEnd::Complete(false),
        input.asked_by(Some(queue_start_pts), attempts),
    ensures
        attempts.len() > 0,
        brought_nothing(input, attempts.last()),
    decreases attempts.len(),
{
    let (next, result) = input.after_attempt(Some(queue_start_pts), attempts[0]);
    let rest = attempts.drop_first();
    assert(attempts[0].received is Some <==> input.receives(Some(queue_start_pts)));
    if result is Ok {
        assert forall|i: int| 0 <= i < rest.len() implies ((#[trigger] rest[i]).received is Some
            <==> next.receives(Some(queue_start_pts))) by {
            assert(rest[i] == attempts[i + 1]);
        }
        lemma_filling_ends_with_nothing(next, pts, queue_start_pts, rest);
        assert(rest.last() == attempts.last());
    } else {
        assert(rest.len() == 0);
        assert(attempts.last() == attempts[0]);
    }
}

/// Old frames are dropped only to get at a newer one: where no frame is left, there was none, neither in
/// the queue nor in the channel.
pub proof fn lemma_dropping_leaves_a_frame<D>(
    input: VideoInputModel<D>,
    pts: Duration,
    queue_start_pts: Duration,
    attempts: Seq<Attempt<PipelineEvent<Frame<D>>>>,
    after: VideoInputModel<D>,
)
    requires
        input.dropped_to(pts, queue_start_pts, attempts, after),
        attempts.len() < MAX_ATTEMPTS,
    ensures
        input.queue.len() > 0 ==> after.queue.len() > 0 && attempts.len() == 0,
        after.queue.len() == 0 ==> attempts.len() > 0 && brought_nothing(input, attempts.last()),
{
    lemma_dropping_ends_with_nothing(input, pts, queue_start_pts, attempts);
}

proof fn lemma_dropping_ends_with_nothing<D>(
    input: VideoInputModel<D>,
    pts: Duration,
    queue_start_pts: Duration,
    attempts: Seq<Attempt<PipelineEvent<Frame<D>>>>,
)
    requires
        input.old_dropped(pts, queue_start_pts, attempts).1 is Complete,
        input.asked_by(Some(queue_start_pts), attempts),
    ensures
        ({
            let after = input.old_dropped(pts, queue_start_pts, attempts).0;
            &&& input.queue.len() > 0 ==> after.queue.len() > 0 && attempts.len() == 0
            &&& after.queue.len() == 0 ==> attempts.len() > 0 && brought_nothing(
                input,
                attempts.last(),
            )
        }),
    decreases attempts.len(),
{
    if input.queue.len() > 0 {
        lemma_closest_exists(input.queue, pts);
    } else {
        let (next, result) = input.after_attempt(Some(queue_start_pts), attempts[0]);
        let rest = attempts.drop_first();
        assert(attempts[0].received is Some <==> input.receives(Some(queue_start_pts)));
        if result is Ok {
            assert forall|i: int| 0 <= i < rest.len() implies ((#[trigger] rest[i]).received is Some
                <==> next.receives(Some(queue_start_pts))) by {
                assert(rest[i] == attempts[i + 1]);
            }
            lemma_dropping_ends_with_nothing(next, pts, queue_start_pts, rest);
            if rest.len() > 0 {
                assert(rest.last() == attempts.last());
            }
        } else {
            assert(rest.len() == 0);
            assert(attempts.last() == attempts[0]);
        }
    }
}

/// A start can be told exactly if the offset, counted from the start of the queue, is no longer than 64
/// bits of seconds can tell; an input without an offset needs none.
pub proof fn lemma_which_starts_can_be_told<D>(input: VideoQueueInput<D>, queue_start_pts: Duration)
    ensures
        input.offset() is None ==> input.offset_fits(queue_start_pts),
        input.offset() is Some ==> (input.offset_fits(queue_start_pts) <==> queue_start_pts.nanos
            + input.offset()->0.nanos < 18_446_744_073_709_551_616_000_000_000),
{
}

} // verus!
