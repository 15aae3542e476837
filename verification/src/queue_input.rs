//! The tracks of an input: which one plays, which ones wait, and what is decided when a track is
//! added, replaced, paused or resumed.
//!
//! `V` and `A` are the video and the audio part of a track, `F` and `S` the items they carry.

use crate::channel::{
    ask_same, buffer_fits, ends_of, make_channel, sender_clone, told_same, Attempt, EventReceiver,
};
use crate::shared_pts::SharedPts;
use crate::side_channel::{
    lemma_new_track_stands_last, LaneModel, QueueItem, QueuedModel, SideChannelLane,
};
use crate::time::{saturating_diff, Duration, MAX_NANOS};
use crate::track_offset::TrackOffset;
use crate::video_input::MAX_ATTEMPTS;
use crossbeam_channel::{Receiver, Sender};
use vstd::prelude::*;

verus! {

/// How many tracks can wait to be started. Whoever adds another one waits until there is room.
pub const MAX_PENDING_TRACKS: usize = 5;

/// When a track makes room for the next one.
#[derive(Debug, Clone, Copy, PartialEq, Eq, Structural)]
pub enum TrackEndCondition {
    /// When its video and its audio have ended.
    AllTracks,
    /// When a moment is reached; until that moment is known, when video and audio have ended.
    Pts(TrackOffset),
}

/// A track that waits to be started.
pub struct PendingTrack<V, A> {
    pub video: Option<V>,
    pub audio: Option<A>,
    pub track_offset: TrackOffset,
    pub end_condition: TrackEndCondition,
}

/// Where a track starts.
#[derive(Debug, Clone, Copy, PartialEq, Eq, Structural)]
pub enum QueueTrackOffset {
    /// When its first item arrives.
    Unset,
    /// At a moment that counts from the sync point.
    Pts(Duration),
    /// At a moment that counts from the start of the queue.
    FromStart(Duration),
}

/// How long a track lasts, for one whose length is known.
#[derive(Debug, Clone, Copy, PartialEq, Eq, Structural)]
pub enum QueueTrackTiming {
    /// It replaces every track that waits.
    Finite(Duration),
    /// It starts where the preceding track of known length ends.
    Continuation(Duration),
}

impl QueueTrackTiming {
    pub open spec fn length(self) -> Duration {
        match self {
            QueueTrackTiming::Finite(duration) => duration,
            QueueTrackTiming::Continuation(duration) => duration,
        }
    }
}

/// What a new track consists of.
#[derive(Debug, Clone, Copy, PartialEq, Eq, Structural)]
pub struct QueueTrackOptions {
    pub video: bool,
    pub audio: bool,
    pub offset: QueueTrackOffset,
}

/// How the video or the audio part of a new track and its sender are set up.
#[derive(Debug, Clone, Copy, PartialEq, Eq, Structural)]
pub struct TrackSetup {
    pub required: bool,
    pub offset_from_start: Option<Duration>,
    pub track_offset: TrackOffset,
    /// Items at or past this moment of the track are dropped. The track has a known length exactly
    /// where there is one.
    pub duration: Option<Duration>,
    /// By how much items are moved.
    pub delay: Duration,
    /// The number of the track in the side channel's delivery order.
    pub lane: Option<u64>,
}

/// A track that is about to be added.
#[derive(Debug, Clone, Copy, PartialEq, Eq, Structural)]
pub struct NewTrack {
    pub track_offset: TrackOffset,
    pub end_condition: TrackEndCondition,
    pub video: Option<TrackSetup>,
    pub audio: Option<TrackSetup>,
}

/// Whether an input is paused, and since when.
#[derive(Debug, Clone, Copy, PartialEq, Eq, Structural)]
pub struct PauseState {
    paused_at: Option<Duration>,
}

impl PauseState {
    pub closed spec fn since(self) -> Option<Duration> {
        self.paused_at
    }

    pub fn new() -> (r: Self)
        ensures
            r.since() is None,
    {
        PauseState { paused_at: None }
    }

    pub fn is_paused(&self) -> (r: bool)
        ensures
            r == (self.since() is Some),
    {
        self.paused_at.is_some()
    }

    pub fn pause(&mut self, pts: Duration)
        ensures
            final(self).since() == Some(pts),
    {
        self.paused_at = Some(pts);
    }

    /// Counts the pause from `pts` on, if there is one.
    pub fn reset(&mut self, pts: Duration)
        ensures
            final(self).since() == (if old(self).since() is Some {
                Some(pts)
            } else {
                None
            }),
    {
        if self.paused_at.is_some() {
            self.paused_at = Some(pts);
        }
    }

    /// Ends the pause and returns how long it lasted.
    pub fn resume(&mut self, pts: Duration) -> (r: Option<Duration>)
        ensures
            final(self).since() is None,
            r == pause_time(old(self).since(), pts),
    {
        let r = match self.paused_at {
            Some(paused_at) => Some(pts.saturating_sub(paused_at)),
            None => None,
        };
        self.paused_at = None;
        r
    }
}

/// How long a pause has lasted at `pts`.
pub open spec fn pause_time(since: Option<Duration>, pts: Duration) -> Option<Duration> {
    match since {
        Some(since) => Some(
            Duration { nanos: saturating_diff(pts.nanos as int, since.nanos as int) as u128 },
        ),
        None => None,
    }
}

/// What has to happen to the track that has just been started.
#[derive(Debug, Clone, Copy, PartialEq, Eq, Structural)]
pub enum TrackStart {
    /// No track was waiting: the old one stays.
    NothingPending,
    /// It plays.
    Running,
    /// The input is paused. The video part takes in what is needed to show a frame, and then both
    /// parts pause.
    Paused { wake_video: Option<Wake>, audio: bool },
}

/// How a video part takes in its first frame.
#[derive(Debug, Clone, Copy, PartialEq, Eq, Structural)]
pub enum Wake {
    /// It is asked whether it is ready for `pts`.
    ReadyFor { pts: Duration, start_pts: Duration },
    /// The queue has not started: it drops frames that are too old.
    DropOld,
}

/// Which parts of the track have to pause or resume.
#[derive(Debug, Clone, Copy, PartialEq, Eq, Structural)]
pub struct Parts {
    pub video: bool,
    pub audio: bool,
}

/// What an input is, seen from outside.
pub struct InputModel<V, A, F, S> {
    pub video: Option<V>,
    pub audio: Option<A>,
    pub track_offset: TrackOffset,
    pub end_condition: TrackEndCondition,
    /// Where the last track that was added ends, if its length is known.
    pub queued_end: Option<TrackOffset>,
    pub paused_since: Option<Duration>,
    pub required: bool,
    pub video_lane: Option<LaneModel<TrackOffset, F>>,
    pub audio_lane: Option<LaneModel<TrackOffset, S>>,
    pub side_channel_delay: Duration,
}

impl<V, A, F, S> InputModel<V, A, F, S> {
    /// The current track is over at `pts`. A part that does not exist counts as ended.
    pub open spec fn ended(
        self,
        pts: Duration,
        video_eos_sent: bool,
        audio_eos_sent: bool,
        slots: Seq<Option<Duration>>,
    ) -> bool {
        let all_ended = (self.video is None || video_eos_sent) && (self.audio is None
            || audio_eos_sent);
        match self.end_condition {
            TrackEndCondition::AllTracks => all_ended,
            TrackEndCondition::Pts(end) => match end.value(slots) {
                Some(end) => pts.nanos >= end,
                None => all_ended,
            },
        }
    }

    /// A pending track takes the place of the current one.
    pub open spec fn replaced(
        self,
        pending: PendingTrack<V, A>,
        pts: Duration,
        start_pts: Option<Duration>,
    ) -> (Self, TrackStart) {
        let started = InputModel {
            video: pending.video,
            audio: pending.audio,
            track_offset: pending.track_offset,
            end_condition: pending.end_condition,
            ..self
        };
        if self.paused_since is Some {
            (
                InputModel { paused_since: Some(pts), ..started },
                TrackStart::Paused {
                    wake_video: if pending.video is Some {
                        Some(
                            match start_pts {
                                Some(start_pts) => Wake::ReadyFor { pts, start_pts },
                                None => Wake::DropOld,
                            },
                        )
                    } else {
                        None
                    },
                    audio: pending.audio is Some,
                },
            )
        } else {
            (started, TrackStart::Running)
        }
    }

    /// The input is paused at `pts`, and these parts have to pause. An input that is paused stays so.
    pub open spec fn paused(self, pts: Duration) -> (Self, Parts) {
        if self.paused_since is Some {
            (self, Parts { video: false, audio: false })
        } else {
            (
                InputModel { paused_since: Some(pts), ..self },
                Parts { video: self.video is Some, audio: self.audio is Some },
            )
        }
    }

    /// The input is resumed, and these parts have to resume.
    pub open spec fn resumed(self) -> (Self, Parts) {
        (
            InputModel { paused_since: None, ..self },
            if self.paused_since is Some {
                Parts { video: self.video is Some, audio: self.audio is Some }
            } else {
                Parts { video: false, audio: false }
            },
        )
    }

    /// What one look at the pending tracks does.
    pub open spec fn after_attempt(
        self,
        attempt: Attempt<PendingTrack<V, A>>,
        pts: Duration,
        start_pts: Option<Duration>,
    ) -> (Self, TrackStart) {
        match attempt.received {
            Some(Ok(pending)) => self.replaced(pending, pts, start_pts),
            _ => (self, TrackStart::NothingPending),
        }
    }

    /// `after` and `start` are what asking for the next track gives, with the looks at the pending tracks
    /// that were taken.
    pub open spec fn moved_on(
        self,
        pts: Duration,
        start_pts: Option<Duration>,
        over: bool,
        looks: Seq<Attempt<PendingTrack<V, A>>>,
        after: Self,
        start: TrackStart,
    ) -> bool {
        if over {
            looks.len() == 1 && (after, start) == self.after_attempt(looks[0], pts, start_pts)
        } else {
            looks.len() == 0 && after == self && start == TrackStart::NothingPending
        }
    }

    /// The table of starts once the input was resumed at `pts`.
    pub open spec fn slots_resumed(self, pts: Duration, slots: Seq<Option<Duration>>) -> Seq<
        Option<Duration>,
    > {
        match pause_time(self.paused_since, pts) {
            Some(paused) => moved_by(slots, self.track_offset.slot(), paused),
            None => slots,
        }
    }

    /// Where a new track starts: a slot that was there, or a new one with this content.
    pub open spec fn new_slot(opts: QueueTrackOptions, timing: Option<QueueTrackTiming>) -> Option<
        Option<Duration>,
    > {
        if timing is Some && timing->0 is Continuation {
            None
        } else {
            match opts.offset {
                QueueTrackOffset::Pts(pts) => Some(Some(pts)),
                _ => Some(None),
            }
        }
    }

    /// `track` is what a track with these options and this timing becomes.
    pub open spec fn planned(
        self,
        opts: QueueTrackOptions,
        timing: Option<QueueTrackTiming>,
        slots: Seq<Option<Duration>>,
        track: NewTrack,
    ) -> bool {
        let duration = match timing {
            Some(timing) => Some(timing.length()),
            None => None,
        };
        let continues = timing is Some && timing->0 is Continuation;
        let setup = TrackSetup {
            required: self.required,
            offset_from_start: match opts.offset {
                QueueTrackOffset::FromStart(offset) if !continues => Some(offset),
                _ => None,
            },
            track_offset: track.track_offset,
            duration,
            delay: self.side_channel_delay,
            lane: None,
        };
        &&& if continues {
            track.track_offset == self.queued_end->0
        } else {
            track.track_offset.slot() == slots.len() && track.track_offset.extra().nanos == 0
        }
        &&& match duration {
            Some(duration) => match track.end_condition {
                TrackEndCondition::Pts(end) => {
                    &&& end.slot() == track.track_offset.slot()
                    &&& end.extra().nanos == track.track_offset.extra().nanos + duration.nanos
                        + self.side_channel_delay.nanos
                },
                TrackEndCondition::AllTracks => false,
            },
            None => track.end_condition == TrackEndCondition::AllTracks,
        }
        &&& track.video == (if opts.video {
            Some(TrackSetup { lane: next_number(self.video_lane), ..setup })
        } else {
            None
        })
        &&& track.audio == (if opts.audio {
            Some(TrackSetup { lane: next_number(self.audio_lane), ..setup })
        } else {
            None
        })
    }

    /// What planning `track` makes of the input.
    pub open spec fn with_planned(
        self,
        opts: QueueTrackOptions,
        timing: Option<QueueTrackTiming>,
        track: NewTrack,
        after: Self,
    ) -> bool {
        &&& after == (InputModel {
            queued_end: after.queued_end,
            video_lane: if opts.video {
                joined(self.video_lane, track.track_offset)
            } else {
                self.video_lane
            },
            audio_lane: if opts.audio {
                joined(self.audio_lane, track.track_offset)
            } else {
                self.audio_lane
            },
            ..self
        })
        &&& match timing {
            Some(timing) => {
                &&& after.queued_end is Some
                &&& after.queued_end->0.slot() == track.track_offset.slot()
                &&& after.queued_end->0.extra().nanos == track.track_offset.extra().nanos
                    + timing.length().nanos
            },
            None => after.queued_end is None,
        }
    }

    /// The tracks that wait in the side channels are abandoned.
    pub open spec fn lanes_abandoned(self) -> Self {
        InputModel {
            video_lane: match self.video_lane {
                Some(lane) => Some(lane.abandoned()),
                None => None,
            },
            audio_lane: match self.audio_lane {
                Some(lane) => Some(lane.abandoned()),
                None => None,
            },
            ..self
        }
    }

    /// The input, ready for a new track: one of known length that continues no other takes the place of
    /// all that wait.
    pub open spec fn cleared_for(self, timing: Option<QueueTrackTiming>) -> Self {
        match timing {
            Some(QueueTrackTiming::Finite(_)) => self.lanes_abandoned(),
            _ => self,
        }
    }

    /// The moments that come with a new track are representable.
    pub open spec fn timing_fits(self, timing: Option<QueueTrackTiming>) -> bool {
        match timing {
            Some(QueueTrackTiming::Finite(duration)) => duration.nanos
                + self.side_channel_delay.nanos <= MAX_NANOS,
            Some(QueueTrackTiming::Continuation(duration)) => {
                &&& self.queued_end is Some
                &&& self.queued_end->0.extra().nanos + duration.nanos
                    + self.side_channel_delay.nanos <= MAX_NANOS
            },
            None => true,
        }
    }

    /// The delivery orders are well formed and have a number left.
    pub open spec fn lanes_open(self) -> bool {
        &&& self.video_lane is Some ==> self.video_lane->0.wf() && self.video_lane->0.next_seq
            < u64::MAX
        &&& self.audio_lane is Some ==> self.audio_lane->0.wf() && self.audio_lane->0.next_seq
            < u64::MAX
    }

    pub open spec fn lanes_wf(self) -> bool {
        &&& self.video_lane is Some ==> self.video_lane->0.wf()
        &&& self.audio_lane is Some ==> self.audio_lane->0.wf()
    }
}

/// The number that the next track gets in a delivery order.
pub open spec fn next_number<T>(lane: Option<LaneModel<TrackOffset, T>>) -> Option<u64> {
    match lane {
        Some(lane) => Some(lane.next_seq as u64),
        None => None,
    }
}

/// A delivery order that a track has joined.
pub open spec fn joined<T>(lane: Option<LaneModel<TrackOffset, T>>, track: TrackOffset) -> Option<
    LaneModel<TrackOffset, T>,
> {
    match lane {
        Some(lane) => Some(lane.registered(track)),
        None => None,
    }
}

/// Every attempt asked `channel` for an item; each but the last received one, and the last did not.
pub open spec fn drained<T>(attempts: Seq<Attempt<T>>, channel: Receiver<T>) -> bool {
    &&& 0 < attempts.len() <= MAX_ATTEMPTS
    &&& forall|i: int|
        0 <= i < attempts.len() - 1 ==> (#[trigger] attempts[i]).brought()
    &&& forall|i: int|
        0 <= i < attempts.len() ==> (#[trigger] attempts[i]).answered_by(channel)
    &&& attempts.last().received is Some
    &&& attempts.len() < MAX_ATTEMPTS ==> !attempts.last().brought()
}

/// The tracks of an input.
#[verifier::reject_recursive_types(V)]
#[verifier::reject_recursive_types(A)]
pub struct InnerQueueInput<V, A, F, S> {
    video: Option<V>,
    audio: Option<A>,
    track_offset: TrackOffset,
    end_condition: TrackEndCondition,
    queued_end: Option<TrackOffset>,
    pause_state: PauseState,
    pending_receiver: EventReceiver<PendingTrack<V, A>>,
    required: bool,
    video_lane: Option<SideChannelLane<TrackOffset, F>>,
    audio_lane: Option<SideChannelLane<TrackOffset, S>>,
    side_channel_delay: Duration,
}

impl<V, A, F: QueueItem, S: QueueItem> InnerQueueInput<V, A, F, S> {
    pub closed spec fn model(self) -> InputModel<V, A, F, S> {
        InputModel {
            video: self.video,
            audio: self.audio,
            track_offset: self.track_offset,
            end_condition: self.end_condition,
            queued_end: self.queued_end,
            paused_since: self.pause_state.since(),
            required: self.required,
            video_lane: match self.video_lane {
                Some(lane) => Some(lane.model()),
                None => None,
            },
            audio_lane: match self.audio_lane {
                Some(lane) => Some(lane.model()),
                None => None,
            },
            side_channel_delay: self.side_channel_delay,
        }
    }

    /// The channel that pending tracks are taken from.
    pub closed spec fn pending_channel(self) -> Receiver<PendingTrack<V, A>> {
        self.pending_receiver.channel()
    }

    /// Every attempt made to take a pending track.
    pub closed spec fn attempts(self) -> Seq<Attempt<PendingTrack<V, A>>> {
        self.pending_receiver.attempts()
    }

    /// An input without a track, and the channel through which tracks are added.
    pub fn new(
        required: bool,
        side_channel_delay: Duration,
        video_side_channel: bool,
        audio_side_channel: bool,
        shared: &mut SharedPts,
    ) -> (r: (Self, Sender<PendingTrack<V, A>>))
        ensures
            r.0.attempts().len() == 0,
            ends_of(MAX_PENDING_TRACKS, r.1, r.0.pending_channel()),
            final(shared)@ == old(shared)@.push(None),
            r.0.model().track_offset.slot() == old(shared)@.len(),
            r.0.model().track_offset.extra().nanos == 0,
            r.0.model().lanes_open(),
            r.0.model() == (InputModel::<V, A, F, S> {
                video: None,
                audio: None,
                track_offset: r.0.model().track_offset,
                end_condition: TrackEndCondition::AllTracks,
                queued_end: None,
                paused_since: None,
                required,
                video_lane: fresh_lane(video_side_channel),
                audio_lane: fresh_lane(audio_side_channel),
                side_channel_delay,
            }),
    {
        let (sender, receiver) = make_channel(MAX_PENDING_TRACKS);
        let input = InnerQueueInput {
            video: None,
            audio: None,
            track_offset: TrackOffset::unsettled(shared),
            end_condition: TrackEndCondition::AllTracks,
            queued_end: None,
            pause_state: PauseState::new(),
            pending_receiver: EventReceiver::new(receiver),
            required,
            video_lane: if video_side_channel {
                Some(SideChannelLane::new())
            } else {
                None
            },
            audio_lane: if audio_side_channel {
                Some(SideChannelLane::new())
            } else {
                None
            },
            side_channel_delay,
        };
        (input, sender)
    }

    /// Whether the end of the current track, if it is known, can be told.
    pub fn end_can_be_told(&self, shared: &SharedPts) -> (r: bool)
        requires
            self.model().end_condition matches TrackEndCondition::Pts(end) ==> end.valid(shared@),
        ensures
            r == (self.model().end_condition matches TrackEndCondition::Pts(end) ==> (end.value(
                shared@,
            ) is Some ==> end.value(shared@)->0 <= MAX_NANOS)),
    {
        match self.end_condition {
            TrackEndCondition::AllTracks => true,
            TrackEndCondition::Pts(end) => end.can_be_told(shared),
        }
    }

    /// Starts the next pending track if the current one is over at `pts`.
    pub fn maybe_start_next_track(
        &mut self,
        pts: Duration,
        start_pts: Option<Duration>,
        video_eos_sent: bool,
        audio_eos_sent: bool,
        shared: &SharedPts,
    ) -> (r: TrackStart)
        requires
            old(self).model().end_condition matches TrackEndCondition::Pts(end) ==> end.valid(
                shared@,
            ) && (end.value(shared@) is Some ==> end.value(shared@)->0 <= MAX_NANOS),
        ensures
            final(self).pending_channel() == old(self).pending_channel(),
            old(self).model().moved_on(
                pts,
                start_pts,
                old(self).model().ended(pts, video_eos_sent, audio_eos_sent, shared@),
                final(self).attempts().skip(old(self).attempts().len() as int),
                final(self).model(),
                r,
            ),
            if old(self).model().ended(pts, video_eos_sent, audio_eos_sent, shared@) {
                &&& final(self).attempts().len() == old(self).attempts().len() + 1
                &&& final(self).attempts().drop_last() == old(self).attempts()
                &&& (final(self).model(), r) == old(self).model().after_attempt(
                    final(self).attempts().last(),
                    pts,
                    start_pts,
                )
                &&& final(self).attempts().last().received is Some
                &&& final(self).attempts().last().answered_by(old(self).pending_channel())
            } else {
                r == TrackStart::NothingPending && *final(self) == *old(self)
            },
    {
        let all_ended = (self.video.is_none() || video_eos_sent) && (self.audio.is_none()
            || audio_eos_sent);
        let ended = match self.end_condition {
            TrackEndCondition::AllTracks => all_ended,
            TrackEndCondition::Pts(end) => match end.get(shared) {
                Some(end) => pts.nanos >= end.nanos,
                None => all_ended,
            },
        };
        let ghost before = self.attempts();
        if ended {
            let r = self.replace_track(pts, start_pts);
            assert(self.attempts().skip(before.len() as int) =~= seq![self.attempts().last()]);
            r
        } else {
            assert(before.skip(before.len() as int).len() == 0);
            TrackStart::NothingPending
        }
    }

    /// Replaces the current track by the next pending one. Does nothing if none is pending.
    pub fn replace_track(&mut self, pts: Duration, start_pts: Option<Duration>) -> (r: TrackStart)
        ensures
            final(self).pending_channel() == old(self).pending_channel(),
            final(self).attempts().len() == old(self).attempts().len() + 1,
            final(self).attempts().drop_last() == old(self).attempts(),
            final(self).attempts().last().received is Some,
            final(self).attempts().last().answered_by(old(self).pending_channel()),
            (final(self).model(), r) == old(self).model().after_attempt(
                final(self).attempts().last(),
                pts,
                start_pts,
            ),
    {
        let attempt = self.pending_receiver.attempt(true);
        assert(self.attempts().drop_last() =~= old(self).attempts());
        let r = match attempt.received {
            Some(Ok(pending)) => self.start(pending, pts, start_pts),
            _ => TrackStart::NothingPending,
        };
        r
    }

    /// Puts a track that was pending in the place of the current one.
    pub fn start(
        &mut self,
        pending: PendingTrack<V, A>,
        pts: Duration,
        start_pts: Option<Duration>,
    ) -> (r: TrackStart)
        ensures
            final(self).pending_channel() == old(self).pending_channel(),
            final(self).attempts() == old(self).attempts(),
            (final(self).model(), r) == old(self).model().replaced(pending, pts, start_pts),
    {
        self.video = pending.video;
        self.audio = pending.audio;
        self.track_offset = pending.track_offset;
        self.end_condition = pending.end_condition;
        if self.pause_state.is_paused() {
            let wake_video = if self.video.is_some() {
                match start_pts {
                    Some(start_pts) => Some(Wake::ReadyFor { pts, start_pts }),
                    None => Some(Wake::DropOld),
                }
            } else {
                None
            };
            self.pause_state.reset(pts);
            TrackStart::Paused { wake_video, audio: self.audio.is_some() }
        } else {
            TrackStart::Running
        }
    }

    /// The current track gives way to the next pending one, whether it is over or not.
    pub fn abort_old_track(&mut self, pts: Duration, start_pts: Option<Duration>) -> (r: TrackStart)
        ensures
            final(self).pending_channel() == old(self).pending_channel(),
            final(self).attempts().len() == old(self).attempts().len() + 1,
            final(self).attempts().drop_last() == old(self).attempts(),
            final(self).attempts().last().received is Some,
            final(self).attempts().last().answered_by(old(self).pending_channel()),
            (final(self).model(), r) == old(self).model().after_attempt(
                final(self).attempts().last(),
                pts,
                start_pts,
            ),
    {
        self.replace_track(pts, start_pts)
    }

    /// Plans a track: where it starts and ends, how its parts and their senders are set up. It takes
    /// its place in the delivery orders of the side channels.
    pub fn new_pending_track(
        &mut self,
        opts: QueueTrackOptions,
        timing: Option<QueueTrackTiming>,
        shared: &mut SharedPts,
    ) -> (r: NewTrack)
        requires
            old(self).model().lanes_open(),
            old(self).model().timing_fits(timing),
        ensures
            final(self).pending_channel() == old(self).pending_channel(),
            final(self).attempts() == old(self).attempts(),
            old(self).model().planned(opts, timing, old(shared)@, r),
            old(self).model().with_planned(opts, timing, r, final(self).model()),
            final(shared)@ == match InputModel::<V, A, F, S>::new_slot(opts, timing) {
                Some(content) => old(shared)@.push(content),
                None => old(shared)@,
            },
            final(self).model().lanes_wf(),
    {
        let duration = match timing {
            Some(QueueTrackTiming::Finite(duration)) => Some(duration),
            Some(QueueTrackTiming::Continuation(duration)) => Some(duration),
            None => None,
        };
        let (track_offset, offset_from_start) = match (timing, self.queued_end) {
            (Some(QueueTrackTiming::Continuation(_)), Some(queued_end)) => (queued_end, None),
            _ => match opts.offset {
                QueueTrackOffset::Unset => (TrackOffset::unsettled(shared), None),
                QueueTrackOffset::Pts(pts) => (TrackOffset::new(pts, shared), None),
                QueueTrackOffset::FromStart(offset) => (
                    TrackOffset::unsettled(shared),
                    Some(offset),
                ),
            },
        };
        let (queued_end, end_condition) = match duration {
            Some(duration) => (
                Some(track_offset.after(duration)),
                TrackEndCondition::Pts(
                    track_offset.after(duration.plus(self.side_channel_delay)),
                ),
            ),
            None => (None, TrackEndCondition::AllTracks),
        };
        self.queued_end = queued_end;
        let setup = TrackSetup {
            required: self.required,
            offset_from_start,
            track_offset,
            duration,
            delay: self.side_channel_delay,
            lane: None,
        };
        let video = if opts.video {
            let lane = match self.video_lane.as_mut() {
                Some(lane) => Some(lane.register(track_offset)),
                None => None,
            };
            Some(TrackSetup { lane, ..setup })
        } else {
            None
        };
        let audio = if opts.audio {
            let lane = match self.audio_lane.as_mut() {
                Some(lane) => Some(lane.register(track_offset)),
                None => None,
            };
            Some(TrackSetup { lane, ..setup })
        } else {
            None
        };
        NewTrack { track_offset, end_condition, video, audio }
    }

    /// Plans a track that is added to the pending ones; there is none if it has neither video nor
    /// audio. A track of known length that does not continue another one discards every track that
    /// waits.
    pub fn queue_new_track_inner(
        &mut self,
        opts: QueueTrackOptions,
        timing: Option<QueueTrackTiming>,
        shared: &mut SharedPts,
    ) -> (r: Option<NewTrack>)
        requires
            old(self).model().lanes_wf(),
            opts.video || opts.audio ==> {
                &&& old(self).model().lanes_open()
                &&& old(self).model().timing_fits(timing)
            },
        ensures
            final(self).pending_channel() == old(self).pending_channel(),
            final(self).model().lanes_wf(),
            r is Some <==> opts.video || opts.audio,
            r is None ==> *final(self) == *old(self) && final(shared)@ == old(shared)@,
            r is Some ==> {
                let start = if timing is Some && timing->0 is Finite {
                    old(self).model().lanes_abandoned()
                } else {
                    old(self).model()
                };
                &&& start == old(self).model().cleared_for(timing)
                &&& start.planned(opts, timing, old(shared)@, r->0)
                &&& start.with_planned(opts, timing, r->0, final(self).model())
                &&& final(shared)@ == match InputModel::<V, A, F, S>::new_slot(opts, timing) {
                    Some(content) => old(shared)@.push(content),
                    None => old(shared)@,
                }
                &&& if timing is Some && timing->0 is Finite {
                    &&& old(self).attempts().len() < final(self).attempts().len()
                    &&& final(self).attempts().take(old(self).attempts().len() as int) == old(self).attempts()
                    &&& drained(
                        final(self).attempts().skip(old(self).attempts().len() as int),
                        old(self).pending_channel(),
                    )
                } else {
                    final(self).attempts() == old(self).attempts()
                }
            },
    {
        if !opts.video && !opts.audio {
            return None;
        }
        if let Some(QueueTrackTiming::Finite(_)) = timing {
            self.discard_pending();
            if let Some(lane) = self.video_lane.as_mut() {
                lane.abandon_queued();
            }
            if let Some(lane) = self.audio_lane.as_mut() {
                lane.abandon_queued();
            }
            assert(self.model() == old(self).model().lanes_abandoned());
        }
        Some(self.new_pending_track(opts, timing, shared))
    }

    /// Takes out pending tracks until none is left.
    fn discard_pending(&mut self)
        ensures
            final(self).pending_channel() == old(self).pending_channel(),
            final(self).model() == old(self).model(),
            old(self).attempts().len() < final(self).attempts().len(),
            final(self).attempts().take(old(self).attempts().len() as int) == old(self).attempts(),
            drained(
                final(self).attempts().skip(old(self).attempts().len() as int),
                old(self).pending_channel(),
            ),
    {
        let ghost before = self.attempts();
        let ghost mut made: Seq<Attempt<PendingTrack<V, A>>> = Seq::empty();
        let mut attempts: u64 = 0;
        assert(before + made =~= before);
        loop
            invariant
                before == old(self).attempts(),
                self.model() == old(self).model(),
                made.len() == attempts,
                attempts < MAX_ATTEMPTS,
                self.attempts() == before + made,
                self.pending_channel() == old(self).pending_channel(),
                forall|i: int|
                    0 <= i < made.len() ==> (#[trigger] made[i]).brought(),
                forall|i: int|
                    0 <= i < made.len() ==> (#[trigger] made[i]).answered_by(
                        self.pending_channel(),
                    ),
            decreases MAX_ATTEMPTS - attempts,
        {
            let attempt = self.pending_receiver.attempt(true);
            attempts = attempts + 1;
            let ghost earlier = made;
            proof {
                made = made.push(attempt);
                assert(self.attempts() =~= before + made);
                assert(self.attempts().take(before.len() as int) =~= before);
                assert(self.attempts().skip(before.len() as int) =~= made);
                assert forall|i: int| 0 <= i < made.len() - 1 implies (
                #[trigger] made[i]).brought() by {
                    assert(made[i] == earlier[i]);
                }
            }
            let received = match &attempt.received {
                Some(Ok(_)) => true,
                _ => false,
            };
            if !received || attempts == MAX_ATTEMPTS {
                return;
            }
        }
    }

    /// Whether a track with this timing can be planned: a continuation needs a track of known length
    /// before it, its end must be representable, and the delivery orders must have a number left.
    pub fn accepts(&self, timing: Option<QueueTrackTiming>) -> (r: bool)
        requires
            self.model().lanes_wf(),
        ensures
            r == (self.model().timing_fits(timing) && self.model().lanes_open()),
    {
        let video_open = match &self.video_lane {
            Some(lane) => lane.registered() < u64::MAX,
            None => true,
        };
        let audio_open = match &self.audio_lane {
            Some(lane) => lane.registered() < u64::MAX,
            None => true,
        };
        let delay: u128 = self.side_channel_delay.nanos;
        let fits = match timing {
            Some(QueueTrackTiming::Finite(duration)) => duration.nanos <= MAX_NANOS && delay
                <= MAX_NANOS - duration.nanos,
            Some(QueueTrackTiming::Continuation(duration)) => match &self.queued_end {
                Some(end) => end.follows_within(duration, self.side_channel_delay),
                None => false,
            },
            None => true,
        };
        fits && video_open && audio_open
    }

    /// The video part of the current track.
    pub fn video(&mut self) -> (r: &mut Option<V>)
        ensures
            final(self).pending_channel() == old(self).pending_channel(),
            *r == old(self).model().video,
            final(self).model() == (InputModel { video: *final(r), ..old(self).model() }),
            final(self).attempts() == old(self).attempts(),
    {
        &mut self.video
    }

    /// The audio part of the current track.
    pub fn audio(&mut self) -> (r: &mut Option<A>)
        ensures
            final(self).pending_channel() == old(self).pending_channel(),
            *r == old(self).model().audio,
            final(self).model() == (InputModel { audio: *final(r), ..old(self).model() }),
            final(self).attempts() == old(self).attempts(),
    {
        &mut self.audio
    }

    /// The delivery order of the video side channel.
    pub fn video_lane(&mut self) -> (r: &mut Option<SideChannelLane<TrackOffset, F>>)
        ensures
            final(self).pending_channel() == old(self).pending_channel(),
            lane_model(*r) == old(self).model().video_lane,
            final(self).model() == (InputModel {
                video_lane: lane_model(*final(r)),
                ..old(self).model()
            }),
            final(self).attempts() == old(self).attempts(),
    {
        &mut self.video_lane
    }

    /// The delivery order of the audio side channel.
    pub fn audio_lane(&mut self) -> (r: &mut Option<SideChannelLane<TrackOffset, S>>)
        ensures
            final(self).pending_channel() == old(self).pending_channel(),
            lane_model(*r) == old(self).model().audio_lane,
            final(self).model() == (InputModel {
                audio_lane: lane_model(*final(r)),
                ..old(self).model()
            }),
            final(self).attempts() == old(self).attempts(),
    {
        &mut self.audio_lane
    }

    /// Pauses the input at `pts`: the moment is remembered, and its parts pause. An input that is
    /// paused stays so.
    pub fn pause(&mut self, pts: Duration) -> (r: Parts)
        ensures
            final(self).pending_channel() == old(self).pending_channel(),
            final(self).attempts() == old(self).attempts(),
            (final(self).model(), r) == old(self).model().paused(pts),
            if old(self).model().paused_since is Some {
                final(self).model() == old(self).model() && r == (Parts {
                    video: false,
                    audio: false,
                })
            } else {
                &&& final(self).model() == (InputModel {
                    paused_since: Some(pts),
                    ..old(self).model()
                })
                &&& r == (Parts {
                    video: old(self).model().video is Some,
                    audio: old(self).model().audio is Some,
                })
            },
    {
        if self.pause_state.is_paused() {
            return Parts { video: false, audio: false };
        }
        self.pause_state.pause(pts);
        Parts { video: self.video.is_some(), audio: self.audio.is_some() }
    }

    /// Whether the current track can be moved by the pause that ends at `pts`, if there is one.
    pub fn can_resume(&self, pts: Duration, shared: &SharedPts) -> (r: bool)
        requires
            self.model().track_offset.valid(shared@),
        ensures
            r == (self.model().paused_since is Some
                && shared@[self.model().track_offset.slot()] is Some
                ==> shared@[self.model().track_offset.slot()]->0.nanos + pause_time(
                self.model().paused_since,
                pts,
            )->0.nanos <= MAX_NANOS),
    {
        let mut pause_state = self.pause_state;
        match pause_state.resume(pts) {
            Some(pause_time) => self.track_offset.moves_within(pause_time, shared),
            None => true,
        }
    }

    /// Resumes the input at `pts`. A track that has started is moved by the length of the pause; one
    /// that has not starts whenever it does.
    pub fn resume(&mut self, pts: Duration, shared: &mut SharedPts) -> (r: Parts)
        requires
            old(self).model().track_offset.valid(old(shared)@),
            old(self).model().paused_since is Some && old(shared)@[old(self).model().track_offset.slot()] is Some ==> old(shared)@[old(self).model().track_offset.slot()]->0.nanos + pause_time(
                old(self).model().paused_since,
                pts,
            )->0.nanos <= MAX_NANOS,
        ensures
            final(self).pending_channel() == old(self).pending_channel(),
            final(self).attempts() == old(self).attempts(),
            (final(self).model(), r) == old(self).model().resumed(),
            final(shared)@ == old(self).model().slots_resumed(pts, old(shared)@),
            final(self).model() == (InputModel { paused_since: None, ..old(self).model() }),
            if old(self).model().paused_since is Some {
                let slot = old(self).model().track_offset.slot();
                let paused = pause_time(old(self).model().paused_since, pts)->0;
                &&& r == (Parts {
                    video: old(self).model().video is Some,
                    audio: old(self).model().audio is Some,
                })
                &&& final(shared)@ == moved_by(old(shared)@, slot, paused)
            } else {
                r == (Parts { video: false, audio: false }) && final(shared)@ == old(shared)@
            },
    {
        if !self.pause_state.is_paused() {
            return Parts { video: false, audio: false };
        }
        if let Some(pause_time) = self.pause_state.resume(pts) {
            self.track_offset.map_add(pause_time, shared);
        }
        Parts { video: self.video.is_some(), audio: self.audio.is_some() }
    }
}

/// The delivery order, if there is one, seen from outside.
pub open spec fn lane_model<T: QueueItem>(lane: Option<SideChannelLane<TrackOffset, T>>) -> Option<
    LaneModel<TrackOffset, T>,
> {
    match lane {
        Some(lane) => Some(lane.model()),
        None => None,
    }
}

/// The start of the track in this slot moves by `duration`, if it is known.
pub open spec fn moved_by(slots: Seq<Option<Duration>>, slot: int, duration: Duration) -> Seq<
    Option<Duration>,
> {
    match slots[slot] {
        Some(base) => slots.update(
            slot,
            Some(Duration { nanos: (base.nanos + duration.nanos) as u128 }),
        ),
        None => slots,
    }
}

/// A track that has started lies as much later as the pause was long, and every moment fixed
/// relative to it, such as its end, with it. A track that has not started is not touched, and
/// neither is any other track.
pub proof fn lemma_pause_moves_track_by_its_length(
    track: TrackOffset,
    moment: TrackOffset,
    slots: Seq<Option<Duration>>,
    paused_at: Duration,
    resumed_at: Duration,
    other: TrackOffset,
)
    requires
        track.valid(slots),
        moment.slot() == track.slot(),
        other.valid(slots),
        other.slot() != track.slot(),
        paused_at.nanos <= resumed_at.nanos,
        slots[track.slot()] is Some ==> slots[track.slot()]->0.nanos + resumed_at.nanos
            - paused_at.nanos <= MAX_NANOS,
    ensures
        ({
            let length = pause_time(Some(paused_at), resumed_at)->0;
            let later = moved_by(slots, track.slot(), length);
            &&& track.value(slots) is Some ==> moment.value(later) == Some(
                moment.value(slots)->0 + resumed_at.nanos - paused_at.nanos,
            )
            &&& track.value(slots) is None ==> later == slots
            &&& other.value(later) == other.value(slots)
        }),
{
}

/// A continuation starts exactly where the preceding track ends, whenever that turns out to be.
pub proof fn lemma_continuation_starts_at_end<V, A, F, S>(
    before: InputModel<V, A, F, S>,
    opts: QueueTrackOptions,
    timing: QueueTrackTiming,
    track: NewTrack,
    after: InputModel<V, A, F, S>,
    next_opts: QueueTrackOptions,
    length: Duration,
    slots: Seq<Option<Duration>>,
    next: NewTrack,
    later: Seq<Option<Duration>>,
)
    requires
        before.with_planned(opts, Some(timing), track, after),
        after.planned(next_opts, Some(QueueTrackTiming::Continuation(length)), slots, next),
    ensures
        next.track_offset.value(later) is Some <==> track.track_offset.value(later) is Some,
        track.track_offset.value(later) is Some ==> next.track_offset.value(later)->0
            == track.track_offset.value(later)->0 + timing.length().nanos,
{
}

/// A track of known length keeps its place until all its content, moved by the delay of the side
/// channel, is over.
pub proof fn lemma_timed_track_plays_out<V, A, F, S>(
    input: InputModel<V, A, F, S>,
    opts: QueueTrackOptions,
    timing: QueueTrackTiming,
    slots: Seq<Option<Duration>>,
    track: NewTrack,
    current: InputModel<V, A, F, S>,
    pts: Duration,
    video_eos_sent: bool,
    audio_eos_sent: bool,
    later: Seq<Option<Duration>>,
)
    requires
        input.planned(opts, Some(timing), slots, track),
        current.end_condition == track.end_condition,
        track.track_offset.value(later) is Some,
    ensures
        current.ended(pts, video_eos_sent, audio_eos_sent, later) <==> pts.nanos
            >= track.track_offset.value(later)->0 + timing.length().nanos
            + input.side_channel_delay.nanos,
{
}

/// A track that waits is never started while a part of the current one, whose length is not known,
/// still plays.
pub proof fn lemma_next_track_waits_for_both_parts<V, A, F, S>(
    current: InputModel<V, A, F, S>,
    pts: Duration,
    video_eos_sent: bool,
    audio_eos_sent: bool,
    slots: Seq<Option<Duration>>,
)
    requires
        current.end_condition == TrackEndCondition::AllTracks,
    ensures
        current.video is Some && !video_eos_sent ==> !current.ended(
            pts,
            video_eos_sent,
            audio_eos_sent,
            slots,
        ),
        current.audio is Some && !audio_eos_sent ==> !current.ended(
            pts,
            video_eos_sent,
            audio_eos_sent,
            slots,
        ),
        video_eos_sent && audio_eos_sent ==> current.ended(
            pts,
            video_eos_sent,
            audio_eos_sent,
            slots,
        ),
{
}

/// A track of known length is over once its end has come, whatever its parts do; any other track, and
/// one whose start is not known, is over when each part that it has has ended.
pub proof fn lemma_when_a_track_is_over<V, A, F, S>(
    current: InputModel<V, A, F, S>,
    pts: Duration,
    video_eos_sent: bool,
    audio_eos_sent: bool,
    slots: Seq<Option<Duration>>,
)
    ensures
        ({
            let over = current.ended(pts, video_eos_sent, audio_eos_sent, slots);
            let plays_on = (current.video is Some && !video_eos_sent) || (current.audio is Some
                && !audio_eos_sent);
            match current.end_condition {
                TrackEndCondition::AllTracks => over <==> !plays_on,
                TrackEndCondition::Pts(end) => match slots[end.slot()] {
                    Some(start) => over <==> pts.nanos >= start.nanos + end.extra().nanos,
                    None => over <==> !plays_on,
                },
            }
        }),
{
}

/// A track that takes the place of another brings its own parts, start and end, and nothing else
/// changes. It plays at once unless the input is paused. Then both its parts are held, its video part
/// after it has taken in a frame, and the pause counts from now on: it did not last for this track
/// before.
pub proof fn lemma_new_track_takes_the_place<V, A, F, S>(
    before: InputModel<V, A, F, S>,
    pending: PendingTrack<V, A>,
    pts: Duration,
    start_pts: Option<Duration>,
    resumed_at: Duration,
)
    requires
        pts.nanos <= resumed_at.nanos,
    ensures
        ({
            let (after, start) = before.replaced(pending, pts, start_pts);
            &&& after.video == pending.video && after.audio == pending.audio
            &&& after.track_offset == pending.track_offset && after.end_condition
                == pending.end_condition
            &&& after.queued_end == before.queued_end && after.required == before.required
                && after.side_channel_delay == before.side_channel_delay
            &&& after.video_lane == before.video_lane && after.audio_lane == before.audio_lane
            &&& before.paused_since is None ==> after.paused_since is None && start
                == TrackStart::Running
            &&& before.paused_since is Some ==> {
                &&& pause_time(after.paused_since, resumed_at) is Some
                &&& pause_time(after.paused_since, resumed_at)->0.nanos == resumed_at.nanos
                    - pts.nanos
                &&& start matches TrackStart::Paused { wake_video, audio } && {
                    &&& audio <==> pending.audio is Some
                    &&& wake_video is Some <==> pending.video is Some
                    &&& wake_video is Some ==> {
                        match wake_video->0 {
                            Wake::ReadyFor { pts: asked, start_pts: known } => asked == pts
                                && start_pts == Some(known),
                            Wake::DropOld => start_pts is None,
                        }
                    }
                }
            }
        }),
{
}

/// A pause lasts from the moment it began, and not at all where it has not begun yet.
pub proof fn lemma_length_of_a_pause(began: Duration, pts: Duration)
    ensures
        pause_time(None, pts) is None,
        pause_time(Some(began), pts) is Some,
        pts.nanos >= began.nanos ==> began.nanos + pause_time(Some(began), pts)->0.nanos
            == pts.nanos,
        pts.nanos <= began.nanos ==> pause_time(Some(began), pts)->0.nanos == 0,
{
}

/// A pause lasts from the first time that it is asked for, however often it is, until the input is
/// resumed, and then the input is as it was. Each part that there is pauses once and resumes once.
pub proof fn lemma_pause_lasts_until_resumed<V, A, F, S>(
    input: InputModel<V, A, F, S>,
    pts: Duration,
    again: Duration,
    resumed_at: Duration,
)
    requires
        input.paused_since is None,
        pts.nanos <= resumed_at.nanos,
    ensures
        ({
            let (first, halted) = input.paused(pts);
            let (second, nothing) = first.paused(again);
            let (after, restarted) = second.resumed();
            let (later, no_more) = after.resumed();
            &&& pause_time(second.paused_since, resumed_at) is Some
            &&& pts.nanos + pause_time(second.paused_since, resumed_at)->0.nanos
                == resumed_at.nanos
            &&& after == input && later == input
            &&& halted.video <==> input.video is Some
            &&& halted.audio <==> input.audio is Some
            &&& restarted == halted
            &&& !nothing.video && !nothing.audio
            &&& !no_more.video && !no_more.audio
        }),
{
}

/// A new track has the parts that were asked for, set up alike: with the input's own settings, the
/// length of the track, and each with the next number in the delivery order of its media. Only a track
/// that is to start some time after the queue, and continues no other, is placed by that time.
pub proof fn lemma_track_is_planned_as_asked<V, A, F, S>(
    input: InputModel<V, A, F, S>,
    opts: QueueTrackOptions,
    timing: Option<QueueTrackTiming>,
    slots: Seq<Option<Duration>>,
    track: NewTrack,
    part: TrackSetup,
)
    requires
        input.planned(opts, timing, slots, track),
        track.video == Some(part) || track.audio == Some(part),
    ensures
        track.video is Some <==> opts.video,
        track.audio is Some <==> opts.audio,
        part.required == input.required,
        part.delay == input.side_channel_delay,
        part.track_offset == track.track_offset,
        part.duration == match timing {
            Some(QueueTrackTiming::Finite(length)) => Some(length),
            Some(QueueTrackTiming::Continuation(length)) => Some(length),
            None => None,
        },
        part.offset_from_start == match (opts.offset, timing) {
            (_, Some(QueueTrackTiming::Continuation(_))) => None,
            (QueueTrackOffset::FromStart(offset), _) => Some(offset),
            _ => None,
        },
        track.video is Some ==> {
            &&& track.video->0.lane is Some <==> input.video_lane is Some
            &&& input.video_lane is Some && 0 <= input.video_lane->0.next_seq <= u64::MAX
                ==> track.video->0.lane->0 == input.video_lane->0.next_seq
        },
        track.audio is Some ==> {
            &&& track.audio->0.lane is Some <==> input.audio_lane is Some
            &&& input.audio_lane is Some && 0 <= input.audio_lane->0.next_seq <= u64::MAX
                ==> track.audio->0.lane->0 == input.audio_lane->0.next_seq
        },
        timing is None <==> track.end_condition == TrackEndCondition::AllTracks,
{
}

/// The start of a new track that continues no other is its own: no track that was there shares it. It
/// is known where the track was given a moment, and settled later otherwise.
pub proof fn lemma_start_of_a_new_track<V, A, F, S>(
    input: InputModel<V, A, F, S>,
    opts: QueueTrackOptions,
    timing: Option<QueueTrackTiming>,
    slots: Seq<Option<Duration>>,
    track: NewTrack,
    other: TrackOffset,
)
    requires
        input.planned(opts, timing, slots, track),
        !(timing is Some && timing->0 is Continuation),
        other.valid(slots),
    ensures
        ({
            let content = InputModel::<V, A, F, S>::new_slot(opts, timing);
            let after = slots.push(content->0);
            &&& content is Some
            &&& track.track_offset.valid(after)
            &&& track.track_offset.slot() != other.slot()
            &&& other.value(after) == other.value(slots)
            &&& track.track_offset.value(after) == match opts.offset {
                QueueTrackOffset::Pts(pts) => Some(pts.nanos as int),
                _ => None,
            }
        }),
{
}

/// A continuation needs no start of its own.
pub proof fn lemma_continuation_has_no_start_of_its_own<V, A, F, S>(
    opts: QueueTrackOptions,
    length: Duration,
)
    ensures
        InputModel::<V, A, F, S>::new_slot(
            opts,
            Some(QueueTrackTiming::Continuation(length)),
        ) is None,
{
}

/// A track takes its place in the delivery order of each media that it has, behind all others, and in no
/// other one. A track can be continued exactly if its length is known, and nothing else about the
/// input changes.
pub proof fn lemma_planned_track_joins_the_order<V, A, F, S>(
    before: InputModel<V, A, F, S>,
    opts: QueueTrackOptions,
    timing: Option<QueueTrackTiming>,
    track: NewTrack,
    after: InputModel<V, A, F, S>,
    length: Duration,
)
    requires
        before.lanes_open(),
        before.with_planned(opts, timing, track, after),
    ensures
        !opts.video ==> after.video_lane == before.video_lane,
        !opts.audio ==> after.audio_lane == before.audio_lane,
        after.video_lane is Some <==> before.video_lane is Some,
        after.audio_lane is Some <==> before.audio_lane is Some,
        opts.video && before.video_lane is Some ==> {
            &&& after.video_lane->0.next_seq == before.video_lane->0.next_seq + 1
            &&& before.video_lane->0.head_channel is Some ==> after.video_lane->0.queued.last().channel
                == track.track_offset && after.video_lane->0.queued.drop_last()
                == before.video_lane->0.queued
        },
        opts.audio && before.audio_lane is Some ==> {
            &&& after.audio_lane->0.next_seq == before.audio_lane->0.next_seq + 1
            &&& before.audio_lane->0.head_channel is Some ==> after.audio_lane->0.queued.last().channel
                == track.track_offset && after.audio_lane->0.queued.drop_last()
                == before.audio_lane->0.queued
        },
        after.video == before.video && after.audio == before.audio,
        after.track_offset == before.track_offset,
        after.end_condition == before.end_condition,
        after.paused_since == before.paused_since,
        after.required == before.required,
        after.side_channel_delay == before.side_channel_delay,
        after.queued_end is Some <==> timing is Some,
        timing is None ==> !after.timing_fits(Some(QueueTrackTiming::Continuation(length))),
        timing is Some && track.track_offset.extra().nanos + timing->0.length().nanos
            + length.nanos + before.side_channel_delay.nanos <= MAX_NANOS ==> after.timing_fits(
            Some(QueueTrackTiming::Continuation(length)),
        ),
{
    if opts.video && before.video_lane is Some {
        let lane = before.video_lane->0;
        lemma_new_track_stands_last(lane, track.track_offset);
    }
    if opts.audio && before.audio_lane is Some {
        let lane = before.audio_lane->0;
        lemma_new_track_stands_last(lane, track.track_offset);
    }
}

/// A track of known length that continues no other discards the tracks that wait: it takes the turn and
/// all that was collected from each of them, video and audio alike, and leaves the tracks at the head
/// and the rest of the input alone. Any other track discards nothing.
pub proof fn lemma_waiting_tracks_are_discarded<V, A, F, S>(
    input: InputModel<V, A, F, S>,
    length: Duration,
    i: int,
)
    ensures
        input.cleared_for(None) == input,
        input.cleared_for(Some(QueueTrackTiming::Continuation(length))) == input,
        ({
            let after = input.cleared_for(Some(QueueTrackTiming::Finite(length)));
            &&& after.video_lane is Some <==> input.video_lane is Some
            &&& after.audio_lane is Some <==> input.audio_lane is Some
            &&& input.video_lane is Some ==> {
                let before = input.video_lane->0;
                let left = after.video_lane->0;
                &&& left.head == before.head && left.head_channel == before.head_channel
                &&& left.next_seq == before.next_seq && left.queued.len() == before.queued.len()
                &&& 0 <= i < before.queued.len() ==> left.queued[i].abandoned
                    && left.queued[i].buffer.len() == 0
            }
            &&& input.audio_lane is Some ==> {
                let before = input.audio_lane->0;
                let left = after.audio_lane->0;
                &&& left.head == before.head && left.head_channel == before.head_channel
                &&& left.next_seq == before.next_seq && left.queued.len() == before.queued.len()
                &&& 0 <= i < before.queued.len() ==> left.queued[i].abandoned
                    && left.queued[i].buffer.len() == 0
            }
            &&& after.video == input.video && after.audio == input.audio
            &&& after.track_offset == input.track_offset && after.end_condition
                == input.end_condition && after.queued_end == input.queued_end
            &&& after.paused_since == input.paused_since && after.required == input.required
                && after.side_channel_delay == input.side_channel_delay
        }),
{
}

/// Pending tracks are taken out until there is none: every attempt but the last brought one, and the
/// last found nothing.
pub proof fn lemma_discarding_ends_with_nothing_pending<T>(
    attempts: Seq<Attempt<T>>,
    channel: Receiver<T>,
    i: int,
)
    requires
        drained(attempts, channel),
        attempts.len() < MAX_ATTEMPTS,
        0 <= i < attempts.len() - 1,
    ensures
        attempts[i].received matches Some(Ok(_)),
        attempts.last().received matches Some(Err(_)),
{
    assert(attempts[i].brought());
}

/// When the current track is over, and only then, the pending tracks are looked at, once. If there is
/// one it takes the place of the current track, whether the input is paused or not; otherwise nothing
/// changes.
pub proof fn lemma_pending_track_follows_the_one_that_is_over<V, A, F, S>(
    before: InputModel<V, A, F, S>,
    pts: Duration,
    start_pts: Option<Duration>,
    over: bool,
    looks: Seq<Attempt<PendingTrack<V, A>>>,
    after: InputModel<V, A, F, S>,
    start: TrackStart,
)
    requires
        before.moved_on(pts, start_pts, over, looks, after, start),
    ensures
        looks.len() == if over {
            1nat
        } else {
            0
        },
        ({
            let found = over && looks[0].received is Some && looks[0].received->0 is Ok;
            &&& found ==> {
                let pending = looks[0].received->0->Ok_0;
                &&& after.video == pending.video && after.audio == pending.audio
                &&& after.track_offset == pending.track_offset
                &&& after.end_condition == pending.end_condition
                &&& start != TrackStart::NothingPending
            }
            &&& !found ==> after == before && start == TrackStart::NothingPending
        }),
{
}

/// An input that is resumed moves the start of its track, if it is known, by as long as it was paused,
/// and no other start. One that was not paused moves nothing.
pub proof fn lemma_resuming_moves_the_start<V, A, F, S>(
    input: InputModel<V, A, F, S>,
    pts: Duration,
    slots: Seq<Option<Duration>>,
    other: int,
)
    requires
        input.track_offset.valid(slots),
        input.paused_since is Some ==> input.paused_since->0.nanos <= pts.nanos,
        input.paused_since is Some && slots[input.track_offset.slot()] is Some
            ==> slots[input.track_offset.slot()]->0.nanos + pts.nanos
            - input.paused_since->0.nanos <= MAX_NANOS,
        0 <= other < slots.len(),
        other != input.track_offset.slot(),
    ensures
        ({
            let after = input.slots_resumed(pts, slots);
            let slot = input.track_offset.slot();
            &&& after.len() == slots.len() && after[other] == slots[other]
            &&& input.paused_since is None || slots[slot] is None ==> after == slots
            &&& input.paused_since is Some && slots[slot] is Some ==> after[slot] is Some
                && after[slot]->0.nanos - slots[slot]->0.nanos == pts.nanos
                - input.paused_since->0.nanos
        }),
{
}

/// A track whose length is not known can always be added, and one of known length if its end, with the
/// delay of the side channel, can be told.
pub proof fn lemma_which_tracks_can_be_added<V, A, F, S>(
    input: InputModel<V, A, F, S>,
    length: Duration,
)
    ensures
        input.timing_fits(None),
        input.timing_fits(Some(QueueTrackTiming::Finite(length))) <==> length.nanos
            + input.side_channel_delay.nanos <= 18_446_744_073_709_551_615_999_999_999,
        input.queued_end is None ==> !input.timing_fits(
            Some(QueueTrackTiming::Continuation(length)),
        ),
{
}

/// Where the media of an input goes besides the queue.
#[derive(Debug)]
#[verifier::reject_recursive_types(T)]
pub enum InputSideChannel<T> {
    Disabled,
    UnixSocket,
    Native(Sender<T>),
}

impl<T> Default for InputSideChannel<T> {
    fn default() -> (r: Self)
        ensures
            r is Disabled,
    {
        InputSideChannel::Disabled
    }
}

impl<T> From<bool> for InputSideChannel<T> {
    fn from(enabled: bool) -> (r: Self) {
        if enabled {
            InputSideChannel::UnixSocket
        } else {
            InputSideChannel::Disabled
        }
    }
}

impl<T> vstd::std_specs::convert::FromSpecImpl<bool> for InputSideChannel<T> {
    open spec fn obeys_from_spec() -> bool {
        true
    }

    open spec fn from_spec(enabled: bool) -> Self {
        if enabled {
            InputSideChannel::UnixSocket
        } else {
            InputSideChannel::Disabled
        }
    }
}

impl<T> InputSideChannel<T> {
    /// A side channel within the process that holds up to `capacity` items, and its receiving end.
    pub fn native(capacity: usize) -> (r: (Self, Receiver<T>))
        requires
            buffer_fits::<T>(capacity),
        ensures
            r.0 is Native,
            ends_of(capacity, r.0->Native_0, r.1),
    {
        let (sender, receiver) = make_channel(capacity);
        (InputSideChannel::Native(sender), receiver)
    }

    /// `answer` is the answer to whether both are the same side channel.
    pub open spec fn told_same_as(self, other: Self, answer: bool) -> bool {
        match (self, other) {
            (InputSideChannel::Native(one), InputSideChannel::Native(another)) => told_same(
                one,
                another,
                answer,
            ),
            _ => answer == ((self is Disabled && other is Disabled) || (self is UnixSocket
                && other is UnixSocket)),
        }
    }

    /// `copy` is the same side channel: whoever asks is told so.
    pub open spec fn is_copied_by(self, copy: Self) -> bool {
        &&& self is Native <==> copy is Native
        &&& forall|answer: bool| #[trigger] self.told_same_as(copy, answer) ==> answer
    }

    /// Whether both are the same side channel. For two channels within the process the channel is
    /// asked whether both senders belong to it; one is always the same as itself.
    pub fn same(&self, other: &Self) -> (r: bool)
        ensures
            self.told_same_as(*other, r),
            *self == *other ==> r,
    {
        match (self, other) {
            (InputSideChannel::Disabled, InputSideChannel::Disabled) => true,
            (InputSideChannel::UnixSocket, InputSideChannel::UnixSocket) => true,
            (InputSideChannel::Native(left), InputSideChannel::Native(right)) => ask_same(
                left,
                right,
            ),
            _ => false,
        }
    }

    /// Which side channel an input gets. A socket needs a directory.
    pub fn plan(self, has_socket_dir: bool) -> (r: SideChannelPlan<T>)
        ensures
            r == match self {
                InputSideChannel::UnixSocket if has_socket_dir => SideChannelPlan::Socket,
                InputSideChannel::Native(sender) => SideChannelPlan::Native(sender),
                _ => SideChannelPlan::Absent,
            },
    {
        match self {
            InputSideChannel::UnixSocket => {
                if has_socket_dir {
                    SideChannelPlan::Socket
                } else {
                    SideChannelPlan::Absent
                }
            },
            InputSideChannel::Native(sender) => SideChannelPlan::Native(sender),
            InputSideChannel::Disabled => SideChannelPlan::Absent,
        }
    }
}

impl<T> Clone for InputSideChannel<T> {
    fn clone(&self) -> (r: Self)
        ensures
            self.is_copied_by(r),
    {
        match self {
            InputSideChannel::Disabled => InputSideChannel::Disabled,
            InputSideChannel::UnixSocket => InputSideChannel::UnixSocket,
            InputSideChannel::Native(sender) => InputSideChannel::Native(sender_clone(sender)),
        }
    }
}

impl<T> PartialEq for InputSideChannel<T> {
    fn eq(&self, other: &Self) -> (r: bool)
        ensures
            self.told_same_as(*other, r),
    {
        self.same(other)
    }
}

/// Two channels within the process are compared by the channel, so no more is promised of `==`
/// than what `eq` says.
impl<T> vstd::std_specs::cmp::PartialEqSpecImpl for InputSideChannel<T> {
    open spec fn obeys_eq_spec() -> bool {
        false
    }

    open spec fn eq_spec(&self, other: &Self) -> bool {
        self.told_same_as(*other, true)
    }
}

/// The side channel that an input gets.
#[verifier::reject_recursive_types(T)]
pub enum SideChannelPlan<T> {
    Absent,
    /// A socket in the socket directory.
    Socket,
    /// A channel within the process.
    Native(Sender<T>),
}

/// How an input is configured.
#[derive(Debug)]
#[verifier::reject_recursive_types(F)]
#[verifier::reject_recursive_types(S)]
pub struct QueueInputOptions<F, S> {
    pub required: bool,
    pub audio_side_channel: InputSideChannel<S>,
    pub video_side_channel: InputSideChannel<F>,
    pub side_channel_delay: Duration,
}

impl<F, S> Default for QueueInputOptions<F, S> {
    fn default() -> (r: Self)
        ensures
            !r.required,
            r.audio_side_channel is Disabled,
            r.video_side_channel is Disabled,
            r.side_channel_delay.nanos == 0,
    {
        QueueInputOptions {
            required: false,
            audio_side_channel: InputSideChannel::Disabled,
            video_side_channel: InputSideChannel::Disabled,
            side_channel_delay: Duration::zero(),
        }
    }
}

impl<F, S> QueueInputOptions<F, S> {
    /// `answer` is the answer to whether both say the same, where the audio channels were said to
    /// be the same or not, and then the video channels.
    pub open spec fn told_same_as(
        self,
        other: Self,
        same_audio: bool,
        same_video: bool,
        answer: bool,
    ) -> bool {
        &&& self.audio_side_channel.told_same_as(other.audio_side_channel, same_audio)
        &&& self.video_side_channel.told_same_as(other.video_side_channel, same_video)
        &&& answer == (self.required == other.required && same_audio && same_video
            && self.side_channel_delay == other.side_channel_delay)
    }

    /// Whether both say the same.
    pub fn same(&self, other: &Self) -> (r: bool)
        ensures
            exists|same_audio: bool, same_video: bool|
                #[trigger] self.told_same_as(*other, same_audio, same_video, r),
            *self == *other ==> r,
    {
        let same_audio = self.audio_side_channel.same(&other.audio_side_channel);
        let same_video = self.video_side_channel.same(&other.video_side_channel);
        let r = self.required == other.required && same_audio && same_video
            && self.side_channel_delay == other.side_channel_delay;
        assert(self.told_same_as(*other, same_audio, same_video, r));
        r
    }
}

impl<F, S> Clone for QueueInputOptions<F, S> {
    fn clone(&self) -> (r: Self)
        ensures
            r.required == self.required,
            self.audio_side_channel.is_copied_by(r.audio_side_channel),
            self.video_side_channel.is_copied_by(r.video_side_channel),
            r.side_channel_delay == self.side_channel_delay,
    {
        QueueInputOptions {
            required: self.required,
            audio_side_channel: self.audio_side_channel.clone(),
            video_side_channel: self.video_side_channel.clone(),
            side_channel_delay: self.side_channel_delay,
        }
    }
}

impl<F, S> PartialEq for QueueInputOptions<F, S> {
    fn eq(&self, other: &Self) -> (r: bool)
        ensures
            exists|same_audio: bool, same_video: bool|
                #[trigger] self.told_same_as(*other, same_audio, same_video, r),
    {
        self.same(other)
    }
}

/// As with the side channels, no more is promised of `==` than what `eq` says.
impl<F, S> vstd::std_specs::cmp::PartialEqSpecImpl for QueueInputOptions<F, S> {
    open spec fn obeys_eq_spec() -> bool {
        false
    }

    open spec fn eq_spec(&self, other: &Self) -> bool {
        self.told_same_as(*other, true, true, true)
    }
}

/// A delivery order that no track has joined, where there is a side channel.
pub open spec fn fresh_lane<T>(side_channel: bool) -> Option<LaneModel<TrackOffset, T>> {
    if side_channel {
        Some(
            LaneModel {
                next_seq: 0,
                head: 0,
                head_channel: None,
                queued: Seq::<QueuedModel<TrackOffset, T>>::empty(),
            },
        )
    } else {
        None
    }
}

/// Side channels of different kinds are never said to be the same, and two that are disabled, or that
/// are sockets, always are.
pub proof fn lemma_kinds_of_side_channels_differ<T>(
    one: InputSideChannel<T>,
    other: InputSideChannel<T>,
    answer: bool,
)
    requires
        one.told_same_as(other, answer),
    ensures
        one is Native != other is Native ==> !answer,
        one is Disabled != other is Disabled ==> !answer,
        one is UnixSocket != other is UnixSocket ==> !answer,
        one is Disabled && other is Disabled ==> answer,
        one is UnixSocket && other is UnixSocket ==> answer,
{
}

/// Options say the same exactly if they agree in everything.
pub proof fn lemma_options_agree_in_everything<F, S>(
    one: QueueInputOptions<F, S>,
    other: QueueInputOptions<F, S>,
    same_audio: bool,
    same_video: bool,
    answer: bool,
)
    requires
        one.told_same_as(other, same_audio, same_video, answer),
    ensures
        one.required != other.required ==> !answer,
        one.side_channel_delay.nanos != other.side_channel_delay.nanos ==> !answer,
        !same_audio || !same_video ==> !answer,
        one.required == other.required && one.side_channel_delay.nanos
            == other.side_channel_delay.nanos && same_audio && same_video ==> answer,
        one.audio_side_channel.told_same_as(other.audio_side_channel, same_audio),
        one.video_side_channel.told_same_as(other.video_side_channel, same_video),
{
}

} // verus!
