//! Buffers that decide how long incoming media is held back before it is due.

use crate::clock::{read_as_now, read_now, told_elapsed, Clock};
use crate::frame::Frame;
use crate::time::{saturating_diff, distance, Duration, MAX_NANOS, NANOS_PER_MILLI};
use std::collections::VecDeque;
use std::time::Instant;
use vstd::prelude::*;

verus! {

/// Something that belongs to a moment of the stream.
pub trait TimedValue: Sized {
    spec fn spec_pts(self) -> Duration;

    fn pts(&self) -> (r: Duration)
        ensures
            r == self.spec_pts(),
    ;
}

impl<D> TimedValue for Frame<D> {
    open spec fn spec_pts(self) -> Duration {
        self.pts
    }

    fn pts(&self) -> (r: Duration) {
        self.pts
    }
}

/// Holds data back until a given span of it has been collected.
pub struct InputDelayBuffer<T> {
    buffer: VecDeque<T>,
    size: Duration,
    ready: bool,
    end: bool,
}

/// What a delay buffer is, seen from outside.
pub struct DelayModel<T> {
    /// What was written and not yet read, in order.
    pub items: Seq<T>,
    /// The span to collect.
    pub size: Duration,
    /// Enough has been collected, or no more will come.
    pub ready: bool,
    /// No more will come.
    pub end: bool,
}

impl<T: TimedValue> DelayModel<T> {
    /// An item is added. Once the first and the last one lie further apart than the size of the
    /// buffer, it is ready.
    pub open spec fn written(self, item: T) -> Self {
        DelayModel {
            items: self.items.push(item),
            ready: self.ready || spans_more_than(self.items.push(item), self.size),
            ..self
        }
    }

    /// No more will come.
    pub open spec fn was_ended(self) -> Self {
        DelayModel { ready: true, end: true, ..self }
    }

    /// Everything has been read and no more will come.
    pub open spec fn is_over(self) -> bool {
        self.end && self.items.len() == 0
    }

    /// What reading `count` times leaves.
    pub open spec fn was_read_often(self, count: nat) -> Self
        decreases count,
    {
        if count == 0 {
            self
        } else {
            self.was_read_often((count - 1) as nat).was_read().0
        }
    }

    /// What reading takes out: the oldest item, once the buffer is ready.
    pub open spec fn was_read(self) -> (Self, Option<T>) {
        if self.ready && self.items.len() > 0 {
            (DelayModel { items: self.items.drop_first(), ..self }, Some(self.items[0]))
        } else {
            (self, None)
        }
    }
}

impl<T: TimedValue> InputDelayBuffer<T> {
    pub closed spec fn model(self) -> DelayModel<T> {
        DelayModel { items: self.buffer@, size: self.size, ready: self.ready, end: self.end }
    }

    pub fn new(size: Duration) -> (r: Self)
        ensures
            r.model() == fresh_delay::<T>(size),
            r.model() == (DelayModel {
                items: Seq::<T>::empty(),
                size,
                ready: false,
                end: false,
            }),
    {
        InputDelayBuffer { buffer: VecDeque::new(), size, ready: false, end: false }
    }

    /// Adds an item. Once the first and the last item lie further apart than the size of the
    /// buffer, reading may begin.
    pub fn write(&mut self, item: T)
        ensures
            final(self).model() == old(self).model().written(item),
    {
        self.buffer.push_back(item);
        if !self.ready {
            let last: usize = self.buffer.len() - 1;
            let span = self.buffer[last].pts().abs_diff(self.buffer[0].pts());
            self.ready = span.nanos > self.size.nanos;
        }
    }

    /// Takes the oldest item, once enough has been collected.
    pub fn read(&mut self) -> (r: Option<T>)
        ensures
            (final(self).model(), r) == old(self).model().was_read(),
    {
        if self.ready {
            let ghost before = self.buffer@;
            let r = self.buffer.pop_front();
            assert(before.len() > 0 ==> self.buffer@ =~= before.drop_first());
            r
        } else {
            None
        }
    }

    /// No more will come: what has been collected may be read.
    pub fn mark_end(&mut self)
        ensures
            final(self).model() == old(self).model().was_ended(),
            final(self).model() == (DelayModel { ready: true, end: true, ..old(self).model() }),
    {
        self.ready = true;
        self.end = true;
    }

    /// Whether everything has been read and no more will come.
    pub fn is_done(&self) -> (r: bool)
        ensures
            r == self.model().is_over(),
            r == (self.model().end && self.model().items.len() == 0),
    {
        self.end && self.buffer.len() == 0
    }
}

/// Nothing is read before the span of the buffer has been collected. From then on everything is, in
/// the order in which it was written.
pub proof fn lemma_reading_waits_for_size<T: TimedValue>(before: DelayModel<T>, item: T)
    ensures
        !before.ready && !spans_more_than(before.items.push(item), before.size)
            ==> before.written(item).was_read() == (before.written(item), None::<T>),
        before.ready ==> before.written(item).ready && before.was_read().0.ready,
        before.written(item).ready ==> before.written(item).was_read().1
            == Some(before.items.push(item)[0]),
{
}

/// The first and the last item lie further apart than `size`.
pub open spec fn spans_more_than<T: TimedValue>(items: Seq<T>, size: Duration) -> bool {
    distance(items.last().spec_pts().nanos as int, items[0].spec_pts().nanos as int) > size.nanos
}

/// By how much a buffer grows per packet while it is too small.
pub const INCREMENT_NANOS: u128 = 500_000;

/// By how much a buffer shrinks per packet while it is slightly too large.
pub const SMALL_DECREMENT_NANOS: u128 = 200_000;

/// By how much a buffer shrinks per packet while it is clearly too large.
pub const LARGE_DECREMENT_NANOS: u128 = 500_000;

/// How long a buffer has to be too large before it shrinks.
pub const STABLE_STATE_NANOS: u128 = 10_000_000_000;

/// The distance between the thresholds above which a buffer counts as too large.
pub const SHRINK_STEP_NANOS: u128 = 400 * NANOS_PER_MILLI;

/// By how much an adaptive buffer grows per packet while it is too small.
pub const ADAPTIVE_INCREMENT_NANOS: u128 = 100_000;

/// The effective buffer at which an adaptive buffer is enlarged at once.
pub const ADAPTIVE_MIN_NANOS: u128 = 20 * NANOS_PER_MILLI;

/// Whether a latency optimized buffer suits the stream.
#[derive(Debug, Clone, Copy, PartialEq, Eq, Structural)]
pub enum LatencyOptimizedBufferState {
    Fits,
    TooSmall,
    /// It has been too large since `first_pts`.
    TooLarge { first_pts: Duration },
}

impl LatencyOptimizedBufferState {
    /// Since when the buffer has been too large, if it is too large at `pts`.
    pub open spec fn too_large_since(self, pts: Duration) -> Duration {
        match self {
            LatencyOptimizedBufferState::TooLarge { first_pts } => first_pts,
            _ => pts,
        }
    }

    /// Notes that the buffer is too large at `pts` and returns since when.
    pub fn set_too_large(&mut self, pts: Duration) -> (r: Duration)
        ensures
            r == old(self).too_large_since(pts),
            *final(self) == (LatencyOptimizedBufferState::TooLarge { first_pts: r }),
    {
        match *self {
            LatencyOptimizedBufferState::TooLarge { first_pts } => first_pts,
            _ => {
                *self = LatencyOptimizedBufferState::TooLarge { first_pts: pts };
                pts
            },
        }
    }

    pub fn set_too_small(&mut self)
        ensures
            *final(self) == LatencyOptimizedBufferState::TooSmall,
    {
        *self = LatencyOptimizedBufferState::TooSmall;
    }

    pub fn set_ok(&mut self)
        ensures
            *final(self) == LatencyOptimizedBufferState::Fits,
    {
        *self = LatencyOptimizedBufferState::Fits;
    }
}

/// What a latency optimized buffer is, seen from outside.
pub struct LatencyModel {
    /// The default buffer, from which the thresholds follow.
    pub base: int,
    pub state: LatencyOptimizedBufferState,
    /// How long media is held back at present.
    pub dynamic: int,
}

impl LatencyModel {
    /// The time a packet with this timestamp has left to reach the queue; negative if it is late.
    pub open spec fn effective(self, pts: Duration, elapsed: Duration) -> int {
        pts.nanos + self.dynamic - elapsed.nanos
    }

    /// The buffer is too large: it shrinks by `amount` once that has lasted long enough.
    pub open spec fn shrunk(self, pts: Duration, amount: int) -> Self {
        let due = Duration { nanos: (pts.nanos + self.dynamic) as u128 };
        let since = self.state.too_large_since(due);
        LatencyModel {
            state: LatencyOptimizedBufferState::TooLarge { first_pts: since },
            dynamic: if saturating_diff(due.nanos as int, since.nanos as int)
                > STABLE_STATE_NANOS {
                saturating_diff(self.dynamic, amount)
            } else {
                self.dynamic
            },
            ..self
        }
    }

    /// What a packet with this timestamp makes of the buffer when `elapsed` has gone by.
    pub open spec fn recalculated(self, pts: Duration, elapsed: Duration) -> Self {
        let effective = self.effective(pts, elapsed);
        if effective > 3 * self.base + 2 * SHRINK_STEP_NANOS {
            self.shrunk(pts, self.dynamic / 1000)
        } else if effective > 3 * self.base + SHRINK_STEP_NANOS {
            self.shrunk(pts, LARGE_DECREMENT_NANOS as int)
        } else if effective > 3 * self.base {
            self.shrunk(pts, SMALL_DECREMENT_NANOS as int)
        } else if effective > 2 * self.base {
            LatencyModel { state: LatencyOptimizedBufferState::Fits, ..self }
        } else if effective > self.base {
            LatencyModel {
                state: LatencyOptimizedBufferState::TooSmall,
                dynamic: self.dynamic + INCREMENT_NANOS,
                ..self
            }
        } else {
            LatencyModel {
                state: LatencyOptimizedBufferState::TooSmall,
                dynamic: saturating_diff(elapsed.nanos + 3 * self.base, pts.nanos as int),
                ..self
            }
        }
    }
}

/// A buffer for inputs with low latency. Where the stream is not delivered on time it grows
/// quickly. Where it has been stable for some time it shrinks, to keep the latency low.
pub struct LatencyOptimizedBuffer {
    clock: Clock,
    state: LatencyOptimizedBufferState,
    dynamic_buffer: Duration,
    /// Above this effective buffer, for some time, the buffer shrinks aggressively.
    shrink_threshold_1: Duration,
    /// Above this effective buffer, for some time, the buffer shrinks quickly.
    shrink_threshold_2: Duration,
    /// Above this effective buffer, for some time, the buffer shrinks slowly.
    max_desired_buffer: Duration,
    /// Below this effective buffer the buffer grows slowly with every packet.
    min_desired_buffer: Duration,
    /// Below this effective buffer the buffer grows at once.
    grow_threshold: Duration,
}

impl LatencyOptimizedBuffer {
    pub closed spec fn model(self) -> LatencyModel {
        LatencyModel {
            base: self.grow_threshold.nanos as int,
            state: self.state,
            dynamic: self.dynamic_buffer.nanos as int,
        }
    }

    /// The moment from which timestamps count.
    pub closed spec fn reference(self) -> Instant {
        self.clock.since()
    }

    /// Every reading of the clock that counts from that moment.
    pub closed spec fn readings(self) -> Seq<Option<Duration>> {
        self.clock.readings()
    }

    pub closed spec fn wf(self) -> bool {
        let base = self.grow_threshold.nanos as int;
        &&& base <= MAX_NANOS
        &&& self.min_desired_buffer.nanos == 2 * base
        &&& self.max_desired_buffer.nanos == 3 * base
        &&& self.shrink_threshold_2.nanos == 3 * base + SHRINK_STEP_NANOS
        &&& self.shrink_threshold_1.nanos == 3 * base + 2 * SHRINK_STEP_NANOS
        &&& self.dynamic_buffer.nanos <= LONGEST_BUFFER
    }

    pub fn new(default_buffer_duration: Duration, reference_time: Instant) -> (r: Self)
        requires
            default_buffer_duration.representable(),
        ensures
            r.wf(),
            r.reference() == reference_time,
            r.readings() == Seq::<Option<Duration>>::empty(),
            r.model() == fresh_latency(default_buffer_duration),
            r.model() == (LatencyModel {
                base: default_buffer_duration.nanos as int,
                state: LatencyOptimizedBufferState::Fits,
                dynamic: default_buffer_duration.nanos as int,
            }),
    {
        let grow_threshold = default_buffer_duration;
        let min_desired_buffer = grow_threshold.plus(default_buffer_duration);
        let max_desired_buffer = min_desired_buffer.plus(default_buffer_duration);
        let step = Duration { nanos: SHRINK_STEP_NANOS };
        let shrink_threshold_2 = max_desired_buffer.plus(step);
        let shrink_threshold_1 = shrink_threshold_2.plus(step);
        LatencyOptimizedBuffer {
            clock: Clock::new(reference_time),
            state: LatencyOptimizedBufferState::Fits,
            dynamic_buffer: default_buffer_duration,
            shrink_threshold_1,
            shrink_threshold_2,
            max_desired_buffer,
            min_desired_buffer,
            grow_threshold,
        }
    }

    /// Adjusts the buffer to a packet with this timestamp, which counts from the reference time.
    pub fn recalculate_buffer(&mut self, pts: Duration)
        requires
            old(self).wf(),
            pts.representable(),
        ensures
            final(self).wf(),
            final(self).reference() == old(self).reference(),
            exists|elapsed: Duration|
                {
                    &&& elapsed.representable()
                    &&& told_elapsed(old(self).reference(), elapsed)
                    &&& final(self).readings() == old(self).readings().push(Some(elapsed))
                    &&& final(self).model() == #[trigger] old(self).model().recalculated(
                        pts,
                        elapsed,
                    )
                },
    {
        let elapsed = self.clock.elapsed();
        self.recalculate_at(pts, elapsed)
    }

    /// Adjusts the buffer to a packet with this timestamp when `elapsed` has gone by.
    pub fn recalculate_at(&mut self, pts: Duration, elapsed: Duration)
        requires
            old(self).wf(),
            pts.representable(),
            elapsed.representable(),
        ensures
            final(self).wf(),
            final(self).reference() == old(self).reference(),
            final(self).readings() == old(self).readings(),
            final(self).model() == old(self).model().recalculated(pts, elapsed),
    {
        let next_pts = pts.plus(self.dynamic_buffer);
        if next_pts.nanos > elapsed.plus(self.shrink_threshold_1).nanos {
            let first_pts = self.state.set_too_large(next_pts);
            if next_pts.saturating_sub(first_pts).nanos > STABLE_STATE_NANOS {
                let amount = Duration { nanos: self.dynamic_buffer.nanos / 1000 };
                self.dynamic_buffer = self.dynamic_buffer.saturating_sub(amount);
            }
        } else if next_pts.nanos > elapsed.plus(self.shrink_threshold_2).nanos {
            let first_pts = self.state.set_too_large(next_pts);
            if next_pts.saturating_sub(first_pts).nanos > STABLE_STATE_NANOS {
                let amount = Duration { nanos: LARGE_DECREMENT_NANOS };
                self.dynamic_buffer = self.dynamic_buffer.saturating_sub(amount);
            }
        } else if next_pts.nanos > elapsed.plus(self.max_desired_buffer).nanos {
            let first_pts = self.state.set_too_large(next_pts);
            if next_pts.saturating_sub(first_pts).nanos > STABLE_STATE_NANOS {
                let amount = Duration { nanos: SMALL_DECREMENT_NANOS };
                self.dynamic_buffer = self.dynamic_buffer.saturating_sub(amount);
            }
        } else if next_pts.nanos > elapsed.plus(self.min_desired_buffer).nanos {
            self.state.set_ok();
        } else if next_pts.nanos > elapsed.plus(self.grow_threshold).nanos {
            self.state.set_too_small();
            self.dynamic_buffer = self.dynamic_buffer.plus(Duration { nanos: INCREMENT_NANOS });
        } else {
            self.state.set_too_small();
            self.dynamic_buffer = elapsed.plus(self.max_desired_buffer).saturating_sub(pts);
        }
    }

    /// How long media is held back at present.
    pub fn dynamic_buffer(&self) -> (r: Duration)
        ensures
            r.nanos == self.model().dynamic,
    {
        self.dynamic_buffer
    }
}

/// No buffer grows beyond this.
pub const LONGEST_BUFFER: u128 = 5 * MAX_NANOS;

/// What an adaptive buffer is, seen from outside.
pub struct AdaptiveModel {
    /// The clock is running: a packet has arrived.
    pub started: bool,
    pub desired: int,
    pub min: int,
    /// How long media is held back at present.
    pub dynamic: int,
}

impl AdaptiveModel {
    /// What a packet with this timestamp makes of the buffer when `elapsed` has gone by since the
    /// first one.
    pub open spec fn recalculated(self, pts: Duration, elapsed: Duration) -> Self {
        let effective = pts.nanos + self.dynamic - elapsed.nanos;
        AdaptiveModel {
            started: true,
            dynamic: if effective > self.desired {
                self.dynamic
            } else if effective > self.min {
                self.dynamic + ADAPTIVE_INCREMENT_NANOS
            } else {
                saturating_diff(elapsed.nanos + self.desired, pts.nanos as int)
            },
            ..self
        }
    }
}

/// A buffer that grows where the stream is not delivered on time, and never shrinks on its own.
pub struct AdaptiveBuffer {
    sync_point: Option<Clock>,
    desired_buffer: Duration,
    dynamic_buffer: Duration,
    min_buffer: Duration,
}

impl AdaptiveBuffer {
    pub closed spec fn model(self) -> AdaptiveModel {
        AdaptiveModel {
            started: self.sync_point is Some,
            desired: self.desired_buffer.nanos as int,
            min: self.min_buffer.nanos as int,
            dynamic: self.dynamic_buffer.nanos as int,
        }
    }

    /// When the clock was started, if it is running.
    pub closed spec fn since(self) -> Option<Instant> {
        match self.sync_point {
            Some(clock) => Some(clock.since()),
            None => None,
        }
    }

    /// Every reading of that clock.
    pub closed spec fn readings(self) -> Seq<Option<Duration>> {
        match self.sync_point {
            Some(clock) => clock.readings(),
            None => Seq::empty(),
        }
    }

    pub closed spec fn wf(self) -> bool {
        &&& self.min_buffer.nanos <= self.desired_buffer.nanos <= MAX_NANOS
        &&& self.dynamic_buffer.nanos <= LONGEST_BUFFER
    }

    pub fn new(default_buffer_duration: Duration) -> (r: Self)
        requires
            default_buffer_duration.representable(),
        ensures
            r.wf(),
            r.since() is None,
            r.readings() == Seq::<Option<Duration>>::empty(),
            r.model() == fresh_adaptive(default_buffer_duration),
            r.model() == (AdaptiveModel {
                started: false,
                desired: default_buffer_duration.nanos as int,
                min: if ADAPTIVE_MIN_NANOS <= default_buffer_duration.nanos {
                    ADAPTIVE_MIN_NANOS as int
                } else {
                    default_buffer_duration.nanos as int
                },
                dynamic: default_buffer_duration.nanos as int,
            }),
    {
        AdaptiveBuffer {
            sync_point: None,
            desired_buffer: default_buffer_duration,
            dynamic_buffer: default_buffer_duration,
            min_buffer: Duration { nanos: ADAPTIVE_MIN_NANOS }.shorter(default_buffer_duration),
        }
    }

    /// Adjusts the buffer to a packet with this timestamp. The clock starts with the first packet.
    pub fn recalculate_buffer(&mut self, pts: Duration)
        requires
            old(self).wf(),
            pts.representable(),
        ensures
            final(self).wf(),
            final(self).since() is Some,
            old(self).since() is Some ==> final(self).since() == old(self).since(),
            old(self).since() is None ==> read_as_now(final(self).since()->0),
            exists|elapsed: Duration|
                {
                    &&& elapsed.representable()
                    &&& told_elapsed(final(self).since()->0, elapsed)
                    &&& final(self).readings() == old(self).readings().push(Some(elapsed))
                    &&& final(self).model() == #[trigger] old(self).model().recalculated(
                        pts,
                        elapsed,
                    )
                },
    {
        let mut clock = match self.sync_point.take() {
            Some(clock) => clock,
            None => Clock::new(read_now()),
        };
        let elapsed = clock.elapsed();
        self.sync_point = Some(clock);
        self.recalculate_at(pts, elapsed);
        assert(self.model() == old(self).model().recalculated(pts, elapsed));
    }

    /// Adjusts the buffer to a packet with this timestamp when `elapsed` has gone by.
    pub fn recalculate_at(&mut self, pts: Duration, elapsed: Duration)
        requires
            old(self).wf(),
            old(self).model().started,
            pts.representable(),
            elapsed.representable(),
        ensures
            final(self).wf(),
            final(self).since() == old(self).since(),
            final(self).readings() == old(self).readings(),
            final(self).model() == old(self).model().recalculated(pts, elapsed),
    {
        let next_pts = pts.plus(self.dynamic_buffer);
        if next_pts.nanos > elapsed.plus(self.desired_buffer).nanos {
        } else if next_pts.nanos > elapsed.plus(self.min_buffer).nanos {
            self.dynamic_buffer =
            self.dynamic_buffer.plus(Duration { nanos: ADAPTIVE_INCREMENT_NANOS });
        } else {
            self.dynamic_buffer = elapsed.plus(self.desired_buffer).saturating_sub(pts);
        }
    }

    /// How long media is held back at present.
    pub fn dynamic_buffer(&self) -> (r: Duration)
        ensures
            r.nanos == self.model().dynamic,
    {
        self.dynamic_buffer
    }
}

/// Which buffer an input gets.
#[derive(Debug, Clone, Copy)]
pub enum InputBufferOptions {
    NoBuffer,
    Const { size: Duration },
    /// Timestamps count from `reference_time`.
    LatencyOptimized { reference_time: Instant },
    Adaptive,
}

/// The buffer of an input.
pub enum InputBuffer {
    /// The input is required or has an offset. If it is required, buffering is not necessary. If
    /// its offset lies in the future, neither; if it lies in the past, it causes drops anyway.
    NoBuffer,
    Const { size: Duration },
    LatencyOptimized(LatencyOptimizedBuffer),
    Adaptive(AdaptiveBuffer),
}

/// What the buffer of an input is, seen from outside.
pub enum InputBufferModel {
    NoBuffer,
    Const { size: Duration },
    LatencyOptimized(LatencyModel),
    Adaptive(AdaptiveModel),
}

impl InputBufferModel {
    /// How long media is held back at present.
    pub open spec fn size(self) -> int {
        match self {
            InputBufferModel::NoBuffer => 0,
            InputBufferModel::Const { size } => size.nanos as int,
            InputBufferModel::LatencyOptimized(model) => model.dynamic,
            InputBufferModel::Adaptive(model) => model.dynamic,
        }
    }

    /// What a packet with this timestamp makes of the buffer when `elapsed` has gone by.
    pub open spec fn recalculated(self, pts: Duration, elapsed: Duration) -> Self {
        match self {
            InputBufferModel::LatencyOptimized(model) => InputBufferModel::LatencyOptimized(
                model.recalculated(pts, elapsed),
            ),
            InputBufferModel::Adaptive(model) => InputBufferModel::Adaptive(
                model.recalculated(pts, elapsed),
            ),
            _ => self,
        }
    }
}

impl InputBuffer {
    pub open spec fn model(self) -> InputBufferModel {
        match self {
            InputBuffer::NoBuffer => InputBufferModel::NoBuffer,
            InputBuffer::Const { size } => InputBufferModel::Const { size },
            InputBuffer::LatencyOptimized(buffer) => InputBufferModel::LatencyOptimized(
                buffer.model(),
            ),
            InputBuffer::Adaptive(buffer) => InputBufferModel::Adaptive(buffer.model()),
        }
    }

    /// The moment from which the time that has gone by is counted, once there is one.
    pub open spec fn clock(self) -> Option<Instant> {
        match self {
            InputBuffer::LatencyOptimized(buffer) => Some(buffer.reference()),
            InputBuffer::Adaptive(buffer) => buffer.since(),
            _ => None,
        }
    }

    /// Every reading of the clock that counts from that moment.
    pub open spec fn readings(self) -> Seq<Option<Duration>> {
        match self {
            InputBuffer::LatencyOptimized(buffer) => buffer.readings(),
            InputBuffer::Adaptive(buffer) => buffer.readings(),
            _ => Seq::empty(),
        }
    }

    /// The buffer looks at the clock.
    pub open spec fn follows_clock(self) -> bool {
        self is LatencyOptimized || self is Adaptive
    }

    pub open spec fn wf(self) -> bool {
        match self {
            InputBuffer::NoBuffer => true,
            InputBuffer::Const { size } => size.nanos <= LONGEST_BUFFER,
            InputBuffer::LatencyOptimized(buffer) => buffer.wf(),
            InputBuffer::Adaptive(buffer) => buffer.wf(),
        }
    }

    /// The buffer that `opts` asks for, where `default_buffer_duration` is the usual size.
    pub fn new(default_buffer_duration: Duration, opts: InputBufferOptions) -> (r: Self)
        requires
            default_buffer_duration.representable(),
            opts matches InputBufferOptions::Const { size } ==> size.nanos <= LONGEST_BUFFER,
        ensures
            r.wf(),
            r.clock() == match opts {
                InputBufferOptions::LatencyOptimized { reference_time } => Some(reference_time),
                _ => None,
            },
            r.readings() == Seq::<Option<Duration>>::empty(),
            r.model() == match opts {
                InputBufferOptions::NoBuffer => InputBufferModel::NoBuffer,
                InputBufferOptions::Const { size } => InputBufferModel::Const { size },
                InputBufferOptions::LatencyOptimized { .. } => InputBufferModel::LatencyOptimized(
                    LatencyModel {
                        base: default_buffer_duration.nanos as int,
                        state: LatencyOptimizedBufferState::Fits,
                        dynamic: default_buffer_duration.nanos as int,
                    },
                ),
                InputBufferOptions::Adaptive => InputBufferModel::Adaptive(
                    AdaptiveModel {
                        started: false,
                        desired: default_buffer_duration.nanos as int,
                        min: if ADAPTIVE_MIN_NANOS <= default_buffer_duration.nanos {
                            ADAPTIVE_MIN_NANOS as int
                        } else {
                            default_buffer_duration.nanos as int
                        },
                        dynamic: default_buffer_duration.nanos as int,
                    },
                ),
            },
    {
        match opts {
            InputBufferOptions::NoBuffer => InputBuffer::NoBuffer,
            InputBufferOptions::Const { size } => InputBuffer::Const { size },
            InputBufferOptions::LatencyOptimized { reference_time } => InputBuffer::LatencyOptimized(
                LatencyOptimizedBuffer::new(default_buffer_duration, reference_time),
            ),
            InputBufferOptions::Adaptive => InputBuffer::Adaptive(
                AdaptiveBuffer::new(default_buffer_duration),
            ),
        }
    }

    /// Adjusts the buffer to a packet with this timestamp.
    pub fn recalculate_buffer(&mut self, pts: Duration)
        requires
            old(self).wf(),
            pts.representable(),
        ensures
            final(self).wf(),
            if *old(self) is Adaptive {
                &&& final(self).clock() is Some
                &&& old(self).clock() is Some ==> final(self).clock() == old(self).clock()
                &&& old(self).clock() is None ==> read_as_now(final(self).clock()->0)
            } else {
                final(self).clock() == old(self).clock()
            },
            *final(self) is Adaptive <==> *old(self) is Adaptive,
            exists|elapsed: Duration|
                {
                    &&& elapsed.representable()
                    &&& old(self).follows_clock() ==> told_elapsed(
                        final(self).clock()->0,
                        elapsed,
                    )
                    &&& final(self).readings() == if old(self).follows_clock() {
                        old(self).readings().push(Some(elapsed))
                    } else {
                        old(self).readings()
                    }
                    &&& final(self).model() == #[trigger] old(self).model().recalculated(
                        pts,
                        elapsed,
                    )
                },
    {
        match self {
            InputBuffer::LatencyOptimized(buffer) => {
                let ghost before = buffer.model();
                let ghost readings = buffer.readings();
                buffer.recalculate_buffer(pts);
                proof {
                    let elapsed = choose|elapsed: Duration|
                        {
                            &&& elapsed.representable()
                            &&& told_elapsed(buffer.reference(), elapsed)
                            &&& buffer.readings() == readings.push(Some(elapsed))
                            &&& buffer.model() == #[trigger] before.recalculated(pts, elapsed)
                        };
                    let _ = old(self).model().recalculated(pts, elapsed);
                }
            },
            InputBuffer::Adaptive(buffer) => {
                let ghost before = buffer.model();
                let ghost readings = buffer.readings();
                buffer.recalculate_buffer(pts);
                proof {
                    let elapsed = choose|elapsed: Duration|
                        {
                            &&& elapsed.representable()
                            &&& told_elapsed(buffer.since()->0, elapsed)
                            &&& buffer.readings() == readings.push(Some(elapsed))
                            &&& buffer.model() == #[trigger] before.recalculated(pts, elapsed)
                        };
                    let _ = old(self).model().recalculated(pts, elapsed);
                }
            },
            _ => {
                proof {
                    let elapsed = Duration { nanos: 0 };
                    let _ = old(self).model().recalculated(pts, elapsed);
                }
            },
        }
    }

    /// How long media is held back at present.
    pub fn size(&self) -> (r: Duration)
        requires
            self.wf(),
        ensures
            r.nanos == self.model().size(),
            r.nanos <= LONGEST_BUFFER,
    {
        match self {
            InputBuffer::NoBuffer => Duration::zero(),
            InputBuffer::Const { size } => *size,
            InputBuffer::LatencyOptimized(buffer) => buffer.dynamic_buffer(),
            InputBuffer::Adaptive(buffer) => buffer.dynamic_buffer(),
        }
    }
}

/// What is true of every well-formed latency optimized buffer.
pub proof fn lemma_latency_buffer_is_valid(buffer: LatencyOptimizedBuffer)
    requires
        buffer.wf(),
    ensures
        0 <= buffer.model().base <= MAX_NANOS,
        0 <= buffer.model().dynamic <= LONGEST_BUFFER,
{
}

/// What is true of every well-formed adaptive buffer.
pub proof fn lemma_adaptive_buffer_is_valid(buffer: AdaptiveBuffer)
    requires
        buffer.wf(),
    ensures
        0 <= buffer.model().min <= buffer.model().desired <= MAX_NANOS,
        0 <= buffer.model().dynamic <= LONGEST_BUFFER,
        buffer.model().started <==> buffer.since() is Some,
{
}

/// A packet that is about to miss its time enlarges a latency optimized buffer at once, so that the
/// packet has the largest desired buffer left.
pub proof fn lemma_late_packet_restores_buffer(
    before: LatencyModel,
    pts: Duration,
    elapsed: Duration,
)
    requires
        before.base >= 0,
        before.dynamic >= 0,
        before.effective(pts, elapsed) <= before.base,
    ensures
        before.recalculated(pts, elapsed).effective(pts, elapsed) == 3 * before.base,
        before.recalculated(pts, elapsed).dynamic >= before.dynamic + 2 * before.base,
{
}

/// Within the desired range nothing changes but that the buffer counts as fitting.
pub proof fn lemma_desired_buffer_is_kept(before: LatencyModel, pts: Duration, elapsed: Duration)
    requires
        2 * before.base < before.effective(pts, elapsed) <= 3 * before.base,
    ensures
        before.recalculated(pts, elapsed) == (LatencyModel {
            state: LatencyOptimizedBufferState::Fits,
            ..before
        }),
{
}

/// A latency optimized buffer never shrinks unless it has been too large for the stable period.
pub proof fn lemma_shrinks_only_when_stable(before: LatencyModel, pts: Duration, elapsed: Duration)
    requires
        before.base >= 0,
        before.dynamic >= 0,
        before.recalculated(pts, elapsed).dynamic < before.dynamic,
    ensures
        before.effective(pts, elapsed) > 3 * before.base,
        before.state matches LatencyOptimizedBufferState::TooLarge { first_pts } && (pts.nanos
            + before.dynamic) as u128 - first_pts.nanos > STABLE_STATE_NANOS,
{
}

/// An adaptive buffer never shrinks.
pub proof fn lemma_adaptive_never_shrinks(before: AdaptiveModel, pts: Duration, elapsed: Duration)
    requires
        0 <= before.min <= before.desired,
        before.dynamic >= 0,
    ensures
        before.recalculated(pts, elapsed).dynamic >= before.dynamic,
{
}

/// By how much a latency optimized buffer of this size shrinks per packet once it has been too large
/// for ten seconds, where a packet has `effective` nanoseconds left and `base` is the default buffer:
/// by 0.2 ms up to 0.4 s above the largest desired buffer, by 0.5 ms up to 0.8 s above it, and by a
/// thousandth beyond that.
pub open spec fn shrink_step(base: int, effective: int, size: int) -> int {
    if effective <= 3 * base + 400_000_000 {
        200_000
    } else if effective <= 3 * base + 800_000_000 {
        500_000
    } else {
        size / 1000
    }
}

/// One packet never shrinks a latency optimized buffer by more than the step for the time that the
/// packet has left, and not at all unless that is more than three times the default buffer. Once the
/// buffer has been too large for more than ten seconds of the stream it shrinks by exactly that step,
/// down to nothing, whatever its size; before that it stays as it is. It counts as too large since
/// the first packet in a row that found it so.
pub proof fn lemma_buffer_shrinks_step_by_step(
    before: LatencyModel,
    pts: Duration,
    elapsed: Duration,
)
    requires
        before.base >= 0,
        0 <= before.dynamic <= LONGEST_BUFFER,
        pts.representable(),
    ensures
        ({
            let after = before.recalculated(pts, elapsed);
            let left = pts.nanos + before.dynamic - elapsed.nanos;
            let due = pts.nanos + before.dynamic;
            let step = shrink_step(before.base, left, before.dynamic);
            let since = match before.state {
                LatencyOptimizedBufferState::TooLarge { first_pts } => first_pts.nanos as int,
                _ => due,
            };
            &&& after.base == before.base
            &&& left <= 3 * before.base ==> after.dynamic >= before.dynamic
            &&& before.dynamic - after.dynamic <= step
            &&& left > 3 * before.base ==> {
                &&& after.state matches LatencyOptimizedBufferState::TooLarge { first_pts }
                    && first_pts.nanos == since
                &&& due - since <= 10_000_000_000 ==> after.dynamic == before.dynamic
                &&& due - since > 10_000_000_000 && before.dynamic >= step ==> after.dynamic
                    == before.dynamic - step
                &&& due - since > 10_000_000_000 && before.dynamic < step ==> after.dynamic == 0
            }
        }),
{
}

/// A latency optimized buffer grows where packets have too little time left: a packet that has at most
/// the default buffer left gets three times that at once, one that has at most twice the default
/// buffer left makes the buffer half a millisecond longer. In between nothing changes.
pub proof fn lemma_buffer_grows_with_late_packets(
    before: LatencyModel,
    pts: Duration,
    elapsed: Duration,
)
    requires
        before.base >= 0,
        before.dynamic >= 0,
    ensures
        ({
            let after = before.recalculated(pts, elapsed);
            let left = pts.nanos + before.dynamic - elapsed.nanos;
            let left_after = pts.nanos + after.dynamic - elapsed.nanos;
            &&& left <= before.base ==> left_after == 3 * before.base && after.state
                == LatencyOptimizedBufferState::TooSmall
            &&& before.base < left <= 2 * before.base ==> left_after == left + 500_000
                && after.state == LatencyOptimizedBufferState::TooSmall
            &&& 2 * before.base < left <= 3 * before.base ==> left_after == left && after.state
                == LatencyOptimizedBufferState::Fits
        }),
{
}

/// An adaptive buffer grows where packets have too little time left, to what is desired at once where
/// it is at most the least, and otherwise by a tenth of a millisecond; where packets have more time
/// left than desired it stays as it is.
pub proof fn lemma_adaptive_buffer_grows_with_late_packets(
    before: AdaptiveModel,
    pts: Duration,
    elapsed: Duration,
)
    requires
        0 <= before.min <= before.desired,
        before.dynamic >= 0,
    ensures
        ({
            let after = before.recalculated(pts, elapsed);
            let left = pts.nanos + before.dynamic - elapsed.nanos;
            let left_after = pts.nanos + after.dynamic - elapsed.nanos;
            &&& after.started && after.desired == before.desired && after.min == before.min
            &&& left <= before.min ==> left_after == before.desired
            &&& before.min < left <= before.desired ==> left_after == left + 100_000
            &&& left > before.desired ==> left_after == left
        }),
{
}

/// Of the buffers, only the two that follow the clock change with a packet, each as it does on its
/// own; the others hold media back for as long as they always did.
pub proof fn lemma_fixed_buffers_stay(buffer: InputBufferModel, pts: Duration, elapsed: Duration)
    ensures
        buffer is NoBuffer ==> buffer.size() == 0 && buffer.recalculated(pts, elapsed) == buffer,
        buffer is Const ==> buffer.size() == buffer->size.nanos && buffer.recalculated(
            pts,
            elapsed,
        ) == buffer,
        buffer is LatencyOptimized ==> {
            let model = buffer->LatencyOptimized_0;
            &&& buffer.size() == model.dynamic
            &&& buffer.recalculated(pts, elapsed) == InputBufferModel::LatencyOptimized(
                model.recalculated(pts, elapsed),
            )
        },
        buffer is Adaptive ==> {
            let model = buffer->Adaptive_0;
            &&& buffer.size() == model.dynamic
            &&& buffer.recalculated(pts, elapsed) == InputBufferModel::Adaptive(
                model.recalculated(pts, elapsed),
            )
        },
{
}

/// A delay buffer hands out what was written, unchanged and in order: what is written comes last,
/// what is read came first. It hands out nothing before the first and the last item lie further apart
/// than its size, and from then on whatever it has.
pub proof fn lemma_delay_buffer_keeps_order<T: TimedValue>(before: DelayModel<T>, item: T)
    requires
        before.items.len() > 0,
    ensures
        ({
            let written = before.written(item);
            let (after, read) = before.was_read();
            let first = before.items[0].spec_pts().nanos;
            let last = item.spec_pts().nanos;
            &&& written.items.drop_last() == before.items && written.items.last() == item
            &&& written.ready <==> before.ready || last > first + before.size.nanos || first > last
                + before.size.nanos
            &&& written.end == before.end && written.size == before.size
            &&& before.ready ==> read == Some(before.items[0]) && seq![before.items[0]]
                + after.items == before.items
            &&& !before.ready ==> read is None && after == before
            &&& after.ready == before.ready && after.end == before.end && after.size == before.size
        }),
{
    assert(before.written(item).items.drop_last() =~= before.items);
    if before.ready {
        assert(seq![before.items[0]] + before.was_read().0.items =~= before.items);
    }
}

/// The spans that buffers go by.
pub proof fn lemma_buffer_spans()
    ensures
        INCREMENT_NANOS == 500_000 && SMALL_DECREMENT_NANOS == 200_000,
        LARGE_DECREMENT_NANOS == 500_000 && SHRINK_STEP_NANOS == 400_000_000,
        STABLE_STATE_NANOS == 10_000_000_000,
        ADAPTIVE_INCREMENT_NANOS == 100_000 && ADAPTIVE_MIN_NANOS == 20_000_000,
{
}

/// A delay buffer that nothing was written to.
pub open spec fn fresh_delay<T>(size: Duration) -> DelayModel<T> {
    DelayModel { items: Seq::empty(), size, ready: false, end: false }
}

/// Once no more will come, everything that was collected can be read, item by item in order, however
/// little it is, and the buffer is over when the last one was, and not before. A fresh buffer is not
/// over, and has nothing to read.
pub proof fn lemma_everything_is_read_after_the_end<T: TimedValue>(
    before: DelayModel<T>,
    count: nat,
    size: Duration,
)
    requires
        count <= before.items.len(),
    ensures
        ({
            let reached = before.was_ended().was_read_often(count);
            &&& reached.items == before.items.skip(count as int)
            &&& count < before.items.len() ==> reached.was_read().1 == Some(
                before.items[count as int],
            ) && !reached.is_over()
            &&& count == before.items.len() ==> reached.was_read().1 is None && reached.is_over()
        }),
        !fresh_delay::<T>(size).is_over(),
        fresh_delay::<T>(size).was_read() == (fresh_delay::<T>(size), None::<T>),
    decreases count,
{
    let ended = before.was_ended();
    if count == 0 {
        assert(before.items.skip(0) =~= before.items);
        lemma_reading_keeps_the_end(ended, 0);
    } else {
        let earlier = (count - 1) as nat;
        lemma_everything_is_read_after_the_end(before, earlier, size);
        lemma_reading_keeps_the_end(ended, earlier);
        lemma_reading_keeps_the_end(ended, count);
        assert(before.items.skip(earlier as int).drop_first() =~= before.items.skip(count as int));
    }
}

proof fn lemma_reading_keeps_the_end<T: TimedValue>(before: DelayModel<T>, count: nat)
    ensures
        before.was_read_often(count).ready == before.ready,
        before.was_read_often(count).end == before.end,
    decreases count,
{
    if count > 0 {
        lemma_reading_keeps_the_end(before, (count - 1) as nat);
    }
}

/// A latency optimized buffer that has seen no packet.
pub open spec fn fresh_latency(usual: Duration) -> LatencyModel {
    LatencyModel {
        base: usual.nanos as int,
        state: LatencyOptimizedBufferState::Fits,
        dynamic: usual.nanos as int,
    }
}

/// An adaptive buffer that has seen no packet.
pub open spec fn fresh_adaptive(usual: Duration) -> AdaptiveModel {
    AdaptiveModel {
        started: false,
        desired: usual.nanos as int,
        min: if ADAPTIVE_MIN_NANOS <= usual.nanos {
            ADAPTIVE_MIN_NANOS as int
        } else {
            usual.nanos as int
        },
        dynamic: usual.nanos as int,
    }
}

/// A new buffer has the usual size. An adaptive one asks for that size again when a packet is late, and
/// counts a packet as late that has less than 20 ms left, or less than the usual size where that is
/// shorter; its clock does not run before the first packet.
pub proof fn lemma_new_buffers_have_the_usual_size(usual: Duration)
    ensures
        fresh_latency(usual).dynamic == usual.nanos,
        fresh_latency(usual).base == usual.nanos,
        fresh_latency(usual).state == LatencyOptimizedBufferState::Fits,
        fresh_adaptive(usual).dynamic == usual.nanos,
        fresh_adaptive(usual).desired == usual.nanos,
        fresh_adaptive(usual).min <= 20_000_000,
        fresh_adaptive(usual).min <= usual.nanos,
        fresh_adaptive(usual).min == 20_000_000 || fresh_adaptive(usual).min == usual.nanos,
        !fresh_adaptive(usual).started,
{
}

} // verus!
