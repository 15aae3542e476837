//! Puts received RTP packets back into order and decides how long to wait for missing ones.

use crate::clock::{told_elapsed, Clock};
use crate::input_buffer::{InputBuffer, InputBufferModel, InputBufferOptions};
use crate::input_buffer::{
    fresh_latency, lemma_latency_buffer_is_valid, LatencyModel, LatencyOptimizedBufferState,
    LONGEST_BUFFER,
};
use crate::ordered_map::{is_first_key, lemma_key_has_place, OrderedMap};
use crate::time::{saturating_diff, Duration, NANOS_PER_MILLI};
use std::time::Instant;
use vstd::prelude::*;

verus! {

/// How often a 16-bit sequence number may start over before its 64-bit continuation is used up.
pub const MAX_ROLLOVERS: u64 = 0x0000_FFFF_FFFF_FFFE;

/// The number of 16-bit sequence numbers.
pub const SEQUENCE_NUMBERS: u64 = 0x1_0000;

/// A jump at least this far means that the sequence number started over.
pub const ROLLOVER_DISTANCE: u16 = 32_767;

/// The time that decoding is assumed to take. Streams with B-frames may need more, because several
/// frames have to be processed before the one that is due.
pub const MIN_DECODE_NANOS: u128 = 30 * NANOS_PER_MILLI;

/// Continues 16-bit sequence numbers, which start over, as 64-bit numbers, which do not.
#[derive(Debug)]
pub struct SequenceNumberRollover {
    rollover_count: u64,
    last_value: Option<u16>,
}

impl SequenceNumberRollover {
    /// How often the sequence number has started over.
    pub closed spec fn count(self) -> int {
        self.rollover_count as int
    }

    /// The last sequence number seen.
    pub closed spec fn last(self) -> Option<u16> {
        self.last_value
    }

    pub fn new() -> (r: Self)
        ensures
            r.count() == 0,
            r.last() is None,
    {
        SequenceNumberRollover { rollover_count: 0, last_value: None }
    }

    /// How often the sequence number has started over.
    pub fn rollovers(&self) -> (r: u64)
        ensures
            r == self.count(),
    {
        self.rollover_count
    }

    /// The 64-bit continuation of a sequence number. A jump over half the range or more, down,
    /// means that the numbers started over; up, that the packet is from before that.
    pub fn rolled_sequence_number(&mut self, sequence_number: u16) -> (r: u64)
        requires
            old(self).count() < MAX_ROLLOVERS,
        ensures
            final(self).last() == Some(sequence_number),
            final(self).count() == rollovers_after(
                old(self).count(),
                old(self).last(),
                sequence_number,
            ),
            r == final(self).count() * SEQUENCE_NUMBERS + sequence_number,
    {
        let last_value: u16 = match self.last_value {
            Some(last_value) => last_value,
            None => sequence_number,
        };
        let distance: u16 = if last_value > sequence_number {
            last_value - sequence_number
        } else {
            sequence_number - last_value
        };
        if distance >= ROLLOVER_DISTANCE {
            if last_value > sequence_number {
                self.rollover_count = self.rollover_count + 1;
            } else if self.rollover_count > 0 {
                self.rollover_count = self.rollover_count - 1;
            }
        }
        self.last_value = Some(sequence_number);
        self.rollover_count * SEQUENCE_NUMBERS + sequence_number as u64
    }
}

/// How often the sequence number has started over once `next` was seen after `last`.
pub open spec fn rollovers_after(count: int, last: Option<u16>, next: u16) -> int {
    match last {
        None => count,
        Some(last) => if last - next >= ROLLOVER_DISTANCE {
            count + 1
        } else if next - last >= ROLLOVER_DISTANCE {
            saturating_diff(count, 1)
        } else {
            count
        },
    }
}

/// Sequence numbers that step forward by less than half the range continue upwards, also where
/// they start over.
pub proof fn lemma_rolled_numbers_ascend(count: int, last: u16, step: int)
    requires
        count >= 0,
        0 <= step < ROLLOVER_DISTANCE,
    ensures
        ({
            let next = ((last + step) % (SEQUENCE_NUMBERS as int)) as u16;
            rollovers_after(count, Some(last), next) * SEQUENCE_NUMBERS + next == count
                * SEQUENCE_NUMBERS + last + step
        }),
{
    let next = ((last + step) % (SEQUENCE_NUMBERS as int)) as u16;
    if last + step < SEQUENCE_NUMBERS {
        assert(next == last + step);
    } else {
        assert(next == last + step - SEQUENCE_NUMBERS);
    }
}

/// When a missing packet is given up.
#[derive(Debug, Clone, Copy)]
pub enum RtpJitterBufferMode {
    /// A packet for moment `x` ends the wait for packets older than `x` less this span.
    FixedWindow(Duration),
    /// A packet has to leave the buffer before its timestamp, with the input buffer added, is
    /// reached by the clock.
    RealTime,
}

/// What the buffers of the audio and the video track of one input share.
pub struct RtpJitterBufferSharedContext {
    mode: RtpJitterBufferMode,
    clock: Clock,
    input_buffer: InputBuffer,
}

impl RtpJitterBufferSharedContext {
    pub closed spec fn mode(self) -> RtpJitterBufferMode {
        self.mode
    }

    /// The buffer that is added to the timestamps.
    pub closed spec fn buffer(self) -> InputBufferModel {
        self.input_buffer.model()
    }

    /// The moment from which timestamps count.
    pub closed spec fn reference(self) -> Instant {
        self.clock.since()
    }

    /// Every reading of the clock that counts from that moment.
    pub closed spec fn readings(self) -> Seq<Option<Duration>> {
        self.clock.readings()
    }

    /// Every reading that the input buffer made of its clock.
    pub closed spec fn buffer_readings(self) -> Seq<Option<Duration>> {
        self.input_buffer.readings()
    }

    /// The clock was read once, and `elapsed` had gone by; nothing else changed.
    pub open spec fn read_at(self, before: Self, elapsed: Duration) -> bool {
        &&& elapsed.representable()
        &&& told_elapsed(before.reference(), elapsed)
        &&& self.readings() == before.readings().push(Some(elapsed))
        &&& self.reference() == before.reference()
        &&& self.mode() == before.mode()
        &&& self.buffer() == before.buffer()
        &&& self.buffer_clock() == before.buffer_clock()
        &&& self.buffer_readings() == before.buffer_readings()
    }

    /// The moment from which the input buffer counts, if it looks at the clock.
    pub closed spec fn buffer_clock(self) -> Option<Instant> {
        self.input_buffer.clock()
    }

    pub closed spec fn wf(self) -> bool {
        self.input_buffer.wf() && !(self.input_buffer is Adaptive)
    }

    /// With a fixed window, timestamps are settled by the first packet. If the input buffer were no
    /// longer than the window, a packet could leave just when the queue needs it; so the default
    /// buffer is added, and packets reach the queue on time. An input with an offset is not
    /// affected: its timestamps start from zero anyway.
    pub fn new(
        default_buffer_duration: Duration,
        mode: RtpJitterBufferMode,
        reference_time: Instant,
    ) -> (r: Self)
        requires
            default_buffer_duration.representable(),
            mode matches RtpJitterBufferMode::FixedWindow(window) ==> window.representable(),
        ensures
            r.wf(),
            r.mode() == mode,
            r.reference() == reference_time,
            r.readings() == Seq::<Option<Duration>>::empty(),
            r.buffer_readings() == Seq::<Option<Duration>>::empty(),
            r.buffer_clock() == match mode {
                RtpJitterBufferMode::FixedWindow(_) => None,
                RtpJitterBufferMode::RealTime => Some(reference_time),
            },
            r.buffer() == buffer_for(mode, default_buffer_duration),
            r.buffer() == match mode {
                RtpJitterBufferMode::FixedWindow(window) => InputBufferModel::Const {
                    size: Duration {
                        nanos: (window.nanos + default_buffer_duration.nanos) as u128,
                    },
                },
                RtpJitterBufferMode::RealTime => InputBufferModel::LatencyOptimized(
                    LatencyModel {
                        base: default_buffer_duration.nanos as int,
                        state: LatencyOptimizedBufferState::Fits,
                        dynamic: default_buffer_duration.nanos as int,
                    },
                ),
            },
    {
        let opts = match mode {
            RtpJitterBufferMode::FixedWindow(window) => InputBufferOptions::Const {
                size: window.plus(default_buffer_duration),
            },
            RtpJitterBufferMode::RealTime => InputBufferOptions::LatencyOptimized {
                reference_time,
            },
        };
        let input_buffer = InputBuffer::new(default_buffer_duration, opts);
        RtpJitterBufferSharedContext { mode, clock: Clock::new(reference_time), input_buffer }
    }
}

/// The input buffer of a mode.
pub open spec fn buffer_for(mode: RtpJitterBufferMode, usual: Duration) -> InputBufferModel {
    match mode {
        RtpJitterBufferMode::FixedWindow(window) => InputBufferModel::Const {
            size: Duration { nanos: (window.nanos + usual.nanos) as u128 },
        },
        RtpJitterBufferMode::RealTime => InputBufferModel::LatencyOptimized(fresh_latency(usual)),
    }
}

/// With a fixed window, media is held back by the usual buffer on top of the window, whatever the
/// packets do, so that one that waited for the whole window still has the usual time left. In real time
/// it is held back by the usual buffer alone, which then follows the packets.
pub proof fn lemma_window_leaves_the_usual_time(
    mode: RtpJitterBufferMode,
    usual: Duration,
    pts: Duration,
    elapsed: Duration,
)
    requires
        usual.representable(),
        mode matches RtpJitterBufferMode::FixedWindow(window) ==> window.representable(),
    ensures
        match mode {
            RtpJitterBufferMode::FixedWindow(window) => {
                &&& buffer_for(mode, usual).size() - window.nanos == usual.nanos
                &&& buffer_for(mode, usual).recalculated(pts, elapsed).size() - window.nanos
                    == usual.nanos
            },
            RtpJitterBufferMode::RealTime => {
                &&& buffer_for(mode, usual).size() == usual.nanos
                &&& buffer_for(mode, usual) is LatencyOptimized
            },
        },
{
}

/// A packet as it was received. What the buffer does not look at is carried in `header`.
#[derive(Debug)]
pub struct ReceivedPacket<H> {
    pub sequence_number: u16,
    pub header: H,
    pub payload: Vec<u8>,
}

/// A packet and its timestamp.
#[derive(Debug)]
pub struct JitterBufferPacket<H> {
    pub packet: ReceivedPacket<H>,
    pub pts: Duration,
}

/// A packet that leaves the buffer, with the time at which it is due.
#[derive(Debug)]
pub struct RtpPacket<H> {
    pub packet: ReceivedPacket<H>,
    pub timestamp: Duration,
}

/// What leaves the buffer.
#[derive(Debug)]
pub enum RtpInputEvent<H> {
    Packet(RtpPacket<H>),
    LostPacket,
}

/// What the buffer counts.
#[derive(Debug, Clone, Copy, PartialEq, Eq, Structural)]
pub enum RtpJitterBufferStatsEvent {
    RtpPacketReceived,
    BytesReceived(usize),
    RtpPacketLost,
    /// The time a packet had left when it was handed out.
    EffectiveBuffer(Duration),
    InputBufferSize(Duration),
}

/// Ties the clock of the sender to the timestamps of its packets.
#[derive(Debug, Clone, Copy, PartialEq, Eq, Structural)]
pub struct SenderReport {
    pub ntp_time: u64,
    pub rtp_timestamp: u32,
}

/// What a jitter buffer is, seen from outside.
pub struct JitterModel<H> {
    /// The packets that wait, by their continued sequence numbers.
    pub packets: Map<u64, JitterBufferPacket<H>>,
    /// The sequence number that has to leave next, once one has left.
    pub next: Option<u64>,
    pub rollovers: int,
    pub last: Option<u16>,
    /// What was counted and not yet collected.
    pub stats: Seq<RtpJitterBufferStatsEvent>,
    /// Sender reports that were not yet collected.
    pub reports: Seq<SenderReport>,
}

/// `pts` is the earliest timestamp of the packets.
pub open spec fn is_lowest_pts<H>(packets: Map<u64, JitterBufferPacket<H>>, pts: Duration) -> bool {
    &&& exists|key: u64| #[trigger] packets.dom().contains(key) && packets[key].pts == pts
    &&& forall|key: u64| #[trigger]
        packets.dom().contains(key) ==> pts.nanos <= packets[key].pts.nanos
}

/// `pts` is the latest timestamp of the packets.
pub open spec fn is_highest_pts<H>(
    packets: Map<u64, JitterBufferPacket<H>>,
    pts: Duration,
) -> bool {
    &&& exists|key: u64| #[trigger] packets.dom().contains(key) && packets[key].pts == pts
    &&& forall|key: u64| #[trigger]
        packets.dom().contains(key) ==> packets[key].pts.nanos <= pts.nanos
}

impl<H> JitterModel<H> {
    /// No packet is older than the one that has to leave next, and every number has a successor.
    pub open spec fn wf(self) -> bool {
        &&& 0 <= self.rollovers <= MAX_ROLLOVERS
        &&& self.next is Some ==> self.next->0 <= (MAX_ROLLOVERS + 1) * SEQUENCE_NUMBERS
        &&& forall|key: u64| #[trigger]
            self.packets.dom().contains(key) ==> {
                &&& key < (MAX_ROLLOVERS + 1) * SEQUENCE_NUMBERS
                &&& self.next is Some ==> self.next->0 <= key
                &&& self.packets[key].pts.representable()
            }
    }

    /// The continued sequence number of a packet that arrives now.
    pub open spec fn rolled(self, sequence_number: u16) -> u64 {
        (rollovers_after(self.rollovers, self.last, sequence_number) * SEQUENCE_NUMBERS
            + sequence_number) as u64
    }

    /// A packet that arrives now comes after its turn.
    pub open spec fn is_late(self, sequence_number: u16) -> bool {
        self.next is Some && self.next->0 > self.rolled(sequence_number)
    }

    /// What the arrival of a packet makes of the buffer: a late one is dropped.
    pub open spec fn written(self, packet: ReceivedPacket<H>, pts: Duration) -> Self {
        let counted = JitterModel {
            rollovers: rollovers_after(self.rollovers, self.last, packet.sequence_number),
            last: Some(packet.sequence_number),
            ..self
        };
        if self.is_late(packet.sequence_number) {
            counted
        } else {
            JitterModel {
                packets: self.packets.insert(
                    self.rolled(packet.sequence_number),
                    JitterBufferPacket { packet, pts },
                ),
                stats: self.stats.push(RtpJitterBufferStatsEvent::RtpPacketReceived).push(
                    RtpJitterBufferStatsEvent::BytesReceived(packet.payload.len()),
                ),
                ..counted
            }
        }
    }

    /// What asking for the packet under `first` does, the smallest of the keys: if it is not the one
    /// that has to leave next, that one is reported as lost, and the packet stays until its turn.
    pub open spec fn forced(self, first: u64, buffer: int, elapsed: Duration) -> (
        Self,
        RtpInputEvent<H>,
    ) {
        let packet = self.packets[first];
        if self.next is Some && self.next->0 != first {
            (
                JitterModel {
                    next: Some((self.next->0 + 1) as u64),
                    stats: self.stats.push(RtpJitterBufferStatsEvent::RtpPacketLost),
                    ..self
                },
                RtpInputEvent::LostPacket,
            )
        } else {
            let timestamp = Duration { nanos: (packet.pts.nanos + buffer) as u128 };
            (
                JitterModel {
                    packets: self.packets.remove(first),
                    next: Some((first + 1) as u64),
                    stats: self.stats.push(
                        RtpJitterBufferStatsEvent::EffectiveBuffer(
                            Duration {
                                nanos: saturating_diff(
                                    timestamp.nanos as int,
                                    elapsed.nanos as int,
                                ) as u128,
                            },
                        ),
                    ).push(
                        RtpJitterBufferStatsEvent::InputBufferSize(
                            Duration { nanos: buffer as u128 },
                        ),
                    ),
                    ..self
                },
                RtpInputEvent::Packet(RtpPacket { packet: packet.packet, timestamp }),
            )
        }
    }

    /// `after` and `event` are what asking for the first packet gives, without waiting for missing
    /// ones.
    pub open spec fn forced_to(
        self,
        buffer: int,
        elapsed: Duration,
        after: Self,
        event: Option<RtpInputEvent<H>>,
    ) -> bool {
        match event {
            None => self.packets == Map::<u64, JitterBufferPacket<H>>::empty() && after == self,
            Some(event) => exists|first: u64|
                #[trigger] is_first_key(self.packets, first) && (after, event) == self.forced(
                    first,
                    buffer,
                    elapsed,
                ),
        }
    }

    /// A packet that has not arrived is still waited for.
    pub open spec fn waits(self, mode: RtpJitterBufferMode, buffer: int, elapsed: Duration) -> bool {
        match mode {
            RtpJitterBufferMode::FixedWindow(window) => exists|lowest: Duration, highest: Duration|
                #[trigger] is_lowest_pts(self.packets, lowest) && #[trigger] is_highest_pts(
                    self.packets,
                    highest,
                ) && highest.nanos - lowest.nanos < window.nanos,
            RtpJitterBufferMode::RealTime => exists|lowest: Duration|
                #[trigger] is_lowest_pts(self.packets, lowest) && lowest.nanos + buffer
                    > elapsed.nanos + MIN_DECODE_NANOS,
        }
    }

    /// What the arrival of a packet makes of the input buffer: a late one leaves it as it is.
    pub open spec fn adjusted(
        self,
        buffer: InputBufferModel,
        sequence_number: u16,
        pts: Duration,
        elapsed: Duration,
    ) -> InputBufferModel {
        if self.is_late(sequence_number) {
            buffer
        } else {
            buffer.recalculated(pts, elapsed)
        }
    }

    /// `after` and `event` are what asking for a packet gives, with what the buffers of an input share.
    pub open spec fn popped_by(
        self,
        shared: RtpJitterBufferSharedContext,
        elapsed: Duration,
        after: Self,
        event: Option<RtpInputEvent<H>>,
    ) -> bool {
        self.popped_to(shared.mode(), shared.buffer().size(), elapsed, after, event)
    }

    /// `after` and `event` are what asking for a packet without waiting gives, with what the buffers of
    /// an input share.
    pub open spec fn forced_by(
        self,
        shared: RtpJitterBufferSharedContext,
        elapsed: Duration,
        after: Self,
        event: Option<RtpInputEvent<H>>,
    ) -> bool {
        self.forced_to(shared.buffer().size(), elapsed, after, event)
    }

    /// `after` and `event` are what asking for a packet gives: the one that has to leave next leaves
    /// at once, any other only when the wait for the missing ones is over.
    pub open spec fn popped_to(
        self,
        mode: RtpJitterBufferMode,
        buffer: int,
        elapsed: Duration,
        after: Self,
        event: Option<RtpInputEvent<H>>,
    ) -> bool {
        if self.packets == Map::<u64, JitterBufferPacket<H>>::empty() {
            event is None && after == self
        } else if !(self.next is Some && is_first_key(self.packets, self.next->0)) && self.waits(
            mode,
            buffer,
            elapsed,
        ) {
            event is None && after == self
        } else {
            event is Some && self.forced_to(buffer, elapsed, after, event)
        }
    }
}

/// Orders the packets of one track.
pub struct RtpJitterBuffer<H> {
    seq_num_rollover: SequenceNumberRollover,
    packets: OrderedMap<JitterBufferPacket<H>>,
    next_seq_num: Option<u64>,
    stats: Vec<RtpJitterBufferStatsEvent>,
    sender_reports: Vec<SenderReport>,
}

impl<H> RtpJitterBuffer<H> {
    pub closed spec fn model(self) -> JitterModel<H> {
        JitterModel {
            packets: self.packets@,
            next: self.next_seq_num,
            rollovers: self.seq_num_rollover.count(),
            last: self.seq_num_rollover.last(),
            stats: self.stats@,
            reports: self.sender_reports@,
        }
    }

    pub closed spec fn wf(self) -> bool {
        self.packets.wf() && self.model().wf()
    }

    pub fn new() -> (r: Self)
        ensures
            r.wf(),
            r.model() == (JitterModel {
                packets: Map::<u64, JitterBufferPacket<H>>::empty(),
                next: None,
                rollovers: 0,
                last: None,
                stats: Seq::<RtpJitterBufferStatsEvent>::empty(),
                reports: Seq::<SenderReport>::empty(),
            }),
    {
        RtpJitterBuffer {
            seq_num_rollover: SequenceNumberRollover::new(),
            packets: OrderedMap::new(),
            next_seq_num: None,
            stats: Vec::new(),
            sender_reports: Vec::new(),
        }
    }

    /// Notes a sender report for whoever turns RTP timestamps into time.
    pub fn on_sender_report(&mut self, ntp_time: u64, rtp_timestamp: u32)
        requires
            old(self).wf(),
        ensures
            final(self).wf(),
            final(self).model() == (JitterModel {
                reports: old(self).model().reports.push(SenderReport { ntp_time, rtp_timestamp }),
                ..old(self).model()
            }),
    {
        self.sender_reports.push(SenderReport { ntp_time, rtp_timestamp });
    }

    /// Takes the sender reports noted since the last call.
    pub fn take_sender_reports(&mut self) -> (r: Vec<SenderReport>)
        requires
            old(self).wf(),
        ensures
            final(self).wf(),
            r@ == old(self).model().reports,
            final(self).model() == (JitterModel {
                reports: Seq::<SenderReport>::empty(),
                ..old(self).model()
            }),
    {
        let mut taken: Vec<SenderReport> = Vec::new();
        taken.append(&mut self.sender_reports);
        assert(taken@ =~= old(self).sender_reports@);
        taken
    }

    /// Takes what was counted since the last call.
    pub fn take_stats(&mut self) -> (r: Vec<RtpJitterBufferStatsEvent>)
        requires
            old(self).wf(),
        ensures
            final(self).wf(),
            r@ == old(self).model().stats,
            final(self).model() == (JitterModel {
                stats: Seq::<RtpJitterBufferStatsEvent>::empty(),
                ..old(self).model()
            }),
    {
        let mut taken: Vec<RtpJitterBufferStatsEvent> = Vec::new();
        taken.append(&mut self.stats);
        assert(taken@ =~= old(self).stats@);
        taken
    }

    /// How often the sequence number has started over.
    pub fn rollovers(&self) -> (r: u64)
        ensures
            r == self.model().rollovers,
    {
        self.seq_num_rollover.rollovers()
    }

    /// Whether a packet with this sequence number, arriving now, comes after its turn.
    pub fn is_late(&self, sequence_number: u16) -> (r: bool)
        requires
            self.wf(),
            self.model().rollovers < MAX_ROLLOVERS,
        ensures
            r == self.model().is_late(sequence_number),
    {
        let mut rollover = SequenceNumberRollover {
            rollover_count: self.seq_num_rollover.rollover_count,
            last_value: self.seq_num_rollover.last_value,
        };
        let rolled: u64 = rollover.rolled_sequence_number(sequence_number);
        match self.next_seq_num {
            Some(next) => next > rolled,
            None => false,
        }
    }

    /// Adds a packet whose timestamp, counted from the reference time, is `pts`. The input buffer is
    /// adjusted to it. A packet that comes after its turn is dropped.
    pub fn write_packet(
        &mut self,
        packet: ReceivedPacket<H>,
        pts: Duration,
        shared: &mut RtpJitterBufferSharedContext,
    )
        requires
            old(self).wf(),
            old(self).model().rollovers < MAX_ROLLOVERS,
            old(shared).wf(),
            pts.representable(),
        ensures
            final(self).wf(),
            final(self).model() == old(self).model().written(packet, pts),
            final(shared).wf(),
            final(shared).mode() == old(shared).mode(),
            final(shared).reference() == old(shared).reference(),
            final(shared).readings() == old(shared).readings(),
            final(shared).buffer_clock() == old(shared).buffer_clock(),
            if old(self).model().is_late(packet.sequence_number) {
                *final(shared) == *old(shared)
            } else {
                exists|elapsed: Duration|
                    {
                        &&& elapsed.representable()
                        &&& old(shared).buffer_clock() is Some ==> told_elapsed(
                            old(shared).buffer_clock()->0,
                            elapsed,
                        )
                        &&& final(shared).buffer_readings() == if old(shared).buffer_clock() is Some {
                            old(shared).buffer_readings().push(Some(elapsed))
                        } else {
                            old(shared).buffer_readings()
                        }
                        &&& final(shared).buffer() == #[trigger] old(shared).buffer().recalculated(
                            pts,
                            elapsed,
                        )
                        &&& final(shared).buffer() == old(self).model().adjusted(
                            old(shared).buffer(),
                            packet.sequence_number,
                            pts,
                            elapsed,
                        )
                    }
            },
    {
        let ghost before = self.model();
        let sequence_number: u64 = self.seq_num_rollover.rolled_sequence_number(
            packet.sequence_number,
        );
        assert(sequence_number == before.rolled(packet.sequence_number));
        if let Some(next) = self.next_seq_num {
            if next > sequence_number {
                return;
            }
        }
        self.stats.push(RtpJitterBufferStatsEvent::RtpPacketReceived);
        self.stats.push(RtpJitterBufferStatsEvent::BytesReceived(packet.payload.len()));
        shared.input_buffer.recalculate_buffer(pts);
        self.packets.insert(sequence_number, JitterBufferPacket { packet, pts });
    }

    /// Takes out the next packet, unless a missing one is still waited for.
    pub fn pop(&mut self, shared: &mut RtpJitterBufferSharedContext) -> (r: Option<RtpInputEvent<H>>)
        requires
            old(self).wf(),
            old(shared).wf(),
        ensures
            final(self).wf(),
            final(shared).wf(),
            exists|elapsed: Duration|
                {
                    &&& final(shared).read_at(*old(shared), elapsed)
                    &&& #[trigger] old(self).model().popped_to(
                        old(shared).mode(),
                        old(shared).buffer().size(),
                        elapsed,
                        final(self).model(),
                        r,
                    )
                    &&& old(self).model().popped_by(*old(shared), elapsed, final(self).model(), r)
                },
    {
        let elapsed = shared.clock.elapsed();
        self.pop_at(shared, elapsed)
    }

    /// Takes out the next packet when `elapsed` has gone by, unless a missing one is still waited
    /// for.
    pub fn pop_at(&mut self, shared: &RtpJitterBufferSharedContext, elapsed: Duration) -> (r: Option<
        RtpInputEvent<H>,
    >)
        requires
            old(self).wf(),
            shared.wf(),
            elapsed.representable(),
        ensures
            final(self).wf(),
            old(self).model().popped_by(*shared, elapsed, final(self).model(), r),
            old(self).model().popped_to(
                shared.mode(),
                shared.buffer().size(),
                elapsed,
                final(self).model(),
                r,
            ),
    {
        let first: u64 = match self.packets.first() {
            Some(entry) => entry.0,
            None => {
                return None;
            },
        };
        assert(self.packets@.dom().contains(first));
        if let Some(next) = self.next_seq_num {
            if next == first {
                return self.force_pop_at(shared, elapsed);
            }
        }
        let (lowest, highest) = self.pts_range();
        let waits = match shared.mode {
            RtpJitterBufferMode::FixedWindow(window) => {
                highest.saturating_sub(lowest).nanos < window.nanos
            },
            RtpJitterBufferMode::RealTime => {
                let next_pts = lowest.plus(shared.input_buffer.size());
                next_pts.nanos > elapsed.plus(Duration { nanos: MIN_DECODE_NANOS }).nanos
            },
        };
        proof {
            lemma_range_tells_the_wait(
                self.model(),
                shared.mode(),
                shared.buffer().size(),
                elapsed,
                lowest,
                highest,
                first,
            );
        }
        if waits {
            return None;
        }
        self.force_pop_at(shared, elapsed)
    }

    /// The earliest and the latest timestamp of the packets.
    fn pts_range(&self) -> (r: (Duration, Duration))
        requires
            self.wf(),
            self.packets@ != Map::<u64, JitterBufferPacket<H>>::empty(),
        ensures
            is_lowest_pts(self.packets@, r.0),
            is_highest_pts(self.packets@, r.1),
            r.0.representable(),
            r.1.representable(),
    {
        let ghost packets = self.packets@;
        proof {
            let key = choose|key: u64| packets.dom().contains(key);
            if !packets.dom().contains(key) {
                assert(packets =~= Map::<u64, JitterBufferPacket<H>>::empty());
            }
            let _ = lemma_key_has_place(self.packets, key);
        }
        let start = self.packets.entry(0);
        let mut lowest = start.1.pts;
        let mut highest = start.1.pts;
        let mut i: usize = 1;
        while i < self.packets.len()
            invariant
                1 <= i <= self.packets.sorted().len(),
                packets == self.packets@,
                self.wf(),
                exists|key: u64| #[trigger]
                    packets.dom().contains(key) && packets[key].pts == lowest,
                exists|key: u64| #[trigger]
                    packets.dom().contains(key) && packets[key].pts == highest,
                forall|k: int|
                    0 <= k < i ==> lowest.nanos <= (
                    #[trigger] self.packets.sorted()[k]).1.pts.nanos <= highest.nanos,
            decreases self.packets.sorted().len() - i,
        {
            let entry = self.packets.entry(i);
            lowest = lowest.shorter(entry.1.pts);
            highest = highest.longer(entry.1.pts);
            i = i + 1;
        }
        proof {
            assert forall|key: u64| #[trigger] packets.dom().contains(key) implies lowest.nanos
                <= packets[key].pts.nanos <= highest.nanos by {
                let place = lemma_key_has_place(self.packets, key);
                assert(self.packets.sorted()[place].1 == packets[key]);
            }
            let low = choose|key: u64| #[trigger]
                packets.dom().contains(key) && packets[key].pts == lowest;
            let high = choose|key: u64| #[trigger]
                packets.dom().contains(key) && packets[key].pts == highest;
            assert(self.model().packets.dom().contains(low));
            assert(self.model().packets.dom().contains(high));
        }
        (lowest, highest)
    }

    /// Takes out the first packet without waiting for missing ones. Each missing one is reported
    /// first.
    pub fn force_pop(&mut self, shared: &mut RtpJitterBufferSharedContext) -> (r: Option<
        RtpInputEvent<H>,
    >)
        requires
            old(self).wf(),
            old(shared).wf(),
        ensures
            final(self).wf(),
            final(shared).wf(),
            exists|elapsed: Duration|
                {
                    &&& final(shared).read_at(*old(shared), elapsed)
                    &&& #[trigger] old(self).model().forced_to(
                        old(shared).buffer().size(),
                        elapsed,
                        final(self).model(),
                        r,
                    )
                    &&& old(self).model().forced_by(*old(shared), elapsed, final(self).model(), r)
                },
    {
        let elapsed = shared.clock.elapsed();
        self.force_pop_at(shared, elapsed)
    }

    /// Takes out the first packet when `elapsed` has gone by. Each missing one before it is reported
    /// first.
    pub fn force_pop_at(&mut self, shared: &RtpJitterBufferSharedContext, elapsed: Duration) -> (r:
        Option<RtpInputEvent<H>>)
        requires
            old(self).wf(),
            shared.wf(),
            elapsed.representable(),
        ensures
            final(self).wf(),
            old(self).model().forced_by(*shared, elapsed, final(self).model(), r),
            old(self).model().forced_to(
                shared.buffer().size(),
                elapsed,
                final(self).model(),
                r,
            ),
    {
        let ghost before = self.model();
        let first: u64 = match self.packets.first() {
            Some(entry) => entry.0,
            None => {
                return None;
            },
        };
        proof {
            assert(is_first_key(before.packets, first));
            assert(before.packets.dom().contains(first));
        }
        if let Some(next) = self.next_seq_num {
            if first != next {
                self.stats.push(RtpJitterBufferStatsEvent::RtpPacketLost);
                self.next_seq_num = Some(next + 1);
                return Some(RtpInputEvent::LostPacket);
            }
        }
        let (seq_num, packet) = match self.packets.pop_first() {
            Some(entry) => entry,
            None => {
                return None;
            },
        };
        assert(seq_num == first);
        let input_buffer_size = shared.input_buffer.size();
        let timestamp = packet.pts.plus(input_buffer_size);
        let effective = timestamp.saturating_sub(elapsed);
        self.stats.push(RtpJitterBufferStatsEvent::EffectiveBuffer(effective));
        self.stats.push(RtpJitterBufferStatsEvent::InputBufferSize(input_buffer_size));
        self.next_seq_num = Some(seq_num + 1);
        Some(RtpInputEvent::Packet(RtpPacket { packet: packet.packet, timestamp }))
    }

    /// When the first packet is due.
    pub fn peek_next_pts(&self, shared: &RtpJitterBufferSharedContext) -> (r: Option<Duration>)
        requires
            self.wf(),
            shared.wf(),
        ensures
            match r {
                None => self.model().packets == Map::<u64, JitterBufferPacket<H>>::empty(),
                Some(pts) => exists|first: u64|
                    #[trigger] is_first_key(self.model().packets, first) && pts.nanos
                        == self.model().packets[first].pts.nanos + shared.buffer().size(),
            },
    {
        match self.packets.first() {
            Some(entry) => {
                assert(self.packets@.dom().contains(entry.0));
                assert(is_first_key(self.model().packets, entry.0));
                Some(entry.1.pts.plus(shared.input_buffer.size()))
            },
            None => None,
        }
    }
}

/// What is true of every well-formed buffer.
pub proof fn lemma_jitter_buffer_is_valid<H>(buffer: RtpJitterBuffer<H>)
    requires
        buffer.wf(),
    ensures
        buffer.model().wf(),
{
}

/// What is true of every well-formed shared context.
pub proof fn lemma_shared_context_is_valid(shared: RtpJitterBufferSharedContext)
    requires
        shared.wf(),
    ensures
        0 <= shared.buffer().size() <= LONGEST_BUFFER,
{
    if let InputBuffer::LatencyOptimized(buffer) = shared.input_buffer {
        lemma_latency_buffer_is_valid(buffer);
    }
}

/// Every event accounts for exactly one sequence number, in order: once a packet has left, the
/// next event is that of the number after it, whether the packet is handed out or lost.
pub proof fn lemma_one_event_per_number<H>(
    before: JitterModel<H>,
    buffer: int,
    elapsed: Duration,
    after: JitterModel<H>,
    event: RtpInputEvent<H>,
)
    requires
        before.wf(),
        before.forced_to(buffer, elapsed, after, Some(event)),
    ensures
        after.wf(),
        after.next is Some,
        before.next is Some ==> after.next->0 == before.next->0 + 1,
        event is Packet ==> {
            let number = (after.next->0 - 1) as u64;
            &&& before.packets.dom().contains(number)
            &&& event->Packet_0.packet == before.packets[number].packet
            &&& event->Packet_0.timestamp.nanos == (before.packets[number].pts.nanos + buffer) as u128
        },
{
    let first = choose|first: u64|
        #[trigger] is_first_key(before.packets, first) && (after, event) == before.forced(
            first,
            buffer,
            elapsed,
        );
    assert(before.packets.dom().contains(first));
    assert forall|key: u64| #[trigger] after.packets.dom().contains(key) implies after.next->0
        <= key by {
        assert(before.packets.dom().contains(key));
        assert(first <= key);
    }
}

/// One packet was asked for, without waiting for missing ones.
pub open spec fn asked<H>(
    before: JitterModel<H>,
    after: JitterModel<H>,
    event: Option<RtpInputEvent<H>>,
) -> bool {
    exists|buffer: int, elapsed: Duration| #[trigger]
        before.forced_to(buffer, elapsed, after, event)
}

/// This packet is handed out by one of the events.
pub open spec fn handed_out<H>(
    events: Seq<Option<RtpInputEvent<H>>>,
    packet: ReceivedPacket<H>,
) -> bool {
    exists|i: int|
        0 <= i < events.len() && (#[trigger] events[i] matches Some(RtpInputEvent::Packet(left))
            && left.packet == packet)
}

/// A packet that arrives before its turn is over is in the buffer, and stays there until it is
/// handed out, or until another packet with its number takes its place: no report of a loss and no
/// other packet removes it.
pub proof fn lemma_packet_stays_until_its_turn<H>(
    before: JitterModel<H>,
    packet: ReceivedPacket<H>,
    pts: Duration,
    key: u64,
    after: JitterModel<H>,
    event: Option<RtpInputEvent<H>>,
)
    requires
        before.wf(),
        before.packets.dom().contains(key),
        asked(before, after, event),
    ensures
        !before.is_late(packet.sequence_number) ==> before.written(
            packet,
            pts,
        ).packets.dom().contains(before.rolled(packet.sequence_number)) && before.written(
            packet,
            pts,
        ).packets[before.rolled(packet.sequence_number)].packet == packet,
        before.rolled(packet.sequence_number) != key ==> before.written(
            packet,
            pts,
        ).packets.dom().contains(key) && before.written(packet, pts).packets[key]
            == before.packets[key],
        (after.packets.dom().contains(key) && after.packets[key] == before.packets[key]) || (
        event matches Some(RtpInputEvent::Packet(left)) && left.packet == before.packets[key].packet
            && after.next == Some((key + 1) as u64)),
{
}

/// A packet that is in the buffer is handed out: whoever goes on asking gets one event for every
/// number from `start`, the next one to leave, up to the number of the packet, and the last of these
/// is the packet. `states` are what the buffer is before, between and after the questions.
pub proof fn lemma_written_packet_leaves<H>(
    states: Seq<JitterModel<H>>,
    events: Seq<Option<RtpInputEvent<H>>>,
    start: u64,
    key: u64,
)
    requires
        states.len() == events.len() + 1,
        states[0].wf(),
        states[0].packets.dom().contains(key),
        match states[0].next {
            Some(next) => next == start,
            None => is_first_key(states[0].packets, start),
        },
        forall|i: int|
            0 <= i < events.len() ==> asked(states[i], #[trigger] states[i + 1], events[i]),
        events.len() > key - start,
    ensures
        handed_out(events, states[0].packets[key].packet),
    decreases events.len(),
{
    let before = states[0];
    let after = states[1];
    assert(events.len() > 0);
    assert(asked(before, states[0int + 1], events[0]));
    let (buffer, elapsed) = choose|buffer: int, elapsed: Duration| #[trigger]
        before.forced_to(buffer, elapsed, after, events[0]);
    assert(before.packets != Map::<u64, JitterBufferPacket<H>>::empty());
    assert(events[0] is Some);
    lemma_one_event_per_number(before, buffer, elapsed, after, events[0]->0);
    let first = choose|first: u64|
        #[trigger] is_first_key(before.packets, first) && (after, events[0]->0) == before.forced(
            first,
            buffer,
            elapsed,
        );
    assert(first <= key);
    if before.next is None {
        assert(first == start);
    }
    if first == key && (before.next is None || before.next->0 == first) {
        assert(events[0] matches Some(RtpInputEvent::Packet(left)) && left.packet
            == before.packets[key].packet);
    } else {
        let later = events.drop_first();
        let rest = states.drop_first();
        assert(after.packets.dom().contains(key) && after.packets[key] == before.packets[key]);
        assert forall|i: int| 0 <= i < later.len() implies asked(
            rest[i],
            #[trigger] rest[i + 1],
            later[i],
        ) by {
            assert(asked(states[i + 1], states[i + 1 + 1], events[i + 1]));
        }
        lemma_written_packet_leaves(rest, later, after.next->0, key);
        let i = choose|i: int|
            0 <= i < later.len() && (#[trigger] later[i] matches Some(RtpInputEvent::Packet(left))
                && left.packet == before.packets[key].packet);
        assert(events[i + 1] == later[i]);
    }
}

/// What was handed out or given up never enters the buffer again.
pub proof fn lemma_late_packets_stay_out<H>(
    before: JitterModel<H>,
    packet: ReceivedPacket<H>,
    pts: Duration,
)
    requires
        before.wf(),
        before.rollovers < MAX_ROLLOVERS,
        before.is_late(packet.sequence_number),
    ensures
        before.written(packet, pts).packets == before.packets,
        before.written(packet, pts).stats == before.stats,
{
}

/// A packet that is waited for leaves at once when it is there.
pub proof fn lemma_next_packet_leaves_at_once<H>(
    before: JitterModel<H>,
    mode: RtpJitterBufferMode,
    buffer: int,
    elapsed: Duration,
    after: JitterModel<H>,
    event: Option<RtpInputEvent<H>>,
)
    requires
        before.wf(),
        before.popped_to(mode, buffer, elapsed, after, event),
        before.next is Some && before.packets.dom().contains(before.next->0),
    ensures
        event matches Some(RtpInputEvent::Packet(packet)) && packet.packet
            == before.packets[before.next->0].packet,
        after.packets == before.packets.remove(before.next->0),
{
    let next = before.next->0;
    assert(is_first_key(before.packets, next));
    assert(before.packets != Map::<u64, JitterBufferPacket<H>>::empty());
    let first = choose|first: u64|
        #[trigger] is_first_key(before.packets, first) && (after, event->0) == before.forced(
            first,
            buffer,
            elapsed,
        );
    assert(first == next);
}

/// Missing packets are not waited for forever. With a fixed window, the wait ends when the packets
/// that are there span the window; otherwise it ends when the earliest of them is nearly due.
pub proof fn lemma_waiting_is_bounded<H>(
    before: JitterModel<H>,
    mode: RtpJitterBufferMode,
    buffer: int,
    elapsed: Duration,
    after: JitterModel<H>,
    event: Option<RtpInputEvent<H>>,
    lowest: Duration,
    highest: Duration,
)
    requires
        before.popped_to(mode, buffer, elapsed, after, event),
        is_lowest_pts(before.packets, lowest),
        is_highest_pts(before.packets, highest),
        match mode {
            RtpJitterBufferMode::FixedWindow(window) => highest.nanos - lowest.nanos
                >= window.nanos,
            RtpJitterBufferMode::RealTime => lowest.nanos + buffer <= elapsed.nanos
                + MIN_DECODE_NANOS,
        },
    ensures
        event is Some,
{
    let present = choose|key: u64|
        #[trigger] before.packets.dom().contains(key) && before.packets[key].pts == lowest;
    assert(before.packets.dom().contains(present));
    assert forall|other: Duration| #[trigger] is_lowest_pts(before.packets, other) implies other
        == lowest by {
        let key = choose|key: u64|
            #[trigger] before.packets.dom().contains(key) && before.packets[key].pts == other;
        assert(before.packets.dom().contains(key));
    }
    let last = choose|key: u64|
        #[trigger] before.packets.dom().contains(key) && before.packets[key].pts == highest;
    assert forall|other: Duration| #[trigger] is_highest_pts(before.packets, other) implies other
        == highest by {
        let key = choose|key: u64|
            #[trigger] before.packets.dom().contains(key) && before.packets[key].pts == other;
        assert(before.packets.dom().contains(key));
        assert(before.packets.dom().contains(last));
    }
    assert(!before.waits(mode, buffer, elapsed));
}

/// Sequence numbers are continued to the nearest number that ends in them. A number that lies up to
/// 32766 ahead of the last one, counted round the end of the range, continues that far upwards, and
/// one that lies up to 32766 behind it that far downwards, unless that would lead below zero.
pub proof fn lemma_numbers_are_continued<H>(buffer: JitterModel<H>, step: int, sequence_number: u16)
    requires
        buffer.last is Some,
        0 <= buffer.rollovers < MAX_ROLLOVERS,
        -32_767 < step < 32_767,
        buffer.rollovers * 65_536 + buffer.last->0 + step >= 0,
        (buffer.last->0 + step - sequence_number) % 65_536 == 0,
    ensures
        buffer.rolled(sequence_number) == buffer.rollovers * 65_536 + buffer.last->0 + step,
{
    let last = buffer.last->0;
    if last + step >= 65_536 {
        assert(sequence_number == last + step - 65_536);
    } else if last + step < 0 {
        assert(sequence_number == last + step + 65_536);
    } else {
        assert(sequence_number == last + step);
    }
}

/// A number that lies at least 32767 below the last one is from after the numbers started over, one
/// that lies at least that far above it from before that; before they ever did, it is taken as it is.
pub proof fn lemma_far_numbers_start_over<H>(buffer: JitterModel<H>, sequence_number: u16)
    requires
        buffer.last is Some,
        0 <= buffer.rollovers < MAX_ROLLOVERS,
    ensures
        buffer.last->0 - sequence_number >= 32_767 ==> buffer.rolled(sequence_number) == (
        buffer.rollovers + 1) * 65_536 + sequence_number,
        sequence_number - buffer.last->0 >= 32_767 && buffer.rollovers > 0 ==> buffer.rolled(
            sequence_number,
        ) == (buffer.rollovers - 1) * 65_536 + sequence_number,
        sequence_number - buffer.last->0 >= 32_767 && buffer.rollovers == 0 ==> buffer.rolled(
            sequence_number,
        ) == sequence_number,
{
}

/// The first packet has the number that it came with.
pub proof fn lemma_first_number_is_kept<H>(buffer: JitterModel<H>, sequence_number: u16)
    requires
        buffer.last is None,
        buffer.rollovers == 0,
    ensures
        buffer.rolled(sequence_number) == sequence_number,
{
}

/// A packet whose continued number is not below the one that has to leave next is in the buffer once
/// it was written, with its timestamp, whatever arrived before it; one whose number is below that is
/// not taken in. All other packets are as they were. What is taken in is counted, with its size.
pub proof fn lemma_packet_is_kept_until_its_turn_is_over<H>(
    before: JitterModel<H>,
    packet: ReceivedPacket<H>,
    pts: Duration,
    number: u64,
)
    requires
        number == before.rolled(packet.sequence_number),
    ensures
        ({
            let after = before.written(packet, pts);
            let in_time = before.next is None || before.next->0 <= number;
            &&& in_time ==> {
                &&& after.packets.dom().contains(number)
                &&& after.packets[number].packet == packet
                &&& after.packets[number].pts == pts
                &&& after.stats.len() == before.stats.len() + 2
                &&& after.stats.take(before.stats.len() as int) == before.stats
                &&& after.stats[before.stats.len() as int]
                    == RtpJitterBufferStatsEvent::RtpPacketReceived
                &&& after.stats[before.stats.len() + 1int]
                    == RtpJitterBufferStatsEvent::BytesReceived(packet.payload.len())
            }
            &&& !in_time ==> after.packets == before.packets && after.stats == before.stats
            &&& before.is_late(packet.sequence_number) <==> !in_time
            &&& forall|other: u64|
                other != number ==> {
                    &&& #[trigger] after.packets.dom().contains(other)
                        <==> before.packets.dom().contains(other)
                    &&& before.packets.dom().contains(other) ==> after.packets[other]
                        == before.packets[other]
                }
            &&& after.next == before.next && after.reports == before.reports
            &&& after.last == Some(packet.sequence_number)
            &&& number == (after.rollovers * 65_536 + packet.sequence_number) as u64
        }),
{
    let after = before.written(packet, pts);
    assert(after.stats.take(before.stats.len() as int) =~= before.stats);
}

/// What leaves next is the packet with the next number if it is there: it leaves unchanged, due when
/// its timestamp and the buffer together say, and the buffer goes on with the number after it. If it
/// is not there, exactly that number is reported as lost, and every packet stays. The first packet
/// of all is the one with the lowest number.
pub proof fn lemma_what_leaves_next<H>(
    before: JitterModel<H>,
    buffer: int,
    elapsed: Duration,
    after: JitterModel<H>,
    event: Option<RtpInputEvent<H>>,
    lowest: u64,
)
    requires
        before.forced_to(buffer, elapsed, after, event),
        0 <= buffer <= LONGEST_BUFFER,
        before.wf(),
        before.packets.dom().contains(lowest),
        forall|key: u64| #[trigger] before.packets.dom().contains(key) ==> lowest <= key,
    ensures
        after.last == before.last && after.rollovers == before.rollovers && after.reports
            == before.reports,
        before.next is Some && before.next->0 < lowest ==> {
            &&& event == Some(RtpInputEvent::<H>::LostPacket)
            &&& after.packets == before.packets
            &&& after.next == Some((before.next->0 + 1) as u64)
            &&& after.stats == before.stats.push(RtpJitterBufferStatsEvent::RtpPacketLost)
        },
        before.next is None || before.next->0 == lowest ==> {
            let packet = before.packets[lowest];
            &&& event matches Some(RtpInputEvent::Packet(left)) && left.packet == packet.packet
                && left.timestamp.nanos == packet.pts.nanos + buffer
            &&& after.packets.dom() == before.packets.dom().remove(lowest)
            &&& forall|key: u64| #[trigger]
                after.packets.dom().contains(key) ==> after.packets[key] == before.packets[key]
            &&& after.next == Some((lowest + 1) as u64)
            &&& after.stats.len() == before.stats.len() + 2
            &&& after.stats[before.stats.len() as int]
                matches RtpJitterBufferStatsEvent::EffectiveBuffer(left)
                && left.nanos == if packet.pts.nanos + buffer >= elapsed.nanos {
                packet.pts.nanos + buffer - elapsed.nanos
            } else {
                0
            }
            &&& after.stats[before.stats.len() + 1int]
                matches RtpJitterBufferStatsEvent::InputBufferSize(size) && size.nanos == buffer
        },
{
    assert(is_first_key(before.packets, lowest));
    assert(before.packets != Map::<u64, JitterBufferPacket<H>>::empty());
    let first = choose|first: u64|
        #[trigger] is_first_key(before.packets, first) && (after, event->0) == before.forced(
            first,
            buffer,
            elapsed,
        );
    assert(first == lowest);
    assert(before.packets[lowest].pts.representable());
}

/// Nothing leaves an empty buffer.
pub proof fn lemma_nothing_leaves_an_empty_buffer<H>(
    before: JitterModel<H>,
    mode: RtpJitterBufferMode,
    buffer: int,
    elapsed: Duration,
    after: JitterModel<H>,
    event: Option<RtpInputEvent<H>>,
)
    requires
        forall|key: u64| !(#[trigger] before.packets.dom().contains(key)),
        before.popped_to(mode, buffer, elapsed, after, event) || before.forced_to(
            buffer,
            elapsed,
            after,
            event,
        ),
    ensures
        event is None,
        after == before,
{
    if event is Some {
        assert(before.packets =~= Map::<u64, JitterBufferPacket<H>>::empty());
        if before.forced_to(buffer, elapsed, after, event) {
            let first = choose|first: u64|
                #[trigger] is_first_key(before.packets, first) && (after, event->0)
                    == before.forced(first, buffer, elapsed);
            assert(before.packets.dom().contains(first));
        }
    } else {
        assert(before.packets =~= Map::<u64, JitterBufferPacket<H>>::empty());
    }
}

/// A missing packet is waited for, and nothing changes meanwhile, as long as the packets that are
/// there span less than the window, or, in real time, as long as none of them has to be decoded
/// within 30 ms to be in time. Where the wait is over, asking is the same as not waiting.
pub proof fn lemma_missing_packet_is_waited_for<H>(
    before: JitterModel<H>,
    mode: RtpJitterBufferMode,
    buffer: int,
    elapsed: Duration,
    after: JitterModel<H>,
    event: Option<RtpInputEvent<H>>,
    earliest: u64,
    latest: u64,
)
    requires
        before.popped_to(mode, buffer, elapsed, after, event),
        before.packets.dom().contains(earliest),
        before.packets.dom().contains(latest),
        forall|key: u64| #[trigger]
            before.packets.dom().contains(key) ==> before.packets[earliest].pts.nanos
                <= before.packets[key].pts.nanos <= before.packets[latest].pts.nanos,
    ensures
        ({
            let has_next = before.next is Some && before.packets.dom().contains(before.next->0)
                && forall|key: u64| #[trigger]
                before.packets.dom().contains(key) ==> before.next->0 <= key;
            let waits = match mode {
                RtpJitterBufferMode::FixedWindow(window) => before.packets[latest].pts.nanos
                    - before.packets[earliest].pts.nanos < window.nanos,
                RtpJitterBufferMode::RealTime => before.packets[earliest].pts.nanos + buffer
                    > elapsed.nanos + 30_000_000,
            };
            &&& !has_next && waits ==> event is None && after == before
            &&& has_next || !waits ==> event is Some && before.forced_to(
                buffer,
                elapsed,
                after,
                event,
            )
        }),
{
    let lowest = before.packets[earliest].pts;
    let highest = before.packets[latest].pts;
    assert(before.packets != Map::<u64, JitterBufferPacket<H>>::empty());
    assert(is_lowest_pts(before.packets, lowest));
    assert(is_highest_pts(before.packets, highest));
    assert forall|other: Duration| #[trigger] is_lowest_pts(before.packets, other) implies other
        == lowest by {
        let key = choose|key: u64|
            #[trigger] before.packets.dom().contains(key) && before.packets[key].pts == other;
        assert(before.packets.dom().contains(key));
    }
    assert forall|other: Duration| #[trigger] is_highest_pts(before.packets, other) implies other
        == highest by {
        let key = choose|key: u64|
            #[trigger] before.packets.dom().contains(key) && before.packets[key].pts == other;
        assert(before.packets.dom().contains(key));
    }
}

/// Whether a missing packet is waited for can be told from the earliest and the latest timestamp.
proof fn lemma_range_tells_the_wait<H>(
    model: JitterModel<H>,
    mode: RtpJitterBufferMode,
    buffer: int,
    elapsed: Duration,
    lowest: Duration,
    highest: Duration,
    first: u64,
)
    requires
        is_lowest_pts(model.packets, lowest),
        is_highest_pts(model.packets, highest),
        model.packets.dom().contains(first),
    ensures
        lowest.nanos <= highest.nanos,
        model.waits(mode, buffer, elapsed) <==> match mode {
            RtpJitterBufferMode::FixedWindow(window) => highest.nanos - lowest.nanos
                < window.nanos,
            RtpJitterBufferMode::RealTime => lowest.nanos + buffer > elapsed.nanos
                + MIN_DECODE_NANOS,
        },
{
    let packets = model.packets;
    assert(lowest.nanos <= packets[first].pts.nanos <= highest.nanos);
    assert forall|other: Duration| #[trigger] is_lowest_pts(packets, other) implies other
        == lowest by {
        let key = choose|key: u64| #[trigger]
            packets.dom().contains(key) && packets[key].pts == other;
        let mine = choose|key: u64| #[trigger]
            packets.dom().contains(key) && packets[key].pts == lowest;
        assert(lowest.nanos <= packets[key].pts.nanos);
        assert(other.nanos <= packets[mine].pts.nanos);
    }
    assert forall|other: Duration| #[trigger] is_highest_pts(packets, other) implies other
        == highest by {
        let key = choose|key: u64| #[trigger]
            packets.dom().contains(key) && packets[key].pts == other;
        let mine = choose|key: u64| #[trigger]
            packets.dom().contains(key) && packets[key].pts == highest;
        assert(packets[key].pts.nanos <= highest.nanos);
        assert(packets[mine].pts.nanos <= other.nanos);
    }
}

/// By how much a buffer of each kind puts media off.
pub open spec fn put_off_by(buffer: InputBufferModel) -> int {
    match buffer {
        InputBufferModel::NoBuffer => 0,
        InputBufferModel::Const { size } => size.nanos as int,
        InputBufferModel::LatencyOptimized(model) => model.dynamic,
        InputBufferModel::Adaptive(model) => model.dynamic,
    }
}

/// A packet leaves as it arrived, at its own timestamp put off by the input buffer as it is then, whether
/// missing packets were waited for or not.
pub proof fn lemma_packet_is_put_off_by_the_buffer<H>(
    before: JitterModel<H>,
    shared: RtpJitterBufferSharedContext,
    elapsed: Duration,
    after: JitterModel<H>,
    left: RtpPacket<H>,
)
    requires
        before.wf(),
        shared.wf(),
        before.popped_by(shared, elapsed, after, Some(RtpInputEvent::Packet(left)))
            || before.forced_by(shared, elapsed, after, Some(RtpInputEvent::Packet(left))),
    ensures
        exists|key: u64|
            {
                &&& #[trigger] before.packets.dom().contains(key)
                &&& !after.packets.dom().contains(key)
                &&& left.packet == before.packets[key].packet
                &&& left.timestamp.nanos == before.packets[key].pts.nanos + put_off_by(
                    shared.buffer(),
                )
            },
{
    lemma_shared_context_is_valid(shared);
    let buffer = shared.buffer().size();
    let event = RtpInputEvent::Packet(left);
    assert(before.forced_to(buffer, elapsed, after, Some(event)));
    let first = choose|first: u64|
        #[trigger] is_first_key(before.packets, first) && (after, event) == before.forced(
            first,
            buffer,
            elapsed,
        );
    assert(before.packets.dom().contains(first));
    assert(before.packets[first].pts.representable());
}

/// A packet that is not late adjusts the input buffer, and one that is late does not. So a packet that
/// has no more than the usual time left makes a latency optimized buffer long enough to leave it three
/// times that.
pub proof fn lemma_packets_in_time_adjust_the_buffer<H>(
    before: JitterModel<H>,
    buffer: LatencyModel,
    sequence_number: u16,
    pts: Duration,
    elapsed: Duration,
)
    requires
        pts.nanos + buffer.dynamic - elapsed.nanos <= buffer.base,
        pts.nanos <= elapsed.nanos + 3 * buffer.base,
        buffer.base >= 0,
    ensures
        ({
            let after = before.adjusted(
                InputBufferModel::LatencyOptimized(buffer),
                sequence_number,
                pts,
                elapsed,
            );
            let number = before.rolled(sequence_number);
            &&& before.next is Some && number < before.next->0 ==> after
                == InputBufferModel::LatencyOptimized(buffer)
            &&& before.next is None || before.next->0 <= number ==> pts.nanos + put_off_by(after)
                - elapsed.nanos == 3 * buffer.base
        }),
{
}

} // verus!
