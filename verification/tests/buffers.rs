use std::sync::Arc;
use std::time::Instant;

use smelter_media::frame::Frame;
use smelter_media::input_buffer::{
    AdaptiveBuffer, InputBuffer, InputBufferOptions, InputDelayBuffer, LatencyOptimizedBuffer,
    LatencyOptimizedBufferState, TimedValue,
};
use smelter_media::jitter_buffer::{
    ReceivedPacket, RtpInputEvent, RtpJitterBuffer, RtpJitterBufferMode,
    RtpJitterBufferSharedContext, RtpJitterBufferStatsEvent, SenderReport, SequenceNumberRollover,
};
use smelter_media::media::Resolution;
use smelter_media::ordered_map::OrderedMap;
use smelter_media::time::Duration;

fn ms(millis: u64) -> Duration {
    Duration::from_millis(millis)
}

fn us(micros: u64) -> Duration {
    Duration::from_micros(micros)
}

fn frame(pts: Duration) -> Frame<u32> {
    Frame { data: Arc::new(0), pts, resolution: Resolution { width: 2, height: 2 } }
}

fn packet(sequence_number: u16) -> ReceivedPacket<()> {
    ReceivedPacket { sequence_number, header: (), payload: vec![0; 3] }
}

#[test]
fn delay_buffer_waits_until_enough_is_collected() {
    let mut buffer = InputDelayBuffer::new(ms(40));
    buffer.write(frame(ms(0)));
    assert!(buffer.read().is_none());
    buffer.write(frame(ms(40)));
    assert!(buffer.read().is_none());
    buffer.write(frame(ms(41)));
    assert_eq!(buffer.read().unwrap().pts(), ms(0));
    assert_eq!(buffer.read().unwrap().pts(), ms(40));
    assert_eq!(buffer.read().unwrap().pts(), ms(41));
    assert!(buffer.read().is_none());
    assert!(!buffer.is_done());
}

#[test]
fn delay_buffer_is_read_out_after_its_end() {
    let mut buffer = InputDelayBuffer::new(ms(40));
    buffer.write(frame(ms(5)));
    buffer.mark_end();
    assert!(!buffer.is_done());
    assert_eq!(buffer.read().unwrap().pts(), ms(5));
    assert!(buffer.is_done());
}

#[test]
fn late_packet_restores_the_largest_desired_buffer() {
    let mut buffer = LatencyOptimizedBuffer::new(ms(80), Instant::now());
    buffer.recalculate_at(ms(100), ms(150));
    // 150 + 240 - 100
    assert_eq!(buffer.dynamic_buffer(), ms(290));
}

#[test]
fn buffer_grows_slowly_below_the_desired_range() {
    let mut buffer = LatencyOptimizedBuffer::new(ms(80), Instant::now());
    buffer.recalculate_at(ms(100), ms(50));
    assert_eq!(buffer.dynamic_buffer(), us(80_500));
}

#[test]
fn buffer_stays_within_the_desired_range() {
    let mut buffer = LatencyOptimizedBuffer::new(ms(80), Instant::now());
    buffer.recalculate_at(ms(200), ms(80));
    assert_eq!(buffer.dynamic_buffer(), ms(80));
}

#[test]
fn buffer_shrinks_once_it_was_too_large_for_long_enough() {
    let reference = Instant::now();
    for (ahead, expected) in [
        (300, ms(80).saturating_sub(us(200))),
        (700, ms(80).saturating_sub(us(500))),
        (1200, ms(80).saturating_sub(us(80))),
    ] {
        let mut buffer = LatencyOptimizedBuffer::new(ms(80), reference);
        buffer.recalculate_at(ms(ahead), ms(0));
        assert_eq!(buffer.dynamic_buffer(), ms(80));
        buffer.recalculate_at(ms(ahead + 10_000), ms(10_000));
        assert_eq!(buffer.dynamic_buffer(), ms(80));
        buffer.recalculate_at(ms(ahead + 10_001), ms(10_001));
        assert_eq!(buffer.dynamic_buffer(), expected);
    }
}

#[test]
fn a_fitting_moment_restarts_the_wait_for_shrinking() {
    let mut buffer = LatencyOptimizedBuffer::new(ms(80), Instant::now());
    buffer.recalculate_at(ms(300), ms(0));
    buffer.recalculate_at(ms(5_120), ms(5_000));
    buffer.recalculate_at(ms(10_500), ms(10_200));
    assert_eq!(buffer.dynamic_buffer(), ms(80));
}

#[test]
fn buffer_state_remembers_since_when() {
    let mut state = LatencyOptimizedBufferState::Fits;
    assert_eq!(state.set_too_large(ms(3)), ms(3));
    assert_eq!(state.set_too_large(ms(9)), ms(3));
    state.set_too_small();
    assert_eq!(state, LatencyOptimizedBufferState::TooSmall);
    assert_eq!(state.set_too_large(ms(9)), ms(9));
    state.set_ok();
    assert_eq!(state, LatencyOptimizedBufferState::Fits);
}

#[test]
fn adaptive_buffer_only_grows() {
    let mut buffer = AdaptiveBuffer::new(ms(80));
    buffer.recalculate_buffer(Duration::from_secs(1_000));
    assert_eq!(buffer.dynamic_buffer(), ms(80));
    buffer.recalculate_at(ms(100), ms(120));
    assert_eq!(buffer.dynamic_buffer(), us(80_100));
    buffer.recalculate_at(ms(100), ms(500));
    assert_eq!(buffer.dynamic_buffer(), ms(480));
}

#[test]
fn adaptive_buffer_with_a_short_default_has_a_short_minimum() {
    let mut buffer = AdaptiveBuffer::new(ms(10));
    buffer.recalculate_buffer(Duration::from_secs(1_000));
    // an effective buffer of 10 ms is not above the minimum of 10 ms
    buffer.recalculate_at(ms(100), ms(100));
    assert_eq!(buffer.dynamic_buffer(), ms(10));
    buffer.recalculate_at(ms(100), ms(101));
    assert_eq!(buffer.dynamic_buffer(), ms(11));
}

#[test]
fn input_buffers_report_their_size() {
    let none = InputBuffer::new(ms(80), InputBufferOptions::NoBuffer);
    assert_eq!(none.size(), ms(0));
    let mut constant = InputBuffer::new(ms(80), InputBufferOptions::Const { size: ms(33) });
    constant.recalculate_buffer(ms(5));
    assert_eq!(constant.size(), ms(33));
    let mut adaptive = InputBuffer::new(ms(80), InputBufferOptions::Adaptive);
    adaptive.recalculate_buffer(Duration::from_secs(100));
    assert_eq!(adaptive.size(), ms(80));
    let mut latency = InputBuffer::new(
        ms(80),
        InputBufferOptions::LatencyOptimized { reference_time: Instant::now() },
    );
    latency.recalculate_buffer(Duration::from_secs(100));
    assert_eq!(latency.size(), ms(80));
}

#[test]
fn the_clock_runs_from_the_reference_time() {
    let reference = Instant::now() - std::time::Duration::from_secs(3);
    let mut buffer = LatencyOptimizedBuffer::new(ms(80), reference);
    buffer.recalculate_buffer(ms(1_000));
    // at least three seconds plus 240 ms, less one second
    assert!(buffer.dynamic_buffer().nanos >= ms(2_240).nanos);
    assert!(buffer.dynamic_buffer().nanos < ms(60_000).nanos);
}

#[test]
fn ordered_map_hands_out_the_smallest_key() {
    let mut map = OrderedMap::new();
    for (key, value) in [(5, "five"), (1, "one"), (9, "nine"), (5, "again")] {
        map.insert(key, value);
    }
    assert_eq!(map.len(), 3);
    assert_eq!(map.first().unwrap().0, 1);
    assert_eq!(map.pop_first(), Some((1, "one")));
    assert_eq!(map.pop_first(), Some((5, "again")));
    assert_eq!(map.entry(0), &(9, "nine"));
    assert_eq!(map.pop_first(), Some((9, "nine")));
    assert_eq!(map.pop_first(), None);
    assert!(map.first().is_none());
}

#[test]
fn sequence_numbers_continue_past_the_end() {
    let mut rollover = SequenceNumberRollover::new();
    assert_eq!(rollover.rolled_sequence_number(65_534), 65_534);
    assert_eq!(rollover.rolled_sequence_number(2), 65_538);
    assert_eq!(rollover.rolled_sequence_number(65_535), 65_535);
    assert_eq!(rollover.rolled_sequence_number(3), 65_539);
    assert_eq!(rollover.rollovers(), 1);
}

#[test]
fn a_jump_of_just_under_half_the_range_is_no_rollover() {
    let mut rollover = SequenceNumberRollover::new();
    assert_eq!(rollover.rolled_sequence_number(40_000), 40_000);
    assert_eq!(rollover.rolled_sequence_number(40_000 - 32_766), 40_000 - 32_766);
    let mut rollover = SequenceNumberRollover::new();
    rollover.rolled_sequence_number(40_000);
    assert_eq!(rollover.rolled_sequence_number(40_000 - 32_767), 65_536 + 40_000 - 32_767);
}

#[test]
fn an_early_packet_from_before_the_start_stays_in_the_first_round() {
    let mut rollover = SequenceNumberRollover::new();
    assert_eq!(rollover.rolled_sequence_number(1), 1);
    assert_eq!(rollover.rolled_sequence_number(65_535), 65_535);
    assert_eq!(rollover.rollovers(), 0);
}

fn fixed_window() -> RtpJitterBufferSharedContext {
    RtpJitterBufferSharedContext::new(
        ms(80),
        RtpJitterBufferMode::FixedWindow(ms(100)),
        Instant::now(),
    )
}

#[test]
fn packets_leave_in_order() {
    let mut shared = fixed_window();
    let mut buffer = RtpJitterBuffer::new();
    buffer.write_packet(packet(11), ms(20), &mut shared);
    buffer.write_packet(packet(10), ms(0), &mut shared);
    assert!(buffer.pop(&mut shared).is_none());
    assert_eq!(buffer.peek_next_pts(&shared), Some(ms(180)));
    match buffer.force_pop(&mut shared) {
        Some(RtpInputEvent::Packet(out)) => {
            assert_eq!(out.packet.sequence_number, 10);
            assert_eq!(out.timestamp, ms(180));
        }
        other => panic!("unexpected {other:?}"),
    }
    match buffer.pop(&mut shared) {
        Some(RtpInputEvent::Packet(out)) => assert_eq!(out.packet.sequence_number, 11),
        other => panic!("unexpected {other:?}"),
    }
    assert!(buffer.pop(&mut shared).is_none());
    assert_eq!(buffer.peek_next_pts(&shared), None);
}

#[test]
fn a_gap_is_waited_for_until_the_window_is_full() {
    let mut shared = fixed_window();
    let mut buffer = RtpJitterBuffer::new();
    buffer.write_packet(packet(1), ms(0), &mut shared);
    assert!(matches!(buffer.force_pop(&mut shared), Some(RtpInputEvent::Packet(_))));
    buffer.write_packet(packet(3), ms(40), &mut shared);
    assert!(buffer.pop(&mut shared).is_none());
    buffer.write_packet(packet(4), ms(140), &mut shared);
    assert!(matches!(buffer.pop(&mut shared), Some(RtpInputEvent::LostPacket)));
    // the gap is behind: both packets leave at once
    assert_eq!(left(buffer.pop(&mut shared)), Some(3));
    assert_eq!(left(buffer.pop(&mut shared)), Some(4));
    assert!(buffer.pop(&mut shared).is_none());
}

fn left<H: std::fmt::Debug>(event: Option<RtpInputEvent<H>>) -> Option<u16> {
    match event {
        Some(RtpInputEvent::Packet(out)) => Some(out.packet.sequence_number),
        _ => None,
    }
}

#[test]
fn a_packet_behind_a_gap_is_returned() {
    let mut shared = RtpJitterBufferSharedContext::new(
        ms(80),
        RtpJitterBufferMode::RealTime,
        Instant::now(),
    );
    let mut buffer = RtpJitterBuffer::new();
    buffer.write_packet(packet(0), ms(0), &mut shared);
    buffer.write_packet(packet(2), ms(40), &mut shared);
    assert_eq!(left(buffer.force_pop(&mut shared)), Some(0));
    assert!(matches!(buffer.force_pop(&mut shared), Some(RtpInputEvent::LostPacket)));
    assert_eq!(left(buffer.force_pop(&mut shared)), Some(2));
    assert!(buffer.force_pop(&mut shared).is_none());
}

#[test]
fn a_lost_packet_counts_one_number_at_a_time() {
    let mut shared = fixed_window();
    let mut buffer = RtpJitterBuffer::new();
    buffer.write_packet(packet(1), ms(0), &mut shared);
    buffer.force_pop(&mut shared);
    buffer.write_packet(packet(4), ms(60), &mut shared);
    assert!(matches!(buffer.force_pop(&mut shared), Some(RtpInputEvent::LostPacket)));
    assert!(buffer.is_late(2));
    assert!(!buffer.is_late(3));
    assert!(matches!(buffer.force_pop(&mut shared), Some(RtpInputEvent::LostPacket)));
    assert!(buffer.is_late(3));
    assert_eq!(left(buffer.force_pop(&mut shared)), Some(4));
    assert!(buffer.force_pop(&mut shared).is_none());
}

#[test]
fn late_packets_are_dropped_and_not_counted() {
    let mut shared = fixed_window();
    let mut buffer = RtpJitterBuffer::new();
    buffer.write_packet(packet(7), ms(0), &mut shared);
    buffer.force_pop(&mut shared);
    buffer.take_stats();
    assert!(buffer.is_late(7));
    buffer.write_packet(packet(7), ms(0), &mut shared);
    assert_eq!(buffer.take_stats(), vec![]);
    assert!(buffer.force_pop(&mut shared).is_none());
}

#[test]
fn statistics_follow_the_packets() {
    let mut shared = fixed_window();
    let mut buffer = RtpJitterBuffer::new();
    buffer.write_packet(packet(7), ms(500), &mut shared);
    assert_eq!(
        buffer.take_stats(),
        vec![
            RtpJitterBufferStatsEvent::RtpPacketReceived,
            RtpJitterBufferStatsEvent::BytesReceived(3),
        ]
    );
    buffer.force_pop_at(&shared, ms(600));
    assert_eq!(
        buffer.take_stats(),
        vec![
            RtpJitterBufferStatsEvent::EffectiveBuffer(ms(80)),
            RtpJitterBufferStatsEvent::InputBufferSize(ms(180)),
        ]
    );
    buffer.write_packet(packet(9), ms(500), &mut shared);
    buffer.take_stats();
    buffer.force_pop_at(&shared, ms(600));
    assert_eq!(buffer.take_stats(), vec![RtpJitterBufferStatsEvent::RtpPacketLost]);
}

#[test]
fn in_real_time_a_gap_is_waited_for_until_decoding_has_to_start() {
    let mut shared =
        RtpJitterBufferSharedContext::new(ms(80), RtpJitterBufferMode::RealTime, Instant::now());
    let mut buffer = RtpJitterBuffer::new();
    buffer.write_packet(packet(1), Duration::from_secs(100), &mut shared);
    buffer.force_pop(&mut shared);
    buffer.write_packet(packet(3), Duration::from_secs(101), &mut shared);
    // due at 101.08 s, decoding takes 30 ms
    assert!(buffer.pop_at(&shared, ms(101_049)).is_none());
    assert!(matches!(
        buffer.pop_at(&shared, ms(101_050)),
        Some(RtpInputEvent::LostPacket)
    ));
}

#[test]
fn sender_reports_are_passed_on() {
    let mut buffer: RtpJitterBuffer<()> = RtpJitterBuffer::new();
    buffer.on_sender_report(5, 6);
    buffer.on_sender_report(7, 8);
    assert_eq!(
        buffer.take_sender_reports(),
        vec![
            SenderReport { ntp_time: 5, rtp_timestamp: 6 },
            SenderReport { ntp_time: 7, rtp_timestamp: 8 },
        ]
    );
    assert_eq!(buffer.take_sender_reports(), vec![]);
    assert_eq!(buffer.rollovers(), 0);
}
