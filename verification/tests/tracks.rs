use std::sync::Arc;

use crossbeam_channel::{bounded, Sender};
use smelter_media::channel::TrySendError;
use smelter_media::frame::Frame;
use smelter_media::media::Resolution;
use smelter_media::queue_input::{
    InnerQueueInput, InputSideChannel, Parts, PauseState, PendingTrack, QueueInputOptions,
    QueueTrackOffset, QueueTrackOptions, QueueTrackTiming, SideChannelPlan, TrackEndCondition,
    TrackStart, Wake, MAX_PENDING_TRACKS,
};
use smelter_media::shared_pts::SharedPts;
use smelter_media::side_channel::{QueueItem, QueueSender, SideChannelLane};
use smelter_media::time::{Duration, MAX_NANOS};

type Input = InnerQueueInput<u32, u32, Frame<u32>, Frame<u32>>;

fn ms(millis: u64) -> Duration {
    Duration::from_millis(millis)
}

fn frame(data: u32, pts: Duration) -> Frame<u32> {
    Frame { data: Arc::new(data), pts, resolution: Resolution { width: 2, height: 2 } }
}

fn data(items: &[Frame<u32>]) -> Vec<u32> {
    items.iter().map(|item| *item.data).collect()
}

#[test]
fn only_the_track_at_the_head_is_live() {
    let mut lane = SideChannelLane::new();
    let one = lane.register("one");
    let two = lane.register("two");
    assert_eq!((one, two, lane.registered()), (0, 1, 2));
    assert!(lane.forward(one, &frame(1, ms(0))));
    assert!(!lane.forward(two, &frame(2, ms(0))));
    assert_eq!(lane.head_channel(), Some(&"one"));
    let flush = lane.close(one);
    assert!(flush.finished.is_empty());
    assert_eq!(data(&flush.head_items), vec![2]);
    assert_eq!(lane.head_channel(), Some(&"two"));
    assert!(lane.forward(two, &frame(3, ms(0))));
}

#[test]
fn tracks_that_are_done_early_are_flushed_in_order() {
    let mut lane = SideChannelLane::new();
    let one = lane.register("one");
    let two = lane.register("two");
    let three = lane.register("three");
    let four = lane.register("four");
    lane.forward(three, &frame(30, ms(0)));
    lane.forward(two, &frame(20, ms(0)));
    lane.forward(two, &frame(21, ms(0)));
    lane.forward(four, &frame(40, ms(0)));
    lane.close(two);
    lane.close(three);
    let flush = lane.close(one);
    let finished: Vec<_> =
        flush.finished.iter().map(|(channel, items)| (*channel, data(items))).collect();
    assert_eq!(finished, vec![("two", vec![20, 21]), ("three", vec![30])]);
    assert_eq!(data(&flush.head_items), vec![40]);
    assert_eq!(lane.head_channel(), Some(&"four"));
    let flush = lane.close(four);
    assert!(flush.finished.is_empty() && flush.head_items.is_empty());
    assert_eq!(lane.head_channel(), None);
    // the next track is at the head at once
    let five = lane.register("five");
    assert!(lane.forward(five, &frame(50, ms(0))));
}

#[test]
fn abandoned_tracks_are_never_delivered() {
    let mut lane = SideChannelLane::new();
    let one = lane.register("one");
    let two = lane.register("two");
    lane.forward(two, &frame(2, ms(0)));
    lane.abandon_queued();
    assert!(!lane.forward(two, &frame(3, ms(0))));
    let three = lane.register("three");
    lane.forward(three, &frame(4, ms(0)));
    let flush = lane.close(one);
    assert!(flush.finished.is_empty());
    assert_eq!(data(&flush.head_items), vec![4]);
    assert_eq!(lane.head_channel(), Some(&"three"));
    assert!(!lane.forward(two, &frame(5, ms(0))));
}

#[test]
fn frames_are_clipped_and_moved() {
    assert!(frame(1, ms(99)).clip(ms(100)).is_some());
    assert!(frame(1, ms(100)).clip(ms(100)).is_none());
    let mut item = frame(1, ms(5));
    item.shift_pts(ms(7));
    assert_eq!(item.pts, ms(12));
    assert_eq!(*QueueItem::share(&item).data, 1);
}

#[test]
fn a_sender_prepares_items_for_the_track_and_the_side_channel() {
    let mut lane = Some(SideChannelLane::new());
    let seq = lane.as_mut().unwrap().register("one");
    let (sender, receiver) = bounded(1);
    let mut sender = QueueSender::new(sender, ms(10), Some(ms(100)), Some(seq));
    let prepared = sender.prepare(frame(1, ms(20)), &mut lane);
    assert!(prepared.live);
    assert_eq!(prepared.item.as_ref().unwrap().pts, ms(30));
    assert!(sender.try_send(prepared.item).is_ok());
    assert_eq!(receiver.try_recv().unwrap().pts, ms(30));
    let dropped = sender.prepare(frame(2, ms(100)), &mut lane);
    assert!(dropped.item.is_none() && !dropped.live);
    assert!(sender.try_send(dropped.item).is_ok());
    assert!(receiver.try_recv().is_err());
    assert!(sender.close(&mut lane).is_some());
    assert_eq!(lane.unwrap().head_channel(), None);
}

#[test]
fn an_item_that_is_not_taken_comes_back() {
    let (sender, receiver) = bounded(1);
    let mut sender: QueueSender<Frame<u32>> = QueueSender::new(sender, ms(0), None, None);
    let mut no_lane: Option<SideChannelLane<(), Frame<u32>>> = None;
    let first = sender.prepare(frame(1, ms(0)), &mut no_lane);
    assert!(!first.live);
    assert!(sender.try_send(first.item).is_ok());
    match sender.try_send(Some(frame(2, ms(0)))) {
        Err(TrySendError::Full(back)) => assert_eq!(*back.data, 2),
        other => panic!("unexpected {other:?}"),
    }
    drop(receiver);
    match sender.try_send(Some(frame(3, ms(0)))) {
        Err(TrySendError::Disconnected(back)) => assert_eq!(*back.data, 3),
        other => panic!("unexpected {other:?}"),
    }
    assert!(sender.close(&mut no_lane).is_none());
}

fn input(shared: &mut SharedPts, delay: Duration) -> (Input, Sender<PendingTrack<u32, u32>>) {
    InnerQueueInput::new(true, delay, true, false, shared)
}

fn media(offset: QueueTrackOffset) -> QueueTrackOptions {
    QueueTrackOptions { video: true, audio: true, offset }
}

#[test]
fn a_track_needs_video_or_audio() {
    let mut shared = SharedPts::new();
    let (mut input, _) = input(&mut shared, ms(0));
    let opts =
        QueueTrackOptions { video: false, audio: false, offset: QueueTrackOffset::Unset };
    assert!(input.queue_new_track_inner(opts, None, &mut shared).is_none());
    let timing = Some(QueueTrackTiming::Continuation(ms(1)));
    assert!(input.queue_new_track_inner(opts, timing, &mut shared).is_none());
}

#[test]
fn a_track_is_set_up_from_its_options() {
    let mut shared = SharedPts::new();
    let (mut input, _) = input(&mut shared, ms(7));
    let track = input
        .queue_new_track_inner(media(QueueTrackOffset::Pts(ms(50))), None, &mut shared)
        .unwrap();
    assert_eq!(track.track_offset.get(&shared), Some(ms(50)));
    assert_eq!(track.end_condition, TrackEndCondition::AllTracks);
    let video = track.video.unwrap();
    assert!(video.required);
    assert_eq!(
        (video.offset_from_start, video.duration, video.delay, video.lane),
        (None, None, ms(7), Some(0))
    );
    assert_eq!(track.audio.unwrap().lane, None);
    let track = input
        .queue_new_track_inner(media(QueueTrackOffset::FromStart(ms(60))), None, &mut shared)
        .unwrap();
    assert_eq!(track.track_offset.get(&shared), None);
    assert_eq!(track.video.unwrap().offset_from_start, Some(ms(60)));
    assert_eq!(track.video.unwrap().lane, Some(1));
}

#[test]
fn a_continuation_starts_where_the_track_before_it_ends() {
    let mut shared = SharedPts::new();
    let (mut input, _) = input(&mut shared, ms(10));
    let first = input
        .queue_new_track_inner(
            media(QueueTrackOffset::Unset),
            Some(QueueTrackTiming::Finite(ms(100))),
            &mut shared,
        )
        .unwrap();
    let second = input
        .queue_new_track_inner(
            media(QueueTrackOffset::Unset),
            Some(QueueTrackTiming::Continuation(ms(30))),
            &mut shared,
        )
        .unwrap();
    first.track_offset.get_or_init(ms(1_000), &mut shared);
    assert_eq!(second.track_offset.get(&shared), Some(ms(1_100)));
    match (first.end_condition, second.end_condition) {
        (TrackEndCondition::Pts(one), TrackEndCondition::Pts(two)) => {
            assert_eq!(one.get(&shared), Some(ms(1_110)));
            assert_eq!(two.get(&shared), Some(ms(1_140)));
        }
        other => panic!("unexpected {other:?}"),
    }
    assert_eq!(second.video.unwrap().duration, Some(ms(30)));
}

fn pending(track: u32, setup: smelter_media::queue_input::NewTrack) -> PendingTrack<u32, u32> {
    PendingTrack {
        video: Some(track),
        audio: Some(track),
        track_offset: setup.track_offset,
        end_condition: setup.end_condition,
    }
}

#[test]
fn the_next_track_waits_for_both_parts() {
    let mut shared = SharedPts::new();
    let (mut input, sender) = input(&mut shared, ms(0));
    for track in 0..2 {
        let setup = input
            .queue_new_track_inner(media(QueueTrackOffset::Unset), None, &mut shared)
            .unwrap();
        sender.send(pending(track, setup)).unwrap();
    }
    let start = |input: &mut Input, video, audio| {
        input.maybe_start_next_track(ms(5), None, video, audio, &shared)
    };
    // there is no current track: its parts count as ended
    assert_eq!(start(&mut input, false, false), TrackStart::Running);
    assert_eq!(start(&mut input, true, false), TrackStart::NothingPending);
    assert_eq!(start(&mut input, false, true), TrackStart::NothingPending);
    assert_eq!(start(&mut input, true, true), TrackStart::Running);
    assert_eq!(start(&mut input, true, true), TrackStart::NothingPending);
}

#[test]
fn a_timed_track_ends_at_its_time() {
    let mut shared = SharedPts::new();
    let (mut input, sender) = input(&mut shared, ms(10));
    let setup = input
        .queue_new_track_inner(
            media(QueueTrackOffset::Pts(ms(1_000))),
            Some(QueueTrackTiming::Finite(ms(100))),
            &mut shared,
        )
        .unwrap();
    sender.send(pending(0, setup)).unwrap();
    assert_eq!(input.abort_old_track(ms(0), None), TrackStart::Running);
    sender.send(pending(1, setup)).unwrap();
    assert_eq!(
        input.maybe_start_next_track(ms(1_109), None, true, true, &shared),
        TrackStart::NothingPending
    );
    assert_eq!(
        input.maybe_start_next_track(ms(1_110), None, false, false, &shared),
        TrackStart::Running
    );
}

#[test]
fn a_finite_track_discards_the_tracks_that_wait() {
    let mut shared = SharedPts::new();
    let (mut input, sender) = input(&mut shared, ms(0));
    let setup = input
        .queue_new_track_inner(media(QueueTrackOffset::Unset), None, &mut shared)
        .unwrap();
    for track in 0..MAX_PENDING_TRACKS as u32 {
        sender.try_send(pending(track, setup)).unwrap();
    }
    assert!(sender.try_send(pending(9, setup)).is_err());
    input
        .queue_new_track_inner(
            media(QueueTrackOffset::Unset),
            Some(QueueTrackTiming::Finite(ms(1))),
            &mut shared,
        )
        .unwrap();
    assert_eq!(input.replace_track(ms(0), None), TrackStart::NothingPending);
}

#[test]
fn a_track_that_starts_while_paused_is_woken_and_paused() {
    let mut shared = SharedPts::new();
    let (mut input, sender) = input(&mut shared, ms(0));
    let setup = input
        .queue_new_track_inner(media(QueueTrackOffset::Unset), None, &mut shared)
        .unwrap();
    assert_eq!(input.pause(ms(5)), Parts { video: false, audio: false });
    sender.send(pending(0, setup)).unwrap();
    sender.send(pending(1, setup)).unwrap();
    assert_eq!(
        input.replace_track(ms(7), None),
        TrackStart::Paused { wake_video: Some(Wake::DropOld), audio: true }
    );
    assert_eq!(
        input.replace_track(ms(8), Some(ms(2))),
        TrackStart::Paused {
            wake_video: Some(Wake::ReadyFor { pts: ms(8), start_pts: ms(2) }),
            audio: true
        }
    );
    // the pause counts from the moment the track was replaced
    setup.track_offset.get_or_init(ms(100), &mut shared);
    assert_eq!(input.resume(ms(20), &mut shared), Parts { video: true, audio: true });
    assert_eq!(setup.track_offset.get(&shared), Some(ms(112)));
}

#[test]
fn resuming_moves_a_track_that_has_started() {
    let mut shared = SharedPts::new();
    let (mut input, sender) = input(&mut shared, ms(0));
    let setup = input
        .queue_new_track_inner(media(QueueTrackOffset::Pts(ms(40))), None, &mut shared)
        .unwrap();
    sender.send(pending(0, setup)).unwrap();
    input.replace_track(ms(0), None);
    let both = Parts { video: true, audio: true };
    let none = Parts { video: false, audio: false };
    assert_eq!(input.resume(ms(10), &mut shared), none);
    assert_eq!(input.pause(ms(10)), both);
    assert_eq!(input.pause(ms(15)), none);
    assert_eq!(input.resume(ms(30), &mut shared), both);
    assert_eq!(setup.track_offset.get(&shared), Some(ms(60)));
}

#[test]
fn pauses_are_measured() {
    let mut pause = PauseState::new();
    assert!(!pause.is_paused());
    assert_eq!(pause.resume(ms(5)), None);
    pause.reset(ms(1));
    assert!(!pause.is_paused());
    pause.pause(ms(5));
    pause.reset(ms(7));
    assert_eq!(pause.resume(ms(10)), Some(ms(3)));
    pause.pause(ms(5));
    assert_eq!(pause.resume(ms(4)), Some(ms(0)));
}

#[test]
fn side_channels_are_told_apart() {
    let disabled: InputSideChannel<u8> = InputSideChannel::default();
    let off: InputSideChannel<u8> = InputSideChannel::from(false);
    let socket: InputSideChannel<u8> = InputSideChannel::from(true);
    let (native, receiver) = InputSideChannel::<u8>::native(2);
    let (other, _other_receiver) = InputSideChannel::<u8>::native(2);
    assert!(disabled.same(&off));
    assert!(!disabled.same(&socket));
    assert!(socket.same(&InputSideChannel::UnixSocket));
    assert!(!socket.same(&native));
    assert!(native.same(&native));
    assert!(!native.same(&other));
    assert!(native == native.clone() && native != other && native != socket);
    assert!(socket.clone() == socket && disabled.clone() == off && disabled != socket);
    assert!(matches!(disabled.plan(true), SideChannelPlan::Absent));
    assert!(matches!(off.plan(false), SideChannelPlan::Absent));
    assert!(matches!(InputSideChannel::<u8>::UnixSocket.plan(false), SideChannelPlan::Absent));
    assert!(matches!(socket.plan(true), SideChannelPlan::Socket));
    match native.plan(false) {
        SideChannelPlan::Native(sender) => {
            sender.try_send(1).unwrap();
            sender.try_send(2).unwrap();
            assert!(sender.try_send(3).is_err());
        }
        _ => panic!("no channel"),
    }
    assert_eq!(receiver.try_recv().unwrap(), 1);
}

#[test]
fn inputs_are_optional_and_have_no_side_channel_by_default() {
    let opts: QueueInputOptions<u8, u8> = QueueInputOptions::default();
    assert!(!opts.required);
    assert!(matches!(opts.audio_side_channel, InputSideChannel::Disabled));
    assert!(matches!(opts.video_side_channel, InputSideChannel::Disabled));
    assert_eq!(opts.side_channel_delay, ms(0));
}

#[test]
fn items_that_cannot_be_moved_are_not_accepted() {
    let end = Duration { nanos: MAX_NANOS };
    let (sender, _receiver) = bounded(1);
    let open: QueueSender<Frame<u32>> = QueueSender::new(sender.clone(), ms(10), None, None);
    assert!(open.accepts(&frame(1, ms(5))));
    assert!(!open.accepts(&frame(1, end)));
    // an item past the end of the track is dropped before it is moved
    let timed: QueueSender<Frame<u32>> = QueueSender::new(sender, ms(10), Some(ms(100)), None);
    assert!(timed.accepts(&frame(1, ms(99))));
    assert!(timed.accepts(&frame(1, end)));
    let mut no_lane: Option<SideChannelLane<(), Frame<u32>>> = None;
    assert!(timed.prepare(frame(1, end), &mut no_lane).item.is_none());
}

#[test]
fn times_that_cannot_be_told_are_noticed() {
    let end = Duration { nanos: MAX_NANOS };
    let mut shared = SharedPts::new();
    let (mut input, sender) = input(&mut shared, ms(0));
    assert!(!input.accepts(Some(QueueTrackTiming::Continuation(ms(1)))));
    let timing = Some(QueueTrackTiming::Finite(ms(50)));
    assert!(input.accepts(timing));
    let setup = input
        .queue_new_track_inner(media(QueueTrackOffset::Pts(ms(40))), timing, &mut shared)
        .unwrap();
    assert!(input.accepts(Some(QueueTrackTiming::Continuation(ms(1)))));
    assert!(!input.accepts(Some(QueueTrackTiming::Continuation(end))));
    sender.send(pending(0, setup)).unwrap();
    input.replace_track(ms(0), None);
    assert!(input.end_can_be_told(&shared));
    assert!(input.can_resume(end, &shared));
    input.pause(ms(0));
    assert!(input.can_resume(ms(10), &shared));
    assert!(!input.can_resume(end, &shared));
    assert!(setup.track_offset.can_be_told(&shared));
    setup.track_offset.map_add(Duration { nanos: MAX_NANOS - 50_000_000 }, &mut shared);
    assert!(!input.end_can_be_told(&shared));
}

#[test]
fn parts_and_delivery_orders_are_reachable() {
    let mut shared = SharedPts::new();
    let (mut input, sender) = input(&mut shared, ms(0));
    assert!(input.video().is_none() && input.audio().is_none());
    assert!(input.video_lane().is_some() && input.audio_lane().is_none());
    let setup = input
        .queue_new_track_inner(media(QueueTrackOffset::Pts(ms(40))), None, &mut shared)
        .unwrap();
    sender.send(pending(3, setup)).unwrap();
    input.replace_track(ms(0), None);
    *input.video() = Some(8);
    assert_eq!((*input.video(), *input.audio()), (Some(8), Some(3)));
    assert_eq!(input.video_lane().as_ref().unwrap().registered(), 1);
}

#[test]
fn every_item_is_sent_once_in_the_order_of_the_tracks() {
    // (track, Some(item)) arrives, (track, None) is done
    let steps = [
        (1, Some(10)), (0, Some(0)), (2, Some(20)), (1, Some(11)), (1, None), (0, Some(1)),
        (3, Some(30)), (0, None), (2, Some(21)), (3, None), (2, Some(22)), (2, None),
    ];
    let mut lane = SideChannelLane::new();
    for channel in 0..4u64 {
        assert_eq!(lane.register(channel), channel);
    }
    let mut sent = Vec::new();
    for (track, step) in steps {
        match step {
            Some(data) => {
                if lane.forward(track, &frame(data, ms(0))) {
                    sent.push((*lane.head_channel().unwrap(), data));
                }
            }
            None => {
                let flush = lane.close(track);
                for (channel, items) in &flush.finished {
                    sent.extend(data(items).into_iter().map(|data| (*channel, data)));
                }
                let head = lane.head_channel().copied();
                sent.extend(data(&flush.head_items).into_iter().map(|data| (head.unwrap(), data)));
            }
        }
    }
    let expected =
        vec![(0, 0), (0, 1), (1, 10), (1, 11), (2, 20), (2, 21), (2, 22), (3, 30)];
    assert_eq!(sent, expected);
}

#[test]
fn a_copy_of_the_options_says_the_same() {
    let (video, _video) = InputSideChannel::<u8>::native(1);
    let (audio, _audio) = InputSideChannel::<u16>::native(1);
    let options = QueueInputOptions {
        required: true,
        audio_side_channel: audio,
        video_side_channel: video,
        side_channel_delay: ms(5),
    };
    let copy = options.clone();
    assert!(copy == options && copy.same(&options));
    assert!(QueueInputOptions { required: false, ..options.clone() } != options);
    assert!(QueueInputOptions { side_channel_delay: ms(6), ..options.clone() } != options);
    let (other, _other) = InputSideChannel::<u8>::native(1);
    assert!(QueueInputOptions { video_side_channel: other, ..options.clone() } != options);
    let socket = InputSideChannel::UnixSocket;
    assert!(QueueInputOptions { audio_side_channel: socket, ..options.clone() } != options);
}

#[test]
fn as_many_tracks_wait_as_there_is_room_for() {
    let mut shared = SharedPts::new();
    let (mut input, sender) = input(&mut shared, ms(0));
    let setup = input
        .queue_new_track_inner(media(QueueTrackOffset::Unset), None, &mut shared)
        .unwrap();
    for track in 0..MAX_PENDING_TRACKS as u32 {
        assert!(sender.try_send(pending(track, setup)).is_ok());
    }
    assert!(sender.try_send(pending(9, setup)).is_err());
    assert_eq!(input.abort_old_track(ms(0), None), TrackStart::Running);
    assert_eq!(*input.video(), Some(0));
    assert!(sender.try_send(pending(9, setup)).is_ok());
}
