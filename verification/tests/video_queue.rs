use std::sync::Arc;
use std::time::Instant;

use crossbeam_channel::{bounded, Sender};
use smelter_media::channel::{Attempt, TryRecvError};
use smelter_media::frame::{Frame, PipelineEvent};
use smelter_media::input_id::InputId;
use smelter_media::media::Resolution;
use smelter_media::shared_pts::SharedPts;
use smelter_media::time::{Duration, MAX_NANOS};
use smelter_media::video_input::{EnqueueError, VideoInputEvent, VideoQueueInput};
use smelter_media::video_queue::{
    frameset_is_due, push_now, Readiness, VideoInputOptions, VideoQueue,
};

fn ms(millis: u64) -> Duration {
    Duration::from_millis(millis)
}

fn frame(data: u32, pts: Duration) -> Frame<u32> {
    Frame { data: Arc::new(data), pts, resolution: Resolution { width: 2, height: 2 } }
}

fn id(name: &str) -> InputId {
    InputId { name: name.to_string() }
}

fn pass_millis(millis: u128) {
    let start = Instant::now();
    while start.elapsed().as_millis() < millis {}
}

struct Harness {
    shared: SharedPts,
    sender: Sender<PipelineEvent<Frame<u32>>>,
    input: VideoQueueInput<u32>,
}

fn harness(required: bool, offset: Option<Duration>) -> Harness {
    let mut shared = SharedPts::new();
    let slot = shared.add_slot(None);
    let (sender, receiver) = bounded(100);
    let input = VideoQueueInput::new(receiver, required, offset, slot, Instant::now());
    Harness { shared, sender, input }
}

impl Harness {
    fn send(&self, data: u32, pts: Duration) {
        self.sender.send(PipelineEvent::Data(frame(data, pts))).unwrap();
    }

    fn get(&mut self, pts: Duration, start: Duration) -> Option<(bool, Option<u32>, Duration)> {
        self.input.get_frame(pts, start, &mut self.shared).map(|event| match event.event {
            PipelineEvent::Data(frame) => (event.required, Some(*frame.data), frame.pts),
            PipelineEvent::EOS => (event.required, None, Duration::zero()),
        })
    }
}

#[test]
fn the_frame_closest_to_the_output_is_shown() {
    let mut h = harness(false, None);
    for (data, pts) in [(0, 0), (1, 20), (2, 40), (3, 60)] {
        h.send(data, ms(pts));
    }
    assert_eq!(h.get(ms(25), ms(0)), Some((false, Some(1), ms(20))));
    assert_eq!(h.get(ms(35), ms(0)), Some((false, Some(2), ms(40))));
    // of two frames at the same distance the older one is shown
    assert_eq!(h.get(ms(50), ms(0)), Some((false, Some(2), ms(40))));
    assert_eq!(h.get(ms(51), ms(0)), Some((false, Some(3), ms(60))));
}

#[test]
fn nothing_is_shown_before_the_first_timestamp() {
    let mut h = harness(true, None);
    h.send(7, ms(30));
    assert_eq!(h.get(ms(30), ms(0)), None);
    assert_eq!(h.get(ms(31), ms(0)), Some((true, Some(7), ms(30))));
}

#[test]
fn end_of_stream_is_handed_out_once() {
    let mut h = harness(false, None);
    h.send(0, ms(0));
    h.sender.send(PipelineEvent::EOS).unwrap();
    assert_eq!(h.get(ms(10), ms(0)), Some((false, Some(0), ms(0))));
    // the end of the stream insists on being delivered
    assert_eq!(h.get(ms(20), ms(0)), Some((true, None, ms(0))));
    assert_eq!(h.get(ms(30), ms(0)), None);
    assert_eq!(h.get(ms(40), ms(0)), None);
    assert_eq!(
        h.input.take_events(),
        vec![VideoInputEvent::Delivered, VideoInputEvent::Playing, VideoInputEvent::Eos]
    );
    assert_eq!(h.input.take_events(), vec![]);
}

#[test]
fn an_offset_moves_the_stream() {
    let mut h = harness(false, Some(ms(100)));
    h.send(0, ms(5_000));
    h.send(1, ms(5_020));
    assert_eq!(
        h.input.try_enqueue_frame(None, &mut h.shared),
        Err(EnqueueError::Empty)
    );
    // delivered is reported although nothing is taken before the start
    assert_eq!(h.input.take_events(), vec![VideoInputEvent::Delivered]);
    assert_eq!(h.get(ms(1_100), ms(1_000)), None);
    assert_eq!(h.get(ms(1_101), ms(1_000)), Some((false, Some(0), ms(1_100))));
    assert_eq!(h.get(ms(1_119), ms(1_000)), Some((false, Some(1), ms(1_120))));
}

#[test]
fn receiving_fails_in_each_way() {
    let mut h = harness(false, None);
    assert_eq!(h.input.try_enqueue_frame(None, &mut h.shared), Err(EnqueueError::Empty));
    let mut h = harness(false, Some(ms(1)));
    h.send(0, Duration { nanos: MAX_NANOS });
    assert_eq!(
        h.input.try_enqueue_frame(Some(ms(1)), &mut h.shared),
        Err(EnqueueError::PtsOutOfRange)
    );
    let Harness { mut shared, sender, mut input } = harness(false, None);
    drop(sender);
    assert_eq!(input.try_enqueue_frame(None, &mut shared), Err(EnqueueError::Disconnected));
}

#[test]
fn what_a_receive_brought_can_be_given_directly() {
    let mut h = harness(false, None);
    let accepted = h.input.accept(
        None,
        Attempt { waiting: true, received: Some(Ok(PipelineEvent::Data(frame(4, ms(1))))) },
        &mut h.shared,
    );
    assert_eq!(accepted, Ok(()));
    let refused = h.input.accept(
        None,
        Attempt { waiting: false, received: Some(Err(TryRecvError::Disconnected)) },
        &mut h.shared,
    );
    assert_eq!(refused, Err(EnqueueError::Disconnected));
    assert_eq!(h.input.hand_out(ms(2), ms(0), &h.shared).is_some(), true);
}

#[test]
fn an_input_is_ready_with_a_frame_or_after_the_end() {
    let mut h = harness(true, None);
    assert!(!h.input.try_enqueue_until_ready_for_pts(ms(10), ms(0), &mut h.shared));
    h.send(0, ms(9));
    assert!(!h.input.try_enqueue_until_ready_for_pts(ms(10), ms(0), &mut h.shared));
    h.send(1, ms(10));
    assert!(h.input.try_enqueue_until_ready_for_pts(ms(10), ms(0), &mut h.shared));
    assert!(!h.input.try_enqueue_until_ready_for_pts(ms(11), ms(0), &mut h.shared));
    h.sender.send(PipelineEvent::EOS).unwrap();
    // no frame follows, but the end is received
    assert!(h.input.try_enqueue_until_ready_for_pts(ms(11), ms(0), &mut h.shared));
    assert!(h.input.try_enqueue_until_ready_for_pts(ms(11), ms(0), &mut h.shared));
    assert!(h.input.required());
}

#[test]
fn stale_frames_are_dropped_before_the_start() {
    let mut h = harness(false, None);
    for (data, pts) in [(0, 0), (1, 20), (2, 40)] {
        h.send(data, ms(pts));
    }
    h.input.drop_stale_frames(ms(20), &mut h.shared);
    assert_eq!(h.get(ms(1), ms(0)), Some((false, Some(1), ms(20))));
    let mut h = harness(false, None);
    h.send(0, ms(0));
    h.send(1, Duration::from_secs(1_000));
    h.input.drop_old_frames_before_start(&mut h.shared);
    assert_eq!(h.get(ms(1), ms(0)), Some((false, Some(1), Duration::from_secs(1_000))));
}

#[test]
fn old_frames_are_dropped_up_to_the_closest() {
    let mut h = harness(false, None);
    for (data, pts) in [(0, 0), (1, 20), (2, 40)] {
        h.send(data, ms(pts));
    }
    h.input.try_enqueue_until_ready_for_pts(ms(40), ms(0), &mut h.shared);
    h.input.drop_old_frames(ms(21), ms(0), &mut h.shared);
    let event = h.input.hand_out(ms(21), ms(0), &h.shared).unwrap();
    assert!(matches!(event.event, PipelineEvent::Data(frame) if *frame.data == 1));
}

struct TwoInputs {
    shared: SharedPts,
    queue: VideoQueue<u32>,
    first: Sender<PipelineEvent<Frame<u32>>>,
    second: Sender<PipelineEvent<Frame<u32>>>,
}

fn two_inputs(ahead_of_time: bool, second_required: bool) -> TwoInputs {
    let mut shared = SharedPts::new();
    let mut queue = VideoQueue::new(Instant::now(), ahead_of_time);
    let (first, receiver) = bounded(100);
    let slot = shared.add_slot(None);
    let optional = VideoInputOptions { required: false, offset: None };
    queue.add_input(&id("first"), receiver, optional, slot, &shared);
    let (second, receiver) = bounded(100);
    let slot = shared.add_slot(None);
    let opts = VideoInputOptions { required: second_required, offset: None };
    queue.add_input(&id("second"), receiver, opts, slot, &shared);
    TwoInputs { shared, queue, first, second }
}

fn names(queue: &mut VideoQueue<u32>, shared: &mut SharedPts, pts: Duration) -> Vec<String> {
    queue
        .get_frames_batch(pts, ms(0), shared)
        .frames
        .into_iter()
        .map(|(id, _)| id.name)
        .collect()
}

#[test]
fn a_batch_holds_the_inputs_that_have_a_frame() {
    let TwoInputs { mut shared, mut queue, first, second } = two_inputs(true, true);
    first.send(PipelineEvent::Data(frame(1, ms(0)))).unwrap();
    let batch = queue.get_frames_batch(ms(10), ms(0), &mut shared);
    assert_eq!(batch.frames.len(), 1);
    assert!(batch.frames[0].0.same(&id("first")));
    assert!(!batch.required);
    assert_eq!(batch.pts, ms(10));
    second.send(PipelineEvent::Data(frame(2, ms(0)))).unwrap();
    let batch = queue.get_frames_batch(ms(20), ms(0), &mut shared);
    assert_eq!(batch.frames.len(), 2);
    assert!(batch.required);
    assert_eq!(
        queue.take_events().into_iter().map(|(id, event)| (id.name, event)).collect::<Vec<_>>(),
        vec![
            ("first".to_string(), VideoInputEvent::Delivered),
            ("first".to_string(), VideoInputEvent::Playing),
            ("second".to_string(), VideoInputEvent::Delivered),
            ("second".to_string(), VideoInputEvent::Playing),
        ]
    );
}

#[test]
fn inputs_are_replaced_and_removed_by_name() {
    let TwoInputs { mut shared, mut queue, first, second } = two_inputs(true, false);
    first.send(PipelineEvent::Data(frame(1, ms(0)))).unwrap();
    second.send(PipelineEvent::Data(frame(2, ms(0)))).unwrap();
    assert_eq!(names(&mut queue, &mut shared, ms(1)), vec!["first", "second"]);
    let (third, receiver) = bounded(100);
    let slot = shared.add_slot(None);
    let opts = VideoInputOptions { required: false, offset: None };
    queue.add_input(&id("first"), receiver, opts, slot, &shared);
    assert_eq!(names(&mut queue, &mut shared, ms(2)), vec!["second"]);
    third.send(PipelineEvent::Data(frame(3, ms(0)))).unwrap();
    assert_eq!(names(&mut queue, &mut shared, ms(3)), vec!["first", "second"]);
    queue.remove_input(&id("first"));
    queue.remove_input(&id("unknown"));
    assert_eq!(names(&mut queue, &mut shared, ms(4)), vec!["second"]);
}

#[test]
fn readiness_tells_required_inputs_apart() {
    let TwoInputs { mut shared, mut queue, first, second } = two_inputs(true, true);
    assert_eq!(queue.readiness(ms(5), ms(0), &mut shared), Readiness::Missing);
    second.send(PipelineEvent::Data(frame(2, ms(5)))).unwrap();
    assert_eq!(queue.readiness(ms(5), ms(0), &mut shared), Readiness::Required);
    first.send(PipelineEvent::Data(frame(1, ms(5)))).unwrap();
    assert_eq!(queue.readiness(ms(5), ms(0), &mut shared), Readiness::All);
}

#[test]
fn frames_are_pushed_when_ready_or_late() {
    let TwoInputs { mut shared, mut queue, first, second } = two_inputs(true, true);
    let future = Duration::from_secs(1_000);
    assert!(!queue.should_push_next_frameset(future, ms(0), &mut shared));
    second.send(PipelineEvent::Data(frame(2, future))).unwrap();
    // the optional input is missing, and the time has not come
    assert!(!queue.should_push_next_frameset(future, ms(0), &mut shared));
    // for a time that has passed the required input is enough
    pass_millis(5);
    assert!(queue.should_push_next_frameset(ms(0), ms(0), &mut shared));
    first.send(PipelineEvent::Data(frame(1, future))).unwrap();
    assert!(queue.should_push_next_frameset(future, ms(0), &mut shared));
}

#[test]
fn without_working_ahead_frames_wait_for_their_time() {
    let TwoInputs { mut shared, mut queue, first, second } = two_inputs(false, false);
    let future = Duration::from_secs(1_000);
    first.send(PipelineEvent::Data(frame(1, future))).unwrap();
    second.send(PipelineEvent::Data(frame(2, future))).unwrap();
    assert!(!queue.should_push_next_frameset(future, ms(0), &mut shared));
    assert!(queue.should_push_next_frameset(ms(0), ms(0), &mut shared));
}

#[test]
fn the_decision_to_push_depends_on_the_clock() {
    assert!(frameset_is_due(true, ms(10), Some(ms(0))));
    assert!(!frameset_is_due(false, ms(10), Some(ms(9))));
    assert!(frameset_is_due(false, ms(10), Some(ms(10))));
    // the sync point lies ahead
    assert!(frameset_is_due(true, ms(0), None));
    assert!(!frameset_is_due(false, ms(0), None));
    assert!(push_now(Readiness::All, ms(10), ms(0)));
    assert!(!push_now(Readiness::Required, ms(10), ms(10)));
    assert!(push_now(Readiness::Required, ms(10), ms(11)));
    assert!(!push_now(Readiness::Missing, ms(10), ms(1_000)));
}

#[test]
fn stale_frames_of_every_input_are_dropped() {
    let TwoInputs { mut shared, mut queue, first, second } = two_inputs(true, false);
    let future = Duration::from_secs(1_000);
    for sender in [&first, &second] {
        sender.send(PipelineEvent::Data(frame(1, ms(0)))).unwrap();
        sender.send(PipelineEvent::Data(frame(2, future))).unwrap();
    }
    pass_millis(2);
    queue.drop_old_frames_before_start(&mut shared);
    let batch = queue.get_frames_batch(ms(1), ms(0), &mut shared);
    for (_, event) in batch.frames {
        assert!(matches!(event, PipelineEvent::Data(frame) if *frame.data == 2));
    }
}

#[test]
fn an_input_whose_offset_lies_ahead_is_ready() {
    let mut h = harness(true, Some(ms(50)));
    assert!(h.input.try_enqueue_until_ready_for_pts(ms(59), ms(10), &mut h.shared));
    // at its start it has to have a frame
    assert!(!h.input.try_enqueue_until_ready_for_pts(ms(60), ms(10), &mut h.shared));
    assert_eq!(h.get(ms(59), ms(10)), None);
    h.send(7, ms(500));
    assert!(h.input.try_enqueue_until_ready_for_pts(ms(60), ms(10), &mut h.shared));
}

#[test]
fn a_required_input_that_starts_later_does_not_block_the_queue() {
    let mut shared = SharedPts::new();
    let slot = shared.add_slot(None);
    let (_sender, receiver) = bounded(1);
    let mut queue: VideoQueue<u32> = VideoQueue::new(Instant::now(), true);
    let opts = VideoInputOptions { required: true, offset: Some(ms(50)) };
    queue.add_input(&id("late"), receiver, opts, slot, &shared);
    assert!(queue.should_push_next_frameset(ms(40), ms(0), &mut shared));
    assert!(!queue.should_push_next_frameset(ms(50), ms(0), &mut shared));
}

#[test]
fn nothing_is_pushed_before_the_sync_point() {
    let mut shared = SharedPts::new();
    let ahead = Instant::now() + std::time::Duration::from_secs(3600);
    let mut queue: VideoQueue<u32> = VideoQueue::new(ahead, false);
    assert!(!queue.should_push_next_frameset(ms(0), ms(0), &mut shared));
    let mut queue: VideoQueue<u32> = VideoQueue::new(ahead, true);
    assert!(queue.should_push_next_frameset(ms(0), ms(0), &mut shared));
    let mut queue: VideoQueue<u32> = VideoQueue::new(Instant::now(), false);
    assert!(queue.should_push_next_frameset(ms(0), ms(0), &mut shared));
}

#[test]
fn inputs_may_share_their_first_timestamp() {
    let mut shared = SharedPts::new();
    let slot = shared.add_slot(None);
    let mut queue: VideoQueue<u32> = VideoQueue::new(Instant::now(), true);
    let opts = VideoInputOptions { required: true, offset: Some(ms(0)) };
    let (first, receiver) = bounded(5);
    queue.add_input(&id("first"), receiver, opts, slot, &shared);
    let (second, receiver) = bounded(5);
    queue.add_input(&id("second"), receiver, opts, slot, &shared);
    first.send(PipelineEvent::Data(frame(1, ms(100)))).unwrap();
    second.send(PipelineEvent::Data(frame(2, ms(130)))).unwrap();
    let output = queue.get_frames_batch(ms(30), ms(0), &mut shared);
    let shown: Vec<_> = output
        .frames
        .iter()
        .map(|(input, event)| match event {
            PipelineEvent::Data(frame) => (input.name.as_str(), *frame.data, frame.pts),
            PipelineEvent::EOS => panic!("unexpected end"),
        })
        .collect();
    // the timestamps of both count from the first frame of the one that was asked first
    assert_eq!(shown, vec![("first", 1, ms(0)), ("second", 2, ms(30))]);
    assert_eq!(shared.get(slot), Some(ms(100)));
}

#[test]
fn the_decision_to_push_tells_how_ready_the_inputs_are() {
    let mut shared = SharedPts::new();
    let mut queue: VideoQueue<u32> = VideoQueue::new(Instant::now(), true);
    let (sender, receiver) = bounded(5);
    let slot = shared.add_slot(None);
    let opts = VideoInputOptions { required: false, offset: None };
    queue.add_input(&id("slow"), receiver, opts, slot, &shared);
    pass_millis(20);
    assert_eq!(queue.decide_push(ms(10), ms(0), &mut shared), Some(Readiness::Required));
    assert_eq!(queue.decide_push(ms(3_600_000), ms(0), &mut shared), None);
    sender.send(PipelineEvent::Data(frame(1, ms(10)))).unwrap();
    assert_eq!(queue.decide_push(ms(10), ms(0), &mut shared), Some(Readiness::All));
}

#[test]
fn nothing_is_taken_from_an_input_with_an_offset_before_the_start() {
    let mut h = harness(false, Some(ms(0)));
    h.send(1, ms(0));
    h.sender.send(PipelineEvent::EOS).unwrap();
    for _ in 0..3 {
        h.input.drop_old_frames_before_start(&mut h.shared);
    }
    assert_eq!(h.input.take_events(), vec![VideoInputEvent::Delivered]);
    assert_eq!(h.sender.len(), 2);
    assert_eq!(h.get(ms(10), ms(5)), Some((false, Some(1), ms(5))));
}

#[test]
fn a_start_is_accepted_where_every_offset_fits() {
    let mut shared = SharedPts::new();
    let slot = shared.add_slot(None);
    let mut queue: VideoQueue<u32> = VideoQueue::new(Instant::now(), true);
    let most = Duration { nanos: MAX_NANOS };
    assert!(queue.accepts_start(most));
    let (_sender, receiver) = bounded(1);
    let opts = VideoInputOptions { required: true, offset: None };
    queue.add_input(&id("free"), receiver, opts, slot, &shared);
    assert!(queue.accepts_start(most));
    let (_sender, receiver) = bounded(1);
    let opts = VideoInputOptions { required: true, offset: Some(Duration { nanos: 1 }) };
    queue.add_input(&id("late"), receiver, opts, slot, &shared);
    assert!(queue.accepts_start(Duration { nanos: MAX_NANOS - 1 }));
    assert!(!queue.accepts_start(most));
    queue.remove_input(&id("late"));
    assert!(queue.accepts_start(most));
}
