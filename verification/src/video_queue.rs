//! The queue that holds the frames of every video input until the compositor asks for them.

use crate::clock::{told_elapsed, told_passed, Clock};
use crate::frame::{Frame, PipelineEvent};
use crate::input_id::InputId;
use crate::shared_pts::SharedPts;
use crate::time::Duration;
use crate::video_input::{
    lemma_asking_keeps_settings, lemma_first_pts_is_kept, lemma_follows_itself,
    lemma_follows_through, lemma_model_reads_own_slot, lemma_no_stale_frame_is_left,
    lemma_ready_has_frame, lemma_served_input_is_ready, FrameEvent, VideoInputEvent,
    VideoInputModel, VideoQueueInput,
};
use std::time::Instant;
use vstd::prelude::*;

verus! {

/// How an input of the queue is configured.
#[derive(Debug, Clone, Copy)]
pub struct VideoInputOptions {
    /// Output pictures wait for the input.
    pub required: bool,
    /// When the input starts, counted from the start of the queue. `None`: as soon as it delivers.
    pub offset: Option<Duration>,
}

/// An input and its name.
#[verifier::reject_recursive_types(D)]
pub struct VideoEntry<D> {
    pub id: InputId,
    pub input: VideoQueueInput<D>,
}

/// What the inputs hand out for one output picture.
pub struct QueueVideoOutput<D> {
    /// Each input that has something to hand out, with that, in the order of the inputs.
    pub frames: Vec<(InputId, PipelineEvent<Frame<D>>)>,
    /// One of them insists on its frame.
    pub required: bool,
    pub pts: Duration,
}

/// Which inputs can serve an output picture.
#[derive(Debug, Clone, Copy, PartialEq, Eq, Structural)]
pub enum Readiness {
    /// All of them.
    All,
    /// Not all, but all that are required.
    Required,
    /// A required input cannot.
    Missing,
}

impl Readiness {
    pub open spec fn is_all(self) -> bool {
        self == Readiness::All
    }

    pub open spec fn is_required(self) -> bool {
        self == Readiness::Required
    }
}

/// The names and events of the inputs that have one.
pub open spec fn handed_out_by<D>(ids: Seq<InputId>, events: Seq<Option<FrameEvent<D>>>) -> Seq<
    (InputId, PipelineEvent<Frame<D>>),
>
    decreases events.len(),
{
    if events.len() == 0 {
        Seq::empty()
    } else {
        let before = handed_out_by(ids.drop_last(), events.drop_last());
        match events.last() {
            Some(event) => before.push((ids.last(), event.event)),
            None => before,
        }
    }
}

/// One of the events insists on its frame.
pub open spec fn one_required<D>(events: Seq<Option<FrameEvent<D>>>) -> bool {
    exists|i: int| 0 <= i < events.len() && (#[trigger] events[i]) is Some && events[i]->0.required
}

proof fn lemma_one_required_push<D>(
    events: Seq<Option<FrameEvent<D>>>,
    event: Option<FrameEvent<D>>,
)
    ensures
        one_required(events.push(event)) == (one_required(events) || (event is Some
            && event->0.required)),
{
    let more = events.push(event);
    if one_required(events) {
        let i = choose|i: int|
            0 <= i < events.len() && (#[trigger] events[i]) is Some && events[i]->0.required;
        assert(more[i] == events[i]);
    }
    if event is Some && event->0.required {
        assert(more[events.len() as int] == event);
    }
    if one_required(more) {
        let i = choose|i: int|
            0 <= i < more.len() && (#[trigger] more[i]) is Some && more[i]->0.required;
        if i < events.len() {
            assert(events[i] == more[i]);
        }
    }
}

/// The queue of all video inputs.
#[verifier::reject_recursive_types(D)]
pub struct VideoQueue<D> {
    clock: Clock,
    inputs: Vec<VideoEntry<D>>,
    ahead_of_time_processing: bool,
}

impl<D> VideoQueue<D> {
    /// The inputs with their names, in the order in which the names were first added.
    pub closed spec fn entries(self) -> Seq<VideoEntry<D>> {
        self.inputs@
    }

    pub open spec fn ids(self) -> Seq<InputId> {
        self.entries().map_values(|entry: VideoEntry<D>| entry.id)
    }

    /// Pictures are produced as soon as they can be, without waiting for their time.
    pub closed spec fn ahead_of_time(self) -> bool {
        self.ahead_of_time_processing
    }

    /// The moment from which timestamps count.
    pub closed spec fn sync_point(self) -> Instant {
        self.clock.since()
    }

    /// Every reading of the clock that counts from that moment.
    pub closed spec fn readings(self) -> Seq<Option<Duration>> {
        self.clock.readings()
    }

    /// No name occurs twice, and the slot of every input is in the table. Inputs may share a slot.
    pub open spec fn wf(self, shared: Seq<Option<Duration>>) -> bool {
        &&& forall|i: int, j: int|
            0 <= i < j < self.entries().len() ==> #[trigger] self.entries()[i].id@
                != #[trigger] self.entries()[j].id@
        &&& forall|i: int|
            0 <= i < self.entries().len() ==> 0 <= (
            #[trigger] self.entries()[i]).input.slot() < shared.len()
    }

    /// Every offset, counted from `queue_start_pts`, is representable.
    pub open spec fn offsets_fit(self, queue_start_pts: Duration) -> bool {
        forall|i: int|
            0 <= i < self.entries().len() ==> (#[trigger] self.entries()[i]).input.offset_fits(
                queue_start_pts,
            )
    }

    /// The slot belongs to one of the inputs.
    pub open spec fn owns(self, slot: int) -> bool {
        exists|i: int| 0 <= i < self.entries().len() && (#[trigger] self.entries()[i]).input.slot() == slot
    }

    /// One of the inputs has this name.
    pub open spec fn has(self, id: Seq<char>) -> bool {
        exists|i: int| 0 <= i < self.entries().len() && (#[trigger] self.entries()[i]).id@ == id
    }

    /// What the first `count` inputs have reported, each with the name of its input.
    pub open spec fn reported(self, shared: Seq<Option<Duration>>, count: int) -> Seq<
        (InputId, VideoInputEvent),
    >
        decreases count,
    {
        if count <= 0 {
            Seq::empty()
        } else {
            let entry = self.entries()[count - 1];
            self.reported(shared, count - 1) + entry.input.model(shared).events.map_values(
                |event: VideoInputEvent| (entry.id, event),
            )
        }
    }

    /// The inputs with `added` in the place of the one of its name, or last if there is none.
    pub open spec fn with_entry(self, added: VideoEntry<D>) -> Seq<VideoEntry<D>> {
        if self.has(added.id@) {
            self.entries().map_values(
                |entry: VideoEntry<D>|
                    if entry.id@ == added.id@ {
                        added
                    } else {
                        entry
                    },
            )
        } else {
            self.entries().push(added)
        }
    }

    /// The same names on the same slots, and a table that differs in those slots at most.
    pub open spec fn continues(
        self,
        before: Self,
        shared_before: Seq<Option<Duration>>,
        shared: Seq<Option<Duration>>,
    ) -> bool {
        &&& self.ahead_of_time() == before.ahead_of_time()
        &&& self.sync_point() == before.sync_point()
        &&& self.entries().len() == before.entries().len()
        &&& forall|i: int|
            0 <= i < self.entries().len() ==> {
                &&& (#[trigger] self.entries()[i]).id == before.entries()[i].id
                &&& self.entries()[i].input.follows(before.entries()[i].input)
                &&& self.entries()[i].input.offset() == before.entries()[i].input.offset()
            }
        &&& shared.len() == shared_before.len()
        &&& forall|slot: int|
            0 <= slot < shared.len() && !before.owns(slot) ==> #[trigger] shared[slot]
                == shared_before[slot]
    }

    /// The same inputs, seen at the same pace: only the record of the clock may differ.
    pub open spec fn same_inputs(self, other: Self) -> bool {
        &&& self.entries() == other.entries()
        &&& self.ahead_of_time() == other.ahead_of_time()
        &&& self.sync_point() == other.sync_point()
    }

    /// `tables` holds the table as each input in turn finds it and, last, as the last one leaves
    /// it. An input writes to its own slot and to no other.
    pub open spec fn handed_on(
        self,
        shared_before: Seq<Option<Duration>>,
        shared: Seq<Option<Duration>>,
        tables: Seq<Seq<Option<Duration>>>,
    ) -> bool {
        &&& tables.len() == self.entries().len() + 1
        &&& tables[0] == shared_before
        &&& tables.last() == shared
        &&& forall|i: int|
            0 <= i < self.entries().len() ==> #[trigger] self.writes_own_slot(tables, i)
    }

    /// Input `i` leaves the table as it found it, but for its own slot.
    pub open spec fn writes_own_slot(self, tables: Seq<Seq<Option<Duration>>>, i: int) -> bool {
        let slot = self.entries()[i].input.slot();
        tables[i + 1] == tables[i].update(slot, tables[i + 1][slot])
    }

    /// Input `i` handed out `event` for `pts`, and is now what it is in `self`.
    pub open spec fn took_frame(
        self,
        before: Self,
        tables: Seq<Seq<Option<Duration>>>,
        i: int,
        pts: Duration,
        queue_start_pts: Duration,
        event: Option<FrameEvent<D>>,
    ) -> bool {
        &&& self.entries()[i].input.readings() == before.entries()[i].input.readings()
        &&& exists|fill: int| #[trigger]
            before.entries()[i].input.model(tables[i]).frame_taken(
                pts,
                queue_start_pts,
                self.entries()[i].input.attempts_since(before.entries()[i].input),
                fill,
                self.entries()[i].input.model(tables[i + 1]),
                event,
            )
    }

    /// Input `i` was asked whether it can serve `pts`, said `ready`, and is now what it is in
    /// `self`.
    pub open spec fn asked(
        self,
        before: Self,
        tables: Seq<Seq<Option<Duration>>>,
        i: int,
        pts: Duration,
        queue_start_pts: Duration,
        ready: bool,
    ) -> bool {
        &&& self.entries()[i].input.readings() == before.entries()[i].input.readings()
        &&& before.entries()[i].input.model(tables[i]).readied(
            pts,
            queue_start_pts,
            self.entries()[i].input.attempts_since(before.entries()[i].input),
            self.entries()[i].input.model(tables[i + 1]),
            ready,
        )
    }

    /// Input `i` was left alone.
    pub open spec fn untouched(
        self,
        before: Self,
        tables: Seq<Seq<Option<Duration>>>,
        i: int,
    ) -> bool {
        self.entries()[i] == before.entries()[i] && tables[i + 1] == tables[i]
    }

    /// A walk over the inputs, or over the required ones alone, that asks each whether it can
    /// serve `pts` and ends at the first that cannot. It met none such before `stop`.
    pub open spec fn walked(
        self,
        before: Self,
        tables: Seq<Seq<Option<Duration>>>,
        only_required: bool,
        pts: Duration,
        queue_start_pts: Duration,
        stop: int,
        all_ready: bool,
    ) -> bool {
        &&& 0 <= stop <= before.entries().len()
        &&& all_ready <==> stop == before.entries().len()
        &&& forall|i: int|
            0 <= i < stop ==> if only_required && !(
            #[trigger] before.entries()[i]).input.model(tables[i]).required {
                self.untouched(before, tables, i)
            } else {
                self.asked(before, tables, i, pts, queue_start_pts, true)
            }
        &&& !all_ready ==> {
            &&& !only_required || before.entries()[stop].input.model(tables[stop]).required
            &&& self.asked(before, tables, stop, pts, queue_start_pts, false)
        }
        &&& forall|i: int|
            stop < i < before.entries().len() ==> #[trigger] self.untouched(before, tables, i)
    }

    /// A walk turned `before` and its table into `self` and `shared`.
    pub open spec fn walked_to(
        self,
        before: Self,
        shared_before: Seq<Option<Duration>>,
        shared: Seq<Option<Duration>>,
        only_required: bool,
        pts: Duration,
        queue_start_pts: Duration,
        all_ready: bool,
    ) -> bool {
        &&& self.continues(before, shared_before, shared)
        &&& exists|tables: Seq<Seq<Option<Duration>>>, stop: int|
            {
                &&& before.handed_on(shared_before, shared, tables)
                &&& #[trigger] self.walked(
                    before,
                    tables,
                    only_required,
                    pts,
                    queue_start_pts,
                    stop,
                    all_ready,
                )
            }
    }

    /// A walk over all inputs and, where that met one that is not ready, another over the required
    /// ones found this readiness.
    pub open spec fn found_ready(
        self,
        before: Self,
        shared_before: Seq<Option<Duration>>,
        shared: Seq<Option<Duration>>,
        pts: Duration,
        queue_start_pts: Duration,
        readiness: Readiness,
    ) -> bool {
        exists|middle: Self, shared_middle: Seq<Option<Duration>>|
            {
                &&& #[trigger] middle.walked_to(
                    before,
                    shared_before,
                    shared_middle,
                    false,
                    pts,
                    queue_start_pts,
                    readiness.is_all(),
                )
                &&& readiness == Readiness::All ==> self.same_inputs(middle) && shared
                    == shared_middle
                &&& readiness != Readiness::All ==> self.walked_to(
                    middle,
                    shared_middle,
                    shared,
                    true,
                    pts,
                    queue_start_pts,
                    readiness.is_required(),
                )
            }
    }

    /// The answer to whether the frames for `next_pts` should be pushed, where the question came
    /// at `at_start`, or before the sync point if there is none, and the inputs had been asked by
    /// `at_end`.
    pub open spec fn decided(
        self,
        before: Self,
        shared_before: Seq<Option<Duration>>,
        shared: Seq<Option<Duration>>,
        next_pts: Duration,
        queue_start_pts: Duration,
        at_start: Option<Duration>,
        at_end: Duration,
        readiness: Readiness,
        pushed: bool,
    ) -> bool {
        &&& at_start is Some ==> at_start->0.representable()
        &&& told_passed(before.sync_point(), at_start)
        &&& at_end.representable()
        &&& if is_due(before.ahead_of_time(), next_pts, at_start) {
            &&& self.found_ready(
                before,
                shared_before,
                shared,
                next_pts,
                queue_start_pts,
                readiness,
            )
            &&& told_elapsed(before.sync_point(), at_end)
            &&& pushed == pushes(readiness, next_pts, at_end)
            &&& self.readings() == before.readings().push(at_start).push(Some(at_end))
        } else {
            &&& !pushed
            &&& self.same_inputs(before)
            &&& shared == shared_before
            &&& self.readings() == before.readings().push(at_start)
        }
    }

    /// Input `i` dropped the frames that were stale at some moment of the call.
    pub open spec fn dropped_stale(
        self,
        before: Self,
        tables: Seq<Seq<Option<Duration>>>,
        i: int,
    ) -> bool {
        exists|elapsed: Duration|
            {
                &&& elapsed.representable()
                &&& told_elapsed(before.entries()[i].input.sync_point(), elapsed)
                &&& self.entries()[i].input.readings()
                    == before.entries()[i].input.readings().push(Some(elapsed))
                &&& #[trigger] before.entries()[i].input.model(tables[i]).stale_dropped_to(
                    elapsed,
                    self.entries()[i].input.attempts_since(before.entries()[i].input),
                    self.entries()[i].input.model(tables[i + 1]),
                )
            }
    }

    pub fn new(sync_point: Instant, ahead_of_time_processing: bool) -> (r: Self)
        ensures
            r.entries() == Seq::<VideoEntry<D>>::empty(),
            r.ahead_of_time() == ahead_of_time_processing,
            r.sync_point() == sync_point,
            r.readings() == Seq::<Option<Duration>>::empty(),
            forall|shared: Seq<Option<Duration>>| #[trigger] r.wf(shared),
    {
        VideoQueue { clock: Clock::new(sync_point), inputs: Vec::new(), ahead_of_time_processing }
    }

    /// The place of the input of this name.
    fn position(&self, input_id: &InputId) -> (r: Option<usize>)
        ensures
            match r {
                Some(at) => at < self.entries().len() && self.entries()[at as int].id@
                    == input_id@,
                None => !self.has(input_id@),
            },
    {
        let mut i: usize = 0;
        while i < self.inputs.len()
            invariant
                i <= self.inputs@.len(),
                forall|k: int| 0 <= k < i ==> (#[trigger] self.entries()[k]).id@ != input_id@,
            decreases self.inputs@.len() - i,
        {
            if self.inputs[i].id.same(input_id) {
                return Some(i);
            }
            i = i + 1;
        }
        None
    }

    /// Adds an input that has received nothing yet. An input of the same name is replaced.
    pub fn add_input(
        &mut self,
        input_id: &InputId,
        receiver: crossbeam_channel::Receiver<PipelineEvent<Frame<D>>>,
        opts: VideoInputOptions,
        shared_state: usize,
        shared: &SharedPts,
    )
        requires
            old(self).wf(shared@),
            shared_state < shared@.len(),
        ensures
            final(self).readings() == old(self).readings(),
            final(self).wf(shared@),
            final(self).ahead_of_time() == old(self).ahead_of_time(),
            final(self).sync_point() == old(self).sync_point(),
            exists|added: VideoEntry<D>|
                {
                    &&& added.id == *input_id
                    &&& added.input.slot() == shared_state
                    &&& added.input.channel() == receiver
                    &&& added.input.sync_point() == old(self).sync_point()
                    &&& added.input.attempts().len() == 0
                    &&& added.input.readings() == Seq::<Option<Duration>>::empty()
                    &&& added.input.offset() == opts.offset
                    &&& added.input.model(shared@) == (VideoInputModel {
                        queue: Seq::<Frame<D>>::empty(),
                        eos_received: false,
                        first_pts: shared@[shared_state as int],
                        delivered_sent: false,
                        playing_sent: false,
                        eos_sent: false,
                        events: Seq::<VideoInputEvent>::empty(),
                        required: opts.required,
                        offset: opts.offset,
                    })
                    &&& final(self).entries() == #[trigger] old(self).with_entry(added)
                },
    {
        let input = VideoQueueInput::new(
            receiver,
            opts.required,
            opts.offset,
            shared_state,
            self.clock.origin(),
        );
        let added = VideoEntry { id: input_id.copied(), input };
        let ghost before = *self;
        match self.position(input_id) {
            Some(at) => {
                self.inputs.set(at, added);
                assert(self.entries() =~= before.with_entry(added));
            },
            None => {
                self.inputs.push(added);
                assert(self.entries() =~= before.with_entry(added));
            },
        }
    }

    /// Removes the input of this name, if there is one.
    pub fn remove_input(&mut self, input_id: &InputId)
        ensures
            final(self).readings() == old(self).readings(),
            final(self).ahead_of_time() == old(self).ahead_of_time(),
            final(self).sync_point() == old(self).sync_point(),
            forall|shared: Seq<Option<Duration>>| #[trigger]
                old(self).wf(shared) ==> final(self).wf(shared),
            if old(self).has(input_id@) {
                exists|at: int|
                    {
                        &&& 0 <= at < old(self).entries().len()
                        &&& old(self).entries()[at].id@ == input_id@
                        &&& final(self).entries() == #[trigger] old(self).entries().remove(at)
                    }
            } else {
                *final(self) == *old(self)
            },
    {
        let ghost before = *self;
        match self.position(input_id) {
            Some(at) => {
                let _ = self.inputs.remove(at);
                assert(self.entries() == before.entries().remove(at as int));
                assert forall|shared: Seq<Option<Duration>>| #[trigger]
                    before.wf(shared) implies self.wf(shared) by {
                    let kept = |i: int| if i < at { i } else { i + 1 };
                    assert forall|i: int| 0 <= i < self.entries().len() implies self.entries()[i]
                        == before.entries()[#[trigger] kept(i)] by {}
                    assert forall|i: int, j: int| 0 <= i < j < self.entries().len() implies
                    #[trigger] self.entries()[i].id@ != #[trigger] self.entries()[j].id@ by {
                        assert(before.entries()[kept(i)].id@ != before.entries()[kept(j)].id@);
                    }
                    assert forall|i: int| 0 <= i < self.entries().len() implies 0 <= (
                    #[trigger] self.entries()[i]).input.slot() < shared.len() by {
                        assert(0 <= before.entries()[kept(i)].input.slot() < shared.len());
                    }
                }
            },
            None => {},
        }
    }

    /// Whether every offset, counted from `queue_start_pts`, is representable: the queue can start
    /// then.
    pub fn accepts_start(&self, queue_start_pts: Duration) -> (r: bool)
        ensures
            r == self.offsets_fit(queue_start_pts),
    {
        let mut i: usize = 0;
        while i < self.inputs.len()
            invariant
                i <= self.inputs@.len(),
                forall|k: int|
                    0 <= k < i ==> (#[trigger] self.entries()[k]).input.offset_fits(
                        queue_start_pts,
                    ),
            decreases self.inputs@.len() - i,
        {
            if !self.inputs[i].input.accepts_start(queue_start_pts) {
                assert(!self.entries()[i as int].input.offset_fits(queue_start_pts));
                return false;
            }
            i = i + 1;
        }
        true
    }

    /// Gets the frame closest to `buffer_pts` from every input. Does not check whether an input is
    /// ready. Not to be called before the pipeline has started.
    pub fn get_frames_batch(
        &mut self,
        buffer_pts: Duration,
        queue_start_pts: Duration,
        shared: &mut SharedPts,
    ) -> (r: QueueVideoOutput<D>)
        requires
            old(self).wf(old(shared)@),
            old(self).offsets_fit(queue_start_pts),
        ensures
            final(self).readings() == old(self).readings(),
            final(self).wf(final(shared)@),
            final(self).continues(*old(self), old(shared)@, final(shared)@),
            r.pts == buffer_pts,
            exists|events: Seq<Option<FrameEvent<D>>>, tables: Seq<Seq<Option<Duration>>>|
                {
                    &&& #[trigger] old(self).handed_on(old(shared)@, final(shared)@, tables)
                    &&& events.len() == old(self).entries().len()
                    &&& forall|i: int|
                        0 <= i < events.len() ==> final(self).took_frame(
                            *old(self),
                            tables,
                            i,
                            buffer_pts,
                            queue_start_pts,
                            #[trigger] events[i],
                        )
                    &&& r.frames@ == #[trigger] handed_out_by(old(self).ids(), events)
                    &&& r.required == one_required(events)
                },
    {
        let ghost before = *self;
        let ghost shared_before = shared@;
        let ghost mut events: Seq<Option<FrameEvent<D>>> = Seq::empty();
        let ghost mut tables: Seq<Seq<Option<Duration>>> = seq![shared@];
        let mut frames: Vec<(InputId, PipelineEvent<Frame<D>>)> = Vec::new();
        let mut required = false;
        let mut i: usize = 0;
        proof {
            assert(before.ids().take(0) =~= Seq::<InputId>::empty());
            lemma_continues_itself(before, shared_before);
        }
        while i < self.inputs.len()
            invariant
                i <= self.inputs@.len(),
                events.len() == i,
                before == *old(self),
                self.readings() == before.readings(),
                shared_before == old(shared)@,
                before.wf(shared_before),
                before.offsets_fit(queue_start_pts),
                self.wf(shared@),
                self.continues(before, shared_before, shared@),
                tables.len() == i + 1,
                tables[0] == shared_before,
                tables.last() == shared@,
                forall|k: int| 0 <= k < i ==> #[trigger] before.writes_own_slot(tables, k),
                forall|k: int|
                    i <= k < self.entries().len() ==> #[trigger] self.entries()[k]
                        == before.entries()[k],
                forall|k: int|
                    0 <= k < i ==> self.took_frame(
                        before,
                        tables,
                        k,
                        buffer_pts,
                        queue_start_pts,
                        #[trigger] events[k],
                    ),
                frames@ == handed_out_by(before.ids().take(i as int), events),
                required == one_required(events),
            decreases self.inputs@.len() - i,
        {
            let ghost current = *self;
            let event = self.inputs[i].input.get_frame(buffer_pts, queue_start_pts, shared);
            let ghost events_before = events;
            let ghost tables_before = tables;
            proof {
                events = events.push(event);
                tables = tables.push(shared@);
                lemma_one_required_push(events_before, event);
                assert(events.drop_last() =~= events_before);
                assert(before.ids().take(i + 1).drop_last() =~= before.ids().take(i as int));
                assert(before.ids()[i as int] == before.entries()[i as int].id);
                lemma_model_reads_own_slot(self.entries()[i as int].input, shared@, shared@);
                assert(before.writes_own_slot(tables, i as int));
                assert(self.took_frame(
                    before,
                    tables,
                    i as int,
                    buffer_pts,
                    queue_start_pts,
                    event,
                ));
                assert forall|k: int| 0 <= k < i implies #[trigger] before.writes_own_slot(
                    tables,
                    k,
                ) by {
                    assert(before.writes_own_slot(tables_before, k));
                }
                assert forall|k: int| 0 <= k < i implies self.took_frame(
                    before,
                    tables,
                    k,
                    buffer_pts,
                    queue_start_pts,
                    #[trigger] events[k],
                ) by {
                    assert(events[k] == events_before[k]);
                    assert(self.entries()[k] == current.entries()[k]);
                    assert(tables[k] == tables_before[k]);
                    assert(tables[k + 1] == tables_before[k + 1]);
                }
            }
            match event {
                Some(event) => {
                    required = required || event.required;
                    frames.push((self.inputs[i].id.copied(), event.event));
                },
                None => {},
            }
            i = i + 1;
        }
        assert(before.ids().take(i as int) =~= before.ids());
        assert(before.handed_on(shared_before, shared@, tables));
        QueueVideoOutput { frames, required, pts: buffer_pts }
    }

    /// Asks the inputs, or the required ones alone, whether they can serve `pts`, up to the first
    /// that cannot.
    fn walk(
        &mut self,
        only_required: bool,
        pts: Duration,
        queue_start_pts: Duration,
        shared: &mut SharedPts,
    ) -> (all_ready: bool)
        requires
            old(self).wf(old(shared)@),
            old(self).offsets_fit(queue_start_pts),
        ensures
            final(self).readings() == old(self).readings(),
            final(self).wf(final(shared)@),
            final(self).walked_to(
                *old(self),
                old(shared)@,
                final(shared)@,
                only_required,
                pts,
                queue_start_pts,
                all_ready,
            ),
    {
        let ghost before = *self;
        let ghost shared_before = shared@;
        let ghost mut tables: Seq<Seq<Option<Duration>>> = seq![shared@];
        proof {
            lemma_continues_itself(before, shared_before);
        }
        let mut i: usize = 0;
        while i < self.inputs.len()
            invariant
                i <= self.inputs@.len(),
                before == *old(self),
                self.readings() == before.readings(),
                shared_before == old(shared)@,
                before.wf(shared_before),
                before.offsets_fit(queue_start_pts),
                self.wf(shared@),
                self.continues(before, shared_before, shared@),
                tables.len() == i + 1,
                tables[0] == shared_before,
                tables.last() == shared@,
                forall|k: int| 0 <= k < i ==> #[trigger] before.writes_own_slot(tables, k),
                forall|k: int|
                    i <= k < self.entries().len() ==> #[trigger] self.entries()[k]
                        == before.entries()[k],
                forall|k: int|
                    0 <= k < i ==> if only_required && !(
                    #[trigger] before.entries()[k]).input.model(tables[k]).required {
                        self.untouched(before, tables, k)
                    } else {
                        self.asked(before, tables, k, pts, queue_start_pts, true)
                    },
            decreases self.inputs@.len() - i,
        {
            let ghost current = *self;
            let ghost tables_before = tables;
            let asks = !only_required || self.inputs[i].input.required();
            let ready = if asks {
                self.inputs[i].input.try_enqueue_until_ready_for_pts(pts, queue_start_pts, shared)
            } else {
                true
            };
            proof {
                tables = tables.push(shared@);
                lemma_model_reads_own_slot(self.entries()[i as int].input, shared@, shared@);
                assert(tables[i as int] == tables_before.last());
                assert(before.entries()[i as int] == current.entries()[i as int]);
                if !asks {
                    let slot = before.entries()[i as int].input.slot();
                    assert(shared@.update(slot, shared@[slot]) =~= shared@);
                    assert(self.untouched(before, tables, i as int));
                } else {
                    assert(self.asked(before, tables, i as int, pts, queue_start_pts, ready));
                }
                assert(before.writes_own_slot(tables, i as int));
                assert forall|k: int| 0 <= k < i implies #[trigger] before.writes_own_slot(
                    tables,
                    k,
                ) by {
                    assert(before.writes_own_slot(tables_before, k));
                }
                assert forall|k: int| 0 <= k < i implies if only_required && !(
                #[trigger] before.entries()[k]).input.model(tables[k]).required {
                    self.untouched(before, tables, k)
                } else {
                    self.asked(before, tables, k, pts, queue_start_pts, true)
                } by {
                    assert(self.entries()[k] == current.entries()[k]);
                    assert(tables[k] == tables_before[k]);
                    assert(tables[k + 1] == tables_before[k + 1]);
                }
            }
            if !ready {
                proof {
                    let made = tables;
                    let left = (self.entries().len() - i - 1) as nat;
                    tables = made + Seq::new(left, |k: int| shared@);
                    assert forall|k: int| 0 <= k < before.entries().len() implies
                    #[trigger] before.writes_own_slot(tables, k) by {
                        if k <= i {
                            assert(before.writes_own_slot(made, k));
                        } else {
                            let slot = before.entries()[k].input.slot();
                            assert(shared@.update(slot, shared@[slot]) =~= shared@);
                        }
                    }
                    assert forall|k: int| 0 <= k < i implies if only_required && !(
                    #[trigger] before.entries()[k]).input.model(tables[k]).required {
                        self.untouched(before, tables, k)
                    } else {
                        self.asked(before, tables, k, pts, queue_start_pts, true)
                    } by {
                        assert(tables[k] == made[k]);
                        assert(tables[k + 1] == made[k + 1]);
                    }
                    assert forall|k: int| i < k < before.entries().len() implies
                    #[trigger] self.untouched(before, tables, k) by {
                        assert(self.entries()[k] == before.entries()[k]);
                    }
                    assert(before.handed_on(shared_before, shared@, tables));
                    assert(self.walked(
                        before,
                        tables,
                        only_required,
                        pts,
                        queue_start_pts,
                        i as int,
                        false,
                    ));
                }
                return false;
            }
            i = i + 1;
        }
        proof {
            assert(before.handed_on(shared_before, shared@, tables));
            assert(self.walked(
                before,
                tables,
                only_required,
                pts,
                queue_start_pts,
                i as int,
                true,
            ));
        }
        true
    }

    /// Which inputs can serve `pts`. Reads what the inputs have waiting, as far as it has to.
    pub fn readiness(
        &mut self,
        pts: Duration,
        queue_start_pts: Duration,
        shared: &mut SharedPts,
    ) -> (r: Readiness)
        requires
            old(self).wf(old(shared)@),
            old(self).offsets_fit(queue_start_pts),
        ensures
            final(self).readings() == old(self).readings(),
            final(self).wf(final(shared)@),
            final(self).continues(*old(self), old(shared)@, final(shared)@),
            final(self).found_ready(
                *old(self),
                old(shared)@,
                final(shared)@,
                pts,
                queue_start_pts,
                r,
            ),
    {
        let ghost before = *self;
        let ghost shared_before = shared@;
        let all_ready = self.walk(false, pts, queue_start_pts, shared);
        let ghost middle = *self;
        let ghost shared_middle = shared@;
        let r = if all_ready {
            Readiness::All
        } else if self.walk(true, pts, queue_start_pts, shared) {
            Readiness::Required
        } else {
            Readiness::Missing
        };
        proof {
            if !all_ready {
                lemma_continues_through(before, middle, *self, shared_before, shared_middle, shared@);
            }
            assert(middle.walked_to(
                before,
                shared_before,
                shared_middle,
                false,
                pts,
                queue_start_pts,
                r.is_all(),
            ));
        }
        r
    }

    /// Whether the frames for `next_pts` should be pushed now: all inputs are ready, or the
    /// required ones are and the time of the frames has passed. Unless the queue works ahead of
    /// time, frames are never pushed before their time.
    pub fn should_push_next_frameset(
        &mut self,
        next_pts: Duration,
        queue_start_pts: Duration,
        shared: &mut SharedPts,
    ) -> (r: bool)
        requires
            old(self).wf(old(shared)@),
            old(self).offsets_fit(queue_start_pts),
        ensures
            final(self).wf(final(shared)@),
            final(self).continues(*old(self), old(shared)@, final(shared)@),
            exists|at_start: Option<Duration>, at_end: Duration, readiness: Readiness| #[trigger]
                final(self).decided(
                    *old(self),
                    old(shared)@,
                    final(shared)@,
                    next_pts,
                    queue_start_pts,
                    at_start,
                    at_end,
                    readiness,
                    r,
                ),
    {
        let decision = self.decide_push(next_pts, queue_start_pts, shared);
        decision.is_some()
    }

    /// How ready the inputs are for the frames for `next_pts`, if these should be pushed now.
    pub fn decide_push(
        &mut self,
        next_pts: Duration,
        queue_start_pts: Duration,
        shared: &mut SharedPts,
    ) -> (r: Option<Readiness>)
        requires
            old(self).wf(old(shared)@),
            old(self).offsets_fit(queue_start_pts),
        ensures
            final(self).wf(final(shared)@),
            final(self).continues(*old(self), old(shared)@, final(shared)@),
            exists|at_start: Option<Duration>, at_end: Duration, readiness: Readiness|
                {
                    &&& #[trigger] final(self).decided(
                        *old(self),
                        old(shared)@,
                        final(shared)@,
                        next_pts,
                        queue_start_pts,
                        at_start,
                        at_end,
                        readiness,
                        r is Some,
                    )
                    &&& r is Some ==> r->0 == readiness
                },
    {
        let ghost before = *self;
        let ghost shared_before = shared@;
        proof {
            lemma_continues_itself(before, shared_before);
        }
        let at_start = self.clock.passed();
        let ghost started = *self;
        assert(started.same_inputs(before));
        if !frameset_is_due(self.ahead_of_time_processing, next_pts, at_start) {
            let r: Option<Readiness> = None;
            assert(self.decided(
                before,
                shared_before,
                shared@,
                next_pts,
                queue_start_pts,
                at_start,
                Duration { nanos: 0 },
                Readiness::Missing,
                r is Some,
            ));
            return r;
        }
        let readiness = self.readiness(next_pts, queue_start_pts, shared);
        let ghost asked = *self;
        let at_end = self.clock.elapsed();
        proof {
            lemma_found_ready_reads_inputs(
                *self,
                asked,
                before,
                started,
                shared_before,
                shared@,
                next_pts,
                queue_start_pts,
                readiness,
            );
        }
        let r = if push_now(readiness, next_pts, at_end) {
            Some(readiness)
        } else {
            None
        };
        assert(self.decided(
            before,
            shared_before,
            shared@,
            next_pts,
            queue_start_pts,
            at_start,
            at_end,
            readiness,
            r is Some,
        ));
        r
    }

    /// Takes what the inputs reported since the last call.
    pub fn take_events(&mut self) -> (r: Vec<(InputId, VideoInputEvent)>)
        ensures
            final(self).readings() == old(self).readings(),
            final(self).ahead_of_time() == old(self).ahead_of_time(),
            final(self).sync_point() == old(self).sync_point(),
            final(self).entries().len() == old(self).entries().len(),
            forall|shared: Seq<Option<Duration>>|
                r@ == #[trigger] old(self).reported(shared, old(self).entries().len() as int),
            forall|shared: Seq<Option<Duration>>, i: int|
                0 <= i < old(self).entries().len() ==> #[trigger] final(self).entries()[i].input.model(shared) == (VideoInputModel {
                    events: Seq::<VideoInputEvent>::empty(),
                    ..old(self).entries()[i].input.model(shared)
                }),
            forall|i: int|
                0 <= i < old(self).entries().len() ==> {
                    &&& (#[trigger] final(self).entries()[i]).id == old(self).entries()[i].id
                    &&& final(self).entries()[i].input.slot() == old(self).entries()[i].input.slot()
                    &&& final(self).entries()[i].input.same_source(old(self).entries()[i].input)
                    &&& final(self).entries()[i].input.offset() == old(self).entries()[i].input.offset()
                    &&& final(self).entries()[i].input.attempts() == old(self).entries()[i].input.attempts()
                    &&& final(self).entries()[i].input.readings() == old(self).entries()[i].input.readings()
                },
    {
        let ghost before = *self;
        let mut taken: Vec<(InputId, VideoInputEvent)> = Vec::new();
        let mut i: usize = 0;
        while i < self.inputs.len()
            invariant
                i <= self.inputs@.len(),
                before == *old(self),
                self.readings() == before.readings(),
                self.ahead_of_time() == before.ahead_of_time(),
                self.sync_point() == before.sync_point(),
                self.entries().len() == before.entries().len(),
                forall|k: int|
                    i <= k < self.entries().len() ==> #[trigger] self.entries()[k]
                        == before.entries()[k],
                forall|shared: Seq<Option<Duration>>|
                    taken@ == #[trigger] before.reported(shared, i as int),
                forall|shared: Seq<Option<Duration>>, k: int|
                    0 <= k < i ==> #[trigger] self.entries()[k].input.model(shared) == (
                    VideoInputModel {
                        events: Seq::<VideoInputEvent>::empty(),
                        ..before.entries()[k].input.model(shared)
                    }),
                forall|k: int|
                    0 <= k < i ==> {
                        &&& (#[trigger] self.entries()[k]).id == before.entries()[k].id
                        &&& self.entries()[k].input.slot() == before.entries()[k].input.slot()
                        &&& self.entries()[k].input.same_source(before.entries()[k].input)
                        &&& self.entries()[k].input.offset() == before.entries()[k].input.offset()
                        &&& self.entries()[k].input.attempts()
                            == before.entries()[k].input.attempts()
                        &&& self.entries()[k].input.readings()
                            == before.entries()[k].input.readings()
                    },
            decreases self.inputs@.len() - i,
        {
            let ghost taken_before = taken@;
            let events = self.inputs[i].input.take_events();
            let mut j: usize = 0;
            let ghost named = |event: VideoInputEvent| (before.entries()[i as int].id, event);
            assert(taken@ =~= taken_before + events@.take(0).map_values(named));
            while j < events.len()
                invariant
                    j <= events@.len(),
                    i < self.inputs@.len(),
                    self.entries()[i as int].id == before.entries()[i as int].id,
                    named == (|event: VideoInputEvent| (before.entries()[i as int].id, event)),
                    taken@ == taken_before + events@.take(j as int).map_values(named),
                decreases events@.len() - j,
            {
                taken.push((self.inputs[i].id.copied(), events[j]));
                j = j + 1;
                assert(taken@ =~= taken_before + events@.take(j as int).map_values(named));
            }
            assert(events@.take(j as int) =~= events@);
            i = i + 1;
            assert forall|shared: Seq<Option<Duration>>| taken@ == #[trigger] before.reported(
                shared,
                i as int,
            ) by {
                assert(taken_before == before.reported(shared, i - 1));
                let _ = self.entries()[i - 1].input.model(shared);
                assert(events@ == before.entries()[i - 1].input.model(shared).events);
            }
        }
        taken
    }

    /// Drops, from every input, the frames whose time has passed. To be called only before the
    /// queue has started.
    pub fn drop_old_frames_before_start(&mut self, shared: &mut SharedPts)
        requires
            old(self).wf(old(shared)@),
        ensures
            final(self).readings() == old(self).readings(),
            final(self).wf(final(shared)@),
            final(self).continues(*old(self), old(shared)@, final(shared)@),
            exists|tables: Seq<Seq<Option<Duration>>>|
                {
                    &&& #[trigger] old(self).handed_on(old(shared)@, final(shared)@, tables)
                    &&& forall|i: int|
                        0 <= i < old(self).entries().len() ==> #[trigger] final(self).dropped_stale(
                            *old(self),
                            tables,
                            i,
                        )
                },
    {
        let ghost before = *self;
        let ghost shared_before = shared@;
        let ghost mut tables: Seq<Seq<Option<Duration>>> = seq![shared@];
        proof {
            lemma_continues_itself(before, shared_before);
        }
        let mut i: usize = 0;
        while i < self.inputs.len()
            invariant
                i <= self.inputs@.len(),
                before == *old(self),
                self.readings() == before.readings(),
                shared_before == old(shared)@,
                before.wf(shared_before),
                self.wf(shared@),
                self.continues(before, shared_before, shared@),
                tables.len() == i + 1,
                tables[0] == shared_before,
                tables.last() == shared@,
                forall|k: int| 0 <= k < i ==> #[trigger] before.writes_own_slot(tables, k),
                forall|k: int|
                    i <= k < self.entries().len() ==> #[trigger] self.entries()[k]
                        == before.entries()[k],
                forall|k: int|
                    0 <= k < i ==> #[trigger] self.dropped_stale(before, tables, k),
            decreases self.inputs@.len() - i,
        {
            let ghost current = *self;
            let ghost tables_before = tables;
            self.inputs[i].input.drop_old_frames_before_start(shared);
            proof {
                tables = tables.push(shared@);
                lemma_model_reads_own_slot(self.entries()[i as int].input, shared@, shared@);
                assert(tables[i as int] == tables_before.last());
                assert(before.entries()[i as int] == current.entries()[i as int]);
                assert(before.writes_own_slot(tables, i as int));
                assert(self.dropped_stale(before, tables, i as int));
                assert forall|k: int| 0 <= k < i implies #[trigger] before.writes_own_slot(
                    tables,
                    k,
                ) by {
                    assert(before.writes_own_slot(tables_before, k));
                }
                assert forall|k: int| 0 <= k < i implies #[trigger] self.dropped_stale(
                    before,
                    tables,
                    k,
                ) by {
                    assert(current.dropped_stale(before, tables_before, k));
                    assert(self.entries()[k] == current.entries()[k]);
                    assert(tables[k] == tables_before[k]);
                    assert(tables[k + 1] == tables_before[k + 1]);
                }
            }
            i = i + 1;
        }
        assert(before.handed_on(shared_before, shared@, tables));
    }
}

/// Frames may be pushed at `elapsed`: their time has come, or the queue works ahead of time. Before
/// the sync point, where nothing has elapsed, the time of no frame has come.
pub open spec fn is_due(ahead_of_time: bool, next_pts: Duration, elapsed: Option<Duration>) -> bool {
    ahead_of_time || (elapsed is Some && next_pts.nanos <= elapsed->0.nanos)
}

/// Frames whose turn it is are pushed at `elapsed`, where the inputs are this ready.
pub open spec fn pushes(readiness: Readiness, next_pts: Duration, elapsed: Duration) -> bool {
    match readiness {
        Readiness::All => true,
        Readiness::Required => next_pts.nanos < elapsed.nanos,
        Readiness::Missing => false,
    }
}

/// Whether frames for `next_pts` may be pushed at `elapsed`; there is none before the sync point.
pub fn frameset_is_due(ahead_of_time: bool, next_pts: Duration, elapsed: Option<Duration>) -> (r:
    bool)
    ensures
        r == is_due(ahead_of_time, next_pts, elapsed),
{
    ahead_of_time || match elapsed {
        Some(elapsed) => next_pts.nanos <= elapsed.nanos,
        None => false,
    }
}

/// Whether frames for `next_pts` are pushed at `elapsed`, where the inputs are this ready.
pub fn push_now(readiness: Readiness, next_pts: Duration, elapsed: Duration) -> (r: bool)
    ensures
        r == pushes(readiness, next_pts, elapsed),
{
    match readiness {
        Readiness::All => true,
        Readiness::Required => next_pts.nanos < elapsed.nanos,
        Readiness::Missing => false,
    }
}

proof fn lemma_continues_through<D>(
    first: VideoQueue<D>,
    second: VideoQueue<D>,
    third: VideoQueue<D>,
    shared_first: Seq<Option<Duration>>,
    shared_second: Seq<Option<Duration>>,
    shared_third: Seq<Option<Duration>>,
)
    requires
        second.continues(first, shared_first, shared_second),
        third.continues(second, shared_second, shared_third),
    ensures
        third.continues(first, shared_first, shared_third),
{
    assert forall|i: int| 0 <= i < third.entries().len() implies (
    #[trigger] third.entries()[i]).input.follows(first.entries()[i].input) by {
        let one = first.entries()[i].input;
        let two = second.entries()[i].input;
        let three = third.entries()[i].input;
        assert(two.follows(one));
        assert(three.follows(two));
        lemma_follows_through(one, two, three);
    }
    assert forall|slot: int| 0 <= slot < shared_third.len() && !first.owns(slot) implies
    #[trigger] shared_third[slot] == shared_first[slot] by {
        if second.owns(slot) {
            let i = choose|i: int|
                0 <= i < second.entries().len() && (
                #[trigger] second.entries()[i]).input.slot() == slot;
            assert(first.entries()[i].input.slot() == slot);
        }
        assert(shared_second[slot] == shared_first[slot]);
    }
}

/// What was found depends on the inputs, not on the record of the clock.
proof fn lemma_found_ready_reads_inputs<D>(
    after: VideoQueue<D>,
    found: VideoQueue<D>,
    before: VideoQueue<D>,
    started: VideoQueue<D>,
    shared_before: Seq<Option<Duration>>,
    shared: Seq<Option<Duration>>,
    pts: Duration,
    queue_start_pts: Duration,
    readiness: Readiness,
)
    requires
        after.same_inputs(found),
        started.same_inputs(before),
        found.found_ready(started, shared_before, shared, pts, queue_start_pts, readiness),
    ensures
        after.found_ready(before, shared_before, shared, pts, queue_start_pts, readiness),
{
    let (middle, shared_middle) = choose|
        middle: VideoQueue<D>,
        shared_middle: Seq<Option<Duration>>,
    |
        {
            &&& #[trigger] middle.walked_to(
                started,
                shared_before,
                shared_middle,
                false,
                pts,
                queue_start_pts,
                readiness.is_all(),
            )
            &&& readiness == Readiness::All ==> found.same_inputs(middle) && shared == shared_middle
            &&& readiness != Readiness::All ==> found.walked_to(
                middle,
                shared_middle,
                shared,
                true,
                pts,
                queue_start_pts,
                readiness.is_required(),
            )
        };
    lemma_walked_reads_inputs(
        middle,
        middle,
        before,
        started,
        shared_before,
        shared_middle,
        false,
        pts,
        queue_start_pts,
        readiness.is_all(),
    );
    if readiness != Readiness::All {
        lemma_walked_reads_inputs(
            after,
            found,
            middle,
            middle,
            shared_middle,
            shared,
            true,
            pts,
            queue_start_pts,
            readiness.is_required(),
        );
    }
}

proof fn lemma_walked_reads_inputs<D>(
    after: VideoQueue<D>,
    found: VideoQueue<D>,
    before: VideoQueue<D>,
    started: VideoQueue<D>,
    shared_before: Seq<Option<Duration>>,
    shared: Seq<Option<Duration>>,
    only_required: bool,
    pts: Duration,
    queue_start_pts: Duration,
    all_ready: bool,
)
    requires
        after.same_inputs(found),
        started.same_inputs(before),
        found.walked_to(
            started,
            shared_before,
            shared,
            only_required,
            pts,
            queue_start_pts,
            all_ready,
        ),
    ensures
        after.walked_to(
            before,
            shared_before,
            shared,
            only_required,
            pts,
            queue_start_pts,
            all_ready,
        ),
{
    let (tables, stop) = choose|tables: Seq<Seq<Option<Duration>>>, stop: int|
        {
            &&& started.handed_on(shared_before, shared, tables)
            &&& #[trigger] found.walked(
                started,
                tables,
                only_required,
                pts,
                queue_start_pts,
                stop,
                all_ready,
            )
        };
    assert forall|i: int| 0 <= i < before.entries().len() implies #[trigger] before.writes_own_slot(
        tables,
        i,
    ) by {
        assert(started.writes_own_slot(tables, i));
    }
    assert forall|i: int| stop < i < before.entries().len() implies #[trigger] after.untouched(
        before,
        tables,
        i,
    ) by {
        assert(found.untouched(started, tables, i));
    }
    assert(after.walked(
        before,
        tables,
        only_required,
        pts,
        queue_start_pts,
        stop,
        all_ready,
    ));
    assert forall|slot: int| 0 <= slot < shared.len() && !before.owns(slot) implies
    #[trigger] shared[slot] == shared_before[slot] by {
        if started.owns(slot) {
            let i = choose|i: int|
                0 <= i < started.entries().len() && (
                #[trigger] started.entries()[i]).input.slot() == slot;
            assert(before.entries()[i].input.slot() == slot);
        }
    }
}

proof fn lemma_continues_itself<D>(queue: VideoQueue<D>, shared: Seq<Option<Duration>>)
    ensures
        queue.continues(queue, shared, shared),
{
    assert forall|i: int| 0 <= i < queue.entries().len() implies (
    #[trigger] queue.entries()[i]).input.follows(queue.entries()[i].input) by {
        lemma_follows_itself(queue.entries()[i].input);
    }
}

/// Inputs that share a slot share their first timestamp: once one of them has set it, handing out
/// frames does not change it, whichever input is asked.
pub proof fn lemma_first_timestamps_stay<D>(
    after: VideoQueue<D>,
    before: VideoQueue<D>,
    shared_before: Seq<Option<Duration>>,
    shared: Seq<Option<Duration>>,
    tables: Seq<Seq<Option<Duration>>>,
    pts: Duration,
    queue_start_pts: Duration,
    events: Seq<Option<FrameEvent<D>>>,
    slot: int,
)
    requires
        before.wf(shared_before),
        before.handed_on(shared_before, shared, tables),
        events.len() == before.entries().len(),
        forall|i: int|
            0 <= i < events.len() ==> after.took_frame(
                before,
                tables,
                i,
                pts,
                queue_start_pts,
                #[trigger] events[i],
            ),
        after.continues(before, shared_before, shared),
        0 <= slot < shared_before.len(),
        shared_before[slot] is Some,
    ensures
        shared[slot] == shared_before[slot],
{
    lemma_first_timestamp_stays_until(
        after,
        before,
        shared_before,
        shared,
        tables,
        pts,
        queue_start_pts,
        events,
        slot,
        events.len() as int,
    );
}

proof fn lemma_first_timestamp_stays_until<D>(
    after: VideoQueue<D>,
    before: VideoQueue<D>,
    shared_before: Seq<Option<Duration>>,
    shared: Seq<Option<Duration>>,
    tables: Seq<Seq<Option<Duration>>>,
    pts: Duration,
    queue_start_pts: Duration,
    events: Seq<Option<FrameEvent<D>>>,
    slot: int,
    count: int,
)
    requires
        before.wf(shared_before),
        before.handed_on(shared_before, shared, tables),
        events.len() == before.entries().len(),
        forall|i: int|
            0 <= i < events.len() ==> after.took_frame(
                before,
                tables,
                i,
                pts,
                queue_start_pts,
                #[trigger] events[i],
            ),
        after.continues(before, shared_before, shared),
        0 <= slot < shared_before.len(),
        shared_before[slot] is Some,
        0 <= count <= events.len(),
    ensures
        tables[count].len() == shared_before.len(),
        tables[count][slot] == shared_before[slot],
    decreases count,
{
    if count > 0 {
        let i = count - 1;
        lemma_first_timestamp_stays_until(
            after,
            before,
            shared_before,
            shared,
            tables,
            pts,
            queue_start_pts,
            events,
            slot,
            i,
        );
        assert(before.writes_own_slot(tables, i));
        let input = before.entries()[i].input;
        if input.slot() == slot {
            assert(after.took_frame(before, tables, i, pts, queue_start_pts, events[i]));
            let later = after.entries()[i].input;
            assert(later.follows(input));
            let fill = choose|fill: int| #[trigger]
                input.model(tables[i]).frame_taken(
                    pts,
                    queue_start_pts,
                    later.attempts_since(input),
                    fill,
                    later.model(tables[i + 1]),
                    events[i],
                );
            lemma_model_reads_own_slot(input, tables[i], tables[i]);
            lemma_model_reads_own_slot(later, tables[i + 1], tables[i + 1]);
            lemma_first_pts_is_kept(
                input.model(tables[i]),
                pts,
                queue_start_pts,
                later.attempts_since(input),
                fill,
                later.model(tables[i + 1]),
                events[i],
            );
        }
    }
}

/// Frames are pushed only when every required input has a frame for them, has ended or starts
/// later. Unless the queue works ahead of time, they are never pushed before their time.
pub proof fn lemma_push_waits_for_required_inputs<D>(
    after: VideoQueue<D>,
    before: VideoQueue<D>,
    shared_before: Seq<Option<Duration>>,
    shared: Seq<Option<Duration>>,
    next_pts: Duration,
    queue_start_pts: Duration,
    at_start: Option<Duration>,
    at_end: Duration,
    readiness: Readiness,
)
    requires
        after.continues(before, shared_before, shared),
        after.decided(
            before,
            shared_before,
            shared,
            next_pts,
            queue_start_pts,
            at_start,
            at_end,
            readiness,
            true,
        ),
    ensures
        before.ahead_of_time() || (at_start is Some && next_pts.nanos <= at_start->0.nanos),
        forall|i: int|
            0 <= i < after.entries().len() && (
            #[trigger] after.entries()[i]).input.model(shared).required ==> {
                ||| after.entries()[i].input.model(shared).eos_received
                ||| after.entries()[i].input.model(shared).has_frame_for(next_pts)
                ||| after.entries()[i].input.model(shared).starts_after(next_pts, queue_start_pts)
            },
        readiness == Readiness::Required ==> next_pts.nanos < at_end.nanos,
{
    let (middle, shared_middle) = choose|
        middle: VideoQueue<D>,
        shared_middle: Seq<Option<Duration>>,
    |
        {
            &&& #[trigger] middle.walked_to(
                before,
                shared_before,
                shared_middle,
                false,
                next_pts,
                queue_start_pts,
                readiness.is_all(),
            )
            &&& readiness == Readiness::All ==> after.same_inputs(middle) && shared == shared_middle
            &&& readiness != Readiness::All ==> after.walked_to(
                middle,
                shared_middle,
                shared,
                true,
                next_pts,
                queue_start_pts,
                readiness.is_required(),
            )
        };
    assert forall|i: int|
        0 <= i < after.entries().len() && (
        #[trigger] after.entries()[i]).input.model(shared).required implies {
        ||| after.entries()[i].input.model(shared).eos_received
        ||| after.entries()[i].input.model(shared).has_frame_for(next_pts)
        ||| after.entries()[i].input.model(shared).starts_after(next_pts, queue_start_pts)
    } by {
        if readiness == Readiness::All {
            lemma_required_is_ready(
                middle,
                before,
                shared_before,
                shared,
                false,
                next_pts,
                queue_start_pts,
                i,
            );
        } else {
            lemma_required_is_ready(
                after,
                middle,
                shared_middle,
                shared,
                true,
                next_pts,
                queue_start_pts,
                i,
            );
        }
    }
}

/// After a walk that found every input it asked ready, a required input has a frame for the moment,
/// has ended or starts later.
proof fn lemma_required_is_ready<D>(
    after: VideoQueue<D>,
    before: VideoQueue<D>,
    shared_before: Seq<Option<Duration>>,
    shared: Seq<Option<Duration>>,
    only_required: bool,
    pts: Duration,
    queue_start_pts: Duration,
    i: int,
)
    requires
        after.walked_to(before, shared_before, shared, only_required, pts, queue_start_pts, true),
        0 <= i < after.entries().len(),
        after.entries()[i].input.model(shared).required,
    ensures
        ({
            let input = after.entries()[i].input.model(shared);
            ||| input.eos_received
            ||| input.has_frame_for(pts)
            ||| input.starts_after(pts, queue_start_pts)
        }),
{
    let (tables, stop) = choose|tables: Seq<Seq<Option<Duration>>>, stop: int|
        {
            &&& before.handed_on(shared_before, shared, tables)
            &&& #[trigger] after.walked(
                before,
                tables,
                only_required,
                pts,
                queue_start_pts,
                stop,
                true,
            )
        };
    let input = before.entries()[i].input;
    lemma_model_reads_own_slot(after.entries()[i].input, shared, tables[i + 1]);
    if only_required && !input.model(tables[i]).required {
        assert(after.untouched(before, tables, i));
    } else {
        assert(after.asked(before, tables, i, pts, queue_start_pts, true));
        lemma_ready_has_frame(
            input.model(tables[i]),
            pts,
            queue_start_pts,
            after.entries()[i].input.attempts_since(input),
            after.entries()[i].input.model(tables[i + 1]),
        );
    }
}

/// The input can serve `pts`: its stream has ended, its newest frame is not older, or it starts
/// later.
pub open spec fn can_serve<D>(
    input: VideoInputModel<D>,
    pts: Duration,
    queue_start_pts: Duration,
) -> bool {
    ||| input.eos_received
    ||| input.queue.len() > 0 && pts.nanos <= input.queue.last().pts.nanos
    ||| input.offset is Some && pts.nanos < queue_start_pts.nanos + input.offset->0.nanos
}

/// All inputs count as ready only when every one of them can serve the moment, required or not. A
/// required input counts as missing only when there is one that cannot.
pub proof fn lemma_readiness_tells_who_can_serve<D>(
    after: VideoQueue<D>,
    before: VideoQueue<D>,
    shared_before: Seq<Option<Duration>>,
    shared: Seq<Option<Duration>>,
    pts: Duration,
    queue_start_pts: Duration,
    readiness: Readiness,
)
    requires
        after.found_ready(before, shared_before, shared, pts, queue_start_pts, readiness),
    ensures
        readiness == Readiness::All ==> forall|i: int|
            0 <= i < after.entries().len() ==> can_serve(
                (#[trigger] after.entries()[i]).input.model(shared),
                pts,
                queue_start_pts,
            ),
        readiness == Readiness::Required ==> forall|i: int|
            0 <= i < after.entries().len() && (#[trigger] after.entries()[i]).input.model(
                shared,
            ).required ==> can_serve(after.entries()[i].input.model(shared), pts, queue_start_pts),
        readiness == Readiness::Missing ==> exists|i: int|
            {
                &&& 0 <= i < after.entries().len()
                &&& (#[trigger] after.entries()[i]).input.model(shared).required
                &&& !can_serve(after.entries()[i].input.model(shared), pts, queue_start_pts)
            },
        readiness != Readiness::All ==> exists|middle: VideoQueue<D>, i: int|
            {
                &&& 0 <= i < before.entries().len()
                &&& middle.entries().len() == before.entries().len()
                &&& (#[trigger] middle.entries()[i]).input.follows(before.entries()[i].input)
                &&& !can_serve(middle.entries()[i].input.model(shared), pts, queue_start_pts)
            },
{
    let (middle, shared_middle) = choose|
        middle: VideoQueue<D>,
        shared_middle: Seq<Option<Duration>>,
    |
        {
            &&& #[trigger] middle.walked_to(
                before,
                shared_before,
                shared_middle,
                false,
                pts,
                queue_start_pts,
                readiness.is_all(),
            )
            &&& readiness == Readiness::All ==> after.same_inputs(middle) && shared == shared_middle
            &&& readiness != Readiness::All ==> after.walked_to(
                middle,
                shared_middle,
                shared,
                true,
                pts,
                queue_start_pts,
                readiness.is_required(),
            )
        };
    if readiness == Readiness::All {
        lemma_walk_tells(
            middle,
            before,
            shared_before,
            shared_middle,
            shared,
            false,
            pts,
            queue_start_pts,
            true,
        );
    } else {
        lemma_walk_tells(
            middle,
            before,
            shared_before,
            shared_middle,
            shared,
            false,
            pts,
            queue_start_pts,
            false,
        );
        lemma_walk_tells(
            after,
            middle,
            shared_middle,
            shared,
            shared,
            true,
            pts,
            queue_start_pts,
            readiness.is_required(),
        );
    }
}

proof fn lemma_walk_tells<D>(
    after: VideoQueue<D>,
    before: VideoQueue<D>,
    shared_before: Seq<Option<Duration>>,
    shared: Seq<Option<Duration>>,
    seen: Seq<Option<Duration>>,
    only_required: bool,
    pts: Duration,
    queue_start_pts: Duration,
    all_ready: bool,
)
    requires
        after.walked_to(
            before,
            shared_before,
            shared,
            only_required,
            pts,
            queue_start_pts,
            all_ready,
        ),
    ensures
        all_ready ==> forall|i: int|
            0 <= i < after.entries().len() && (!only_required || (
            #[trigger] after.entries()[i]).input.model(seen).required) ==> can_serve(
                after.entries()[i].input.model(seen),
                pts,
                queue_start_pts,
            ),
        !all_ready ==> exists|i: int|
            {
                &&& 0 <= i < after.entries().len()
                &&& !only_required || (#[trigger] after.entries()[i]).input.model(seen).required
                &&& after.entries()[i].input.follows(before.entries()[i].input)
                &&& !can_serve(after.entries()[i].input.model(seen), pts, queue_start_pts)
            },
{
    let (tables, stop) = choose|tables: Seq<Seq<Option<Duration>>>, stop: int|
        {
            &&& before.handed_on(shared_before, shared, tables)
            &&& #[trigger] after.walked(
                before,
                tables,
                only_required,
                pts,
                queue_start_pts,
                stop,
                all_ready,
            )
        };
    if all_ready {
        assert forall|i: int|
            0 <= i < after.entries().len() && (!only_required || (
            #[trigger] after.entries()[i]).input.model(seen).required) implies can_serve(
            after.entries()[i].input.model(seen),
            pts,
            queue_start_pts,
        ) by {
            let input = before.entries()[i].input;
            lemma_model_reads_own_slot(after.entries()[i].input, seen, tables[i + 1]);
            if only_required && !input.model(tables[i]).required {
                assert(after.untouched(before, tables, i));
            } else {
                assert(after.asked(before, tables, i, pts, queue_start_pts, true));
                let made = after.entries()[i].input.attempts_since(input);
                let end = after.entries()[i].input.model(tables[i + 1]);
                lemma_ready_has_frame(input.model(tables[i]), pts, queue_start_pts, made, end);
            }
        }
    } else {
        let input = before.entries()[stop].input;
        let later = after.entries()[stop].input;
        let made = later.attempts_since(input);
        assert(after.asked(before, tables, stop, pts, queue_start_pts, false));
        lemma_model_reads_own_slot(later, seen, tables[stop + 1]);
        lemma_served_input_is_ready(
            input.model(tables[stop]),
            pts,
            queue_start_pts,
            made,
            later.model(tables[stop + 1]),
            false,
        );
        lemma_asking_keeps_settings(
            input.model(tables[stop]),
            pts,
            queue_start_pts,
            made,
            later.model(tables[stop + 1]),
            false,
        );
    }
}

/// `places` are, in order, the inputs that have something to hand out.
pub open spec fn are_places_of<D>(places: Seq<int>, events: Seq<Option<FrameEvent<D>>>) -> bool {
    &&& forall|k: int|
        0 <= k < places.len() ==> 0 <= #[trigger] places[k] < events.len() && events[places[k]] is Some
    &&& forall|k: int, l: int|
        0 <= k < l < places.len() ==> #[trigger] places[k] < #[trigger] places[l]
    &&& forall|i: int|
        0 <= i < events.len() && (#[trigger] events[i]) is Some ==> places.contains(i)
}

/// A batch holds what each input hands out under the name of that input, once, in the order of the
/// inputs, and nothing else. It is required if and only if one of them insists on its frame.
pub proof fn lemma_batch_holds_every_event<D>(
    ids: Seq<InputId>,
    events: Seq<Option<FrameEvent<D>>>,
)
    requires
        ids.len() == events.len(),
    ensures
        exists|places: Seq<int>|
            {
                &&& #[trigger] are_places_of(places, events)
                &&& handed_out_by(ids, events).len() == places.len()
                &&& forall|k: int|
                    0 <= k < places.len() ==> (#[trigger] handed_out_by(ids, events)[k]) == (
                        ids[places[k]],
                        events[places[k]]->0.event,
                    )
            },
        forall|i: int|
            0 <= i < events.len() && (#[trigger] events[i]) is Some && events[i]->0.required
                ==> one_required(events),
        one_required(events) ==> !(forall|i: int|
            0 <= i < events.len() ==> (#[trigger] events[i]) is None || !events[i]->0.required),
    decreases events.len(),
{
    if events.len() == 0 {
        assert(are_places_of(Seq::<int>::empty(), events));
    } else {
        let fewer = events.drop_last();
        let last = events.len() - 1;
        lemma_batch_holds_every_event(ids.drop_last(), fewer);
        let before = handed_out_by(ids.drop_last(), fewer);
        let places = choose|places: Seq<int>|
            {
                &&& #[trigger] are_places_of(places, fewer)
                &&& before.len() == places.len()
                &&& forall|k: int|
                    0 <= k < places.len() ==> (#[trigger] before[k]) == (
                        ids.drop_last()[places[k]],
                        fewer[places[k]]->0.event,
                    )
            };
        let all = if events[last] is Some {
            places.push(last)
        } else {
            places
        };
        assert forall|i: int| 0 <= i < events.len() && (#[trigger] events[i]) is Some implies
        all.contains(i) by {
            if i < last {
                assert(fewer[i] == events[i]);
                assert(places.contains(i));
                let k = choose|k: int| 0 <= k < places.len() && places[k] == i;
                assert(all[k] == i);
            } else {
                assert(all[places.len() as int] == last);
            }
        }
        assert forall|k: int| 0 <= k < all.len() implies 0 <= #[trigger] all[k] < events.len()
            && events[all[k]] is Some by {
            if k < places.len() {
                assert(fewer[places[k]] is Some);
            }
        }
        assert(are_places_of(all, events));
        assert forall|k: int| 0 <= k < all.len() implies (#[trigger] handed_out_by(ids, events)[k])
            == (ids[all[k]], events[all[k]]->0.event) by {
            if k < places.len() {
                assert(before[k] == (ids.drop_last()[places[k]], fewer[places[k]]->0.event));
            }
        }
    }
}

/// Before the time of a frame has come nothing is pushed, unless the queue works ahead of time. When
/// its time has come, it is pushed at once if every input is ready, and when the time has passed if
/// all required ones are; never while a required one is missing.
pub proof fn lemma_when_frames_are_pushed(
    ahead_of_time: bool,
    next_pts: Duration,
    at_start: Duration,
    at_end: Duration,
)
    ensures
        !is_due(false, next_pts, None),
        is_due(false, next_pts, Some(at_start)) <==> at_start.nanos >= next_pts.nanos,
        is_due(true, next_pts, None) && is_due(true, next_pts, Some(at_start)),
        pushes(Readiness::All, next_pts, at_end),
        !pushes(Readiness::Missing, next_pts, at_end),
        pushes(Readiness::Required, next_pts, at_end) <==> at_end.nanos > next_pts.nanos,
{
}

/// An input that was added is there under its name, once; every other input is as it was, and they
/// keep their order.
pub proof fn lemma_added_input_is_there<D>(
    queue: VideoQueue<D>,
    added: VideoEntry<D>,
    shared: Seq<Option<Duration>>,
)
    requires
        queue.wf(shared),
    ensures
        ({
            let entries = queue.with_entry(added);
            &&& entries.contains(added)
            &&& forall|i: int|
                0 <= i < entries.len() && (#[trigger] entries[i]).id@ == added.id@ ==> entries[i]
                    == added
            &&& queue.entries().len() <= entries.len() <= queue.entries().len() + 1
            &&& forall|i: int|
                0 <= i < queue.entries().len() && (#[trigger] queue.entries()[i]).id@ != added.id@
                    ==> entries[i] == queue.entries()[i]
            &&& entries.len() == queue.entries().len() ==> exists|i: int|
                0 <= i < queue.entries().len() && (#[trigger] queue.entries()[i]).id@ == added.id@
        }),
{
    let entries = queue.with_entry(added);
    if queue.has(added.id@) {
        let at = choose|i: int|
            0 <= i < queue.entries().len() && (#[trigger] queue.entries()[i]).id@ == added.id@;
        assert(entries[at] == added);
    } else {
        assert(entries[queue.entries().len() as int] == added);
    }
}

/// What the inputs report is collected input by input: the reports of the first `count` come before
/// those of the next, each under the name of its input and in the order in which it was made.
pub proof fn lemma_reports_are_collected<D>(
    queue: VideoQueue<D>,
    shared: Seq<Option<Duration>>,
    count: int,
)
    requires
        0 <= count < queue.entries().len(),
    ensures
        ({
            let earlier = queue.reported(shared, count);
            let all = queue.reported(shared, count + 1);
            let entry = queue.entries()[count];
            let own = entry.input.model(shared).events;
            &&& all.len() == earlier.len() + own.len()
            &&& all.take(earlier.len() as int) == earlier
            &&& forall|k: int|
                0 <= k < own.len() ==> (#[trigger] all[earlier.len() + k]) == (entry.id, own[k])
            &&& queue.reported(shared, 0).len() == 0
        }),
{
    let earlier = queue.reported(shared, count);
    let all = queue.reported(shared, count + 1);
    assert(all.take(earlier.len() as int) =~= earlier);
}

/// Frames are pushed exactly if the question came at their time or later, or the queue works ahead of
/// time, and either all inputs turned out to be ready, or the required ones did and the time of the
/// frames had passed by then. Before their time the inputs are not even asked.
pub proof fn lemma_push_is_decided_by_time_and_readiness<D>(
    after: VideoQueue<D>,
    before: VideoQueue<D>,
    shared_before: Seq<Option<Duration>>,
    shared: Seq<Option<Duration>>,
    next_pts: Duration,
    queue_start_pts: Duration,
    at_start: Option<Duration>,
    at_end: Duration,
    readiness: Readiness,
    pushed: bool,
)
    requires
        after.decided(
            before,
            shared_before,
            shared,
            next_pts,
            queue_start_pts,
            at_start,
            at_end,
            readiness,
            pushed,
        ),
    ensures
        ({
            let in_time = before.ahead_of_time() || (at_start is Some && at_start->0.nanos
                >= next_pts.nanos);
            &&& pushed <==> in_time && (readiness == Readiness::All || (readiness
                == Readiness::Required && at_end.nanos > next_pts.nanos))
            &&& in_time ==> after.found_ready(
                before,
                shared_before,
                shared,
                next_pts,
                queue_start_pts,
                readiness,
            ) && after.readings() == before.readings().push(at_start).push(Some(at_end))
            &&& !in_time ==> after.entries() == before.entries() && shared == shared_before
                && after.readings() == before.readings().push(at_start)
        }),
{
}

/// Before the start, an input keeps no frame whose time had passed when it looked at the clock.
pub proof fn lemma_no_stale_frame_waits_for_the_start<D>(
    after: VideoQueue<D>,
    before: VideoQueue<D>,
    tables: Seq<Seq<Option<Duration>>>,
    i: int,
)
    requires
        after.dropped_stale(before, tables, i),
    ensures
        exists|elapsed: Duration|
            {
                let input = after.entries()[i].input;
                let left = input.model(tables[i + 1]).queue;
                &&& #[trigger] told_elapsed(before.entries()[i].input.sync_point(), elapsed)
                &&& input.readings() == before.entries()[i].input.readings().push(Some(elapsed))
                &&& left.len() > 0 ==> left[0].pts.nanos >= elapsed.nanos
            },
{
    let input = after.entries()[i].input;
    let earlier = before.entries()[i].input;
    let elapsed = choose|elapsed: Duration|
        {
            &&& elapsed.representable()
            &&& told_elapsed(earlier.sync_point(), elapsed)
            &&& input.readings() == earlier.readings().push(Some(elapsed))
            &&& #[trigger] earlier.model(tables[i]).stale_dropped_to(
                elapsed,
                input.attempts_since(earlier),
                input.model(tables[i + 1]),
            )
        };
    lemma_no_stale_frame_is_left(
        earlier.model(tables[i]),
        elapsed,
        input.attempts_since(earlier),
        input.model(tables[i + 1]),
    );
    assert(told_elapsed(earlier.sync_point(), elapsed));
}

} // verus!
