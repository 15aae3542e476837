//! Decisions of a hardware H.264 decoder: what to do with what arrives, how to step through an
//! access unit, and which decoded pictures are already at hand.

use crate::annexb::{has_nalu, header_follows, lemma_unit_needs_a_header, starts_nalu};
use crate::dmabuf::DmaBufFrame;
use crate::frame::Frame;
use crate::media::{Resolution, VideoResolution};
use crate::time::Duration;
use std::collections::{HashMap, VecDeque};
use std::sync::Arc;
use vstd::prelude::*;

verus! {

broadcast use vstd::std_specs::hash::group_hash_axioms;

/// How many decoded pictures are kept alive.
pub const RETAINED_HANDLE_COUNT: usize = 64;

/// What arrives at a decoder.
#[derive(Debug, Clone, Copy, PartialEq, Eq, Structural)]
pub enum InputKind {
    /// Data. Pictures decoded from data that is not to be presented are dropped.
    Chunk { present: bool },
    /// Data was lost.
    LostData,
    /// An access unit is complete.
    AuDelimiter,
}

/// What happens to the splitter that collects access units.
#[derive(Debug, Clone, Copy, PartialEq, Eq, Structural)]
pub enum SplitterAction {
    /// It takes the data.
    PutChunk,
    /// It is told that data is missing. Nothing is decoded.
    MarkMissing,
    /// It gives what it has.
    Flush,
}

/// What follows on what the splitter did.
#[derive(Debug, Clone, Copy, PartialEq, Eq, Structural)]
pub enum SplitReaction {
    /// The access units that it gave are decoded.
    Decode,
    /// The sender is asked for a keyframe, and nothing is decoded.
    RequestKeyframe,
}

/// What a decoder reports.
#[derive(Debug, Clone, Copy, PartialEq, Eq, Structural)]
pub enum DecoderEvent {
    /// A picture was decoded. `synced` says whether waiting for it succeeded.
    FrameReady { synced: bool },
    /// From here on pictures have another format.
    FormatChanged,
}

/// What follows on an event of the decoder.
#[derive(Debug, Clone, Copy, PartialEq, Eq, Structural)]
pub enum EventReaction {
    HandOn,
    Drop,
    /// Imported pictures belong to the old format and are forgotten.
    ForgetImported,
}

/// What a decoder remembers between inputs.
#[derive(Debug, Clone, Copy, PartialEq, Eq, Structural)]
pub struct DecoderState {
    /// Decoded pictures are dropped.
    pub drop_frames: bool,
}

impl DecoderState {
    /// What is remembered once this has arrived.
    pub open spec fn noted(self, input: InputKind) -> Self {
        match input {
            InputKind::Chunk { present } => DecoderState { drop_frames: !present },
            _ => self,
        }
    }

    /// What follows on an event of the decoder.
    pub open spec fn reacts(self, event: DecoderEvent) -> EventReaction {
        match event {
            DecoderEvent::FrameReady { synced } => if synced && !self.drop_frames {
                EventReaction::HandOn
            } else {
                EventReaction::Drop
            },
            DecoderEvent::FormatChanged => EventReaction::ForgetImported,
        }
    }

    pub fn new() -> (r: Self)
        ensures
            !r.drop_frames,
    {
        DecoderState { drop_frames: false }
    }

    /// Takes note of what arrived and says what happens to it.
    pub fn on_input(&mut self, input: InputKind) -> (r: SplitterAction)
        ensures
            *final(self) == old(self).noted(input),
            final(self).drop_frames == (match input {
                InputKind::Chunk { present } => !present,
                _ => old(self).drop_frames,
            }),
            r == match input {
                InputKind::Chunk { .. } => SplitterAction::PutChunk,
                InputKind::LostData => SplitterAction::MarkMissing,
                InputKind::AuDelimiter => SplitterAction::Flush,
            },
    {
        match input {
            InputKind::Chunk { present } => {
                self.drop_frames = !present;
                SplitterAction::PutChunk
            },
            InputKind::LostData => SplitterAction::MarkMissing,
            InputKind::AuDelimiter => SplitterAction::Flush,
        }
    }

    /// What follows once the splitter has taken data in or given what it has. Where it could not,
    /// the sender is asked to start over with a keyframe.
    pub fn on_split(&self, succeeded: bool) -> (r: SplitReaction)
        ensures
            r == if succeeded {
                SplitReaction::Decode
            } else {
                SplitReaction::RequestKeyframe
            },
    {
        if succeeded {
            SplitReaction::Decode
        } else {
            SplitReaction::RequestKeyframe
        }
    }

    /// What follows on an event of the decoder. A picture that could not be waited for is not handed
    /// on, nor is one that is not to be presented.
    pub fn on_event(&self, event: DecoderEvent) -> (r: EventReaction)
        ensures
            r == self.reacts(event),
            r == match event {
                DecoderEvent::FrameReady { synced } => if synced && !self.drop_frames {
                    EventReaction::HandOn
                } else {
                    EventReaction::Drop
                },
                DecoderEvent::FormatChanged => EventReaction::ForgetImported,
            },
    {
        match event {
            DecoderEvent::FrameReady { synced } => if synced && !self.drop_frames {
                EventReaction::HandOn
            } else {
                EventReaction::Drop
            },
            DecoderEvent::FormatChanged => EventReaction::ForgetImported,
        }
    }
}

/// What came of handing data to the decoder.
#[derive(Debug, Clone, Copy, PartialEq, Eq, Structural)]
pub enum DecodeOutcome {
    /// It took this many bytes.
    Consumed(usize),
    /// It wants its events to be collected first.
    CheckEvents,
    Failed,
}

/// What happens next with an access unit.
#[derive(Debug, Clone, Copy, PartialEq, Eq, Structural)]
pub enum NextStep {
    /// What is left is handed to the decoder.
    Decode,
    /// The events of the decoder are collected, and then what is left is handed to it.
    CollectThenDecode,
    /// The access unit is done, or given up.
    Stop,
}

/// What happens next with an access unit, where `goes_on` says whether there is something left to
/// decode.
pub open spec fn step_after(goes_on: bool, outcome: DecodeOutcome) -> NextStep {
    match outcome {
        DecodeOutcome::Consumed(count) => if count > 0 && goes_on {
            NextStep::Decode
        } else {
            NextStep::Stop
        },
        DecodeOutcome::CheckEvents => if goes_on {
            NextStep::CollectThenDecode
        } else {
            NextStep::Stop
        },
        DecodeOutcome::Failed => NextStep::Stop,
    }
}

/// An access unit goes on only while there is something left, and the decoder takes some of it or wants
/// its events to be collected; only in the latter case are they. A failure ends it.
pub proof fn lemma_when_an_access_unit_goes_on(goes_on: bool, outcome: DecodeOutcome)
    ensures
        step_after(goes_on, outcome) != NextStep::Stop <==> goes_on && outcome
            != DecodeOutcome::Failed && outcome != DecodeOutcome::Consumed(0),
        step_after(goes_on, outcome) == NextStep::CollectThenDecode <==> goes_on && outcome
            == DecodeOutcome::CheckEvents,
{
}

/// How far an access unit has been decoded.
#[derive(Debug)]
pub struct AccessUnit {
    data: Vec<u8>,
    offset: usize,
}

impl AccessUnit {
    pub closed spec fn data(self) -> Seq<u8> {
        self.data@
    }

    /// How many bytes have been taken.
    pub closed spec fn offset(self) -> int {
        self.offset as int
    }

    pub open spec fn wf(self) -> bool {
        0 <= self.offset() <= self.data().len()
    }

    /// What has not been taken.
    pub open spec fn left(self) -> Seq<u8> {
        self.data().skip(self.offset())
    }

    /// There is something left to decode.
    pub open spec fn goes_on(self) -> bool {
        self.left().len() > 0 && starts_nalu(self.left())
    }

    pub fn new(data: Vec<u8>) -> (r: Self)
        ensures
            r.wf(),
            r.data() == data@,
            r.offset() == 0,
    {
        AccessUnit { data, offset: 0 }
    }

    /// What has not been taken.
    pub fn rest(&self) -> (r: &[u8])
        requires
            self.wf(),
        ensures
            r@ == self.left(),
    {
        let r = vstd::slice::slice_subrange(self.data.as_slice(), self.offset, self.data.len());
        assert(r@ =~= self.left());
        r
    }

    /// Whether what is left is handed to the decoder.
    pub fn step(&self) -> (r: NextStep)
        requires
            self.wf(),
        ensures
            r == if self.goes_on() {
                NextStep::Decode
            } else {
                NextStep::Stop
            },
    {
        let rest = self.rest();
        if rest.len() > 0 && has_nalu(rest) {
            NextStep::Decode
        } else {
            NextStep::Stop
        }
    }

    /// Takes note of what came of handing over what is left. A decoder that takes nothing, or fails,
    /// ends the access unit.
    pub fn after(&mut self, outcome: DecodeOutcome) -> (r: NextStep)
        requires
            old(self).wf(),
            outcome matches DecodeOutcome::Consumed(count) ==> count <= old(self).left().len(),
        ensures
            final(self).wf(),
            final(self).data() == old(self).data(),
            final(self).offset() == old(self).offset() + match outcome {
                DecodeOutcome::Consumed(count) => count as int,
                _ => 0,
            },
            r == step_after(final(self).goes_on(), outcome),
            r == match outcome {
                DecodeOutcome::Consumed(count) => if count > 0 && final(self).goes_on() {
                    NextStep::Decode
                } else {
                    NextStep::Stop
                },
                DecodeOutcome::CheckEvents => if final(self).goes_on() {
                    NextStep::CollectThenDecode
                } else {
                    NextStep::Stop
                },
                DecodeOutcome::Failed => NextStep::Stop,
            },
    {
        match outcome {
            DecodeOutcome::Consumed(count) => {
                if count == 0 {
                    return NextStep::Stop;
                }
                let len: usize = self.data.len();
                assert(self.offset + count <= len);
                self.offset = self.offset + count;
                self.step()
            },
            DecodeOutcome::CheckEvents => match self.step() {
                NextStep::Decode => NextStep::CollectThenDecode,
                _ => NextStep::Stop,
            },
            DecodeOutcome::Failed => NextStep::Stop,
        }
    }
}

/// The size of the surfaces to allocate: that of the stream, or the smallest one while it is not
/// known.
pub fn coded_resolution(stream: Option<VideoResolution>) -> (r: VideoResolution)
    ensures
        r == match stream {
            Some(resolution) => resolution,
            None => VideoResolution { width: 16, height: 16 },
        },
{
    match stream {
        Some(resolution) => resolution,
        None => VideoResolution { width: 16, height: 16 },
    }
}

/// A decoded picture as a frame.
pub fn frame_from_dmabuf<X, O>(dmabuf: Arc<DmaBufFrame<X, O>>, pts: Duration) -> (r: Frame<
    DmaBufFrame<X, O>,
>)
    ensures
        r.data == dmabuf,
        r.pts == pts,
        r.resolution == (Resolution {
            width: dmabuf.width as usize,
            height: dmabuf.height as usize,
        }),
{
    let resolution = dmabuf.resolution();
    Frame { data: dmabuf, pts, resolution }
}

/// Decoded pictures: those kept alive, and those that were imported, by surface. `H` keeps a
/// decoded picture alive.
pub struct VaapiDecodedFrameCache<H, X, O> {
    retained_handles: VecDeque<H>,
    imported_frames: HashMap<u32, Arc<DmaBufFrame<X, O>>>,
}

impl<H, X, O> VaapiDecodedFrameCache<H, X, O> {
    /// The pictures kept alive, oldest first.
    pub closed spec fn retained(self) -> Seq<H> {
        self.retained_handles@
    }

    /// The frames that were imported, by surface.
    pub closed spec fn imported(self) -> Map<u32, Arc<DmaBufFrame<X, O>>> {
        self.imported_frames@
    }

    pub open spec fn wf(self) -> bool {
        self.retained().len() <= RETAINED_HANDLE_COUNT
    }

    pub fn new() -> (r: Self)
        ensures
            r.wf(),
            r.retained() == Seq::<H>::empty(),
            r.imported() == Map::<u32, Arc<DmaBufFrame<X, O>>>::empty(),
    {
        VaapiDecodedFrameCache {
            retained_handles: VecDeque::with_capacity(RETAINED_HANDLE_COUNT),
            imported_frames: HashMap::new(),
        }
    }

    /// Whether the picture on this surface was imported.
    pub fn is_imported(&self, surface_id: u32) -> (r: bool)
        ensures
            r == self.imported().dom().contains(surface_id),
    {
        self.imported_frames.contains_key(&surface_id)
    }

    /// The frame for the picture on a surface. Only where the surface was not imported before is
    /// `import` needed: what came of importing it.
    pub fn dmabuf_for_surface(
        &mut self,
        surface_id: u32,
        import: Option<Result<Arc<DmaBufFrame<X, O>>, String>>,
    ) -> (r: Result<Arc<DmaBufFrame<X, O>>, String>)
        requires
            old(self).imported().dom().contains(surface_id) || import is Some,
        ensures
            final(self).retained() == old(self).retained(),
            (final(self).imported(), r) == looked_up(old(self).imported(), surface_id, import),
    {
        if let Some(dmabuf) = self.imported_frames.get(&surface_id) {
            return Ok(Arc::clone(dmabuf));
        }
        match import {
            Some(Ok(dmabuf)) => {
                self.imported_frames.insert(surface_id, Arc::clone(&dmabuf));
                Ok(dmabuf)
            },
            Some(Err(message)) => Err(message),
            None => Err(String::new()),
        }
    }

    /// The frame for a decoded picture. The picture is kept alive, and the oldest one that is kept
    /// is let go where there are too many.
    pub fn frame_from_decoded(
        &mut self,
        surface_id: u32,
        handle: H,
        import: Option<Result<Arc<DmaBufFrame<X, O>>, String>>,
        pts: Duration,
    ) -> (r: Result<Frame<DmaBufFrame<X, O>>, String>)
        requires
            old(self).wf(),
            old(self).imported().dom().contains(surface_id) || import is Some,
        ensures
            final(self).wf(),
            final(self).imported() == looked_up(old(self).imported(), surface_id, import).0,
            r is Ok <==> looked_up(old(self).imported(), surface_id, import).1 is Ok,
            r is Ok ==> r->Ok_0.data == looked_up(old(self).imported(), surface_id, import).1->Ok_0,
            ({
                let known = old(self).imported().dom().contains(surface_id);
                if !known && import->0 is Err {
                    &&& r is Err && r->Err_0 == import->0->Err_0
                    &&& final(self).retained() == old(self).retained()
                    &&& final(self).imported() == old(self).imported()
                } else {
                    let dmabuf = if known {
                        old(self).imported()[surface_id]
                    } else {
                        import->0->Ok_0
                    };
                    &&& r is Ok
                    &&& r->Ok_0.data == dmabuf
                    &&& r->Ok_0.pts == pts
                    &&& r->Ok_0.resolution == (Resolution {
                        width: dmabuf.width as usize,
                        height: dmabuf.height as usize,
                    })
                    &&& final(self).retained() == last_ones(old(self).retained().push(handle))
                    &&& final(self).imported() == if known {
                        old(self).imported()
                    } else {
                        old(self).imported().insert(surface_id, dmabuf)
                    }
                }
            }),
    {
        match self.dmabuf_for_surface(surface_id, import) {
            Ok(dmabuf) => {
                self.retain_handle(handle);
                Ok(frame_from_dmabuf(dmabuf, pts))
            },
            Err(message) => Err(message),
        }
    }

    /// Keeps a decoded picture alive, and lets the oldest one go where there are too many.
    pub fn retain_handle(&mut self, handle: H)
        requires
            old(self).wf(),
        ensures
            final(self).wf(),
            final(self).imported() == old(self).imported(),
            final(self).retained() == last_ones(old(self).retained().push(handle)),
    {
        let ghost before = self.retained();
        self.retained_handles.push_back(handle);
        if self.retained_handles.len() > RETAINED_HANDLE_COUNT {
            let _ = self.retained_handles.pop_front();
            assert(self.retained() =~= last_ones(before.push(handle)));
        } else {
            assert(self.retained() =~= last_ones(before.push(handle)));
        }
    }

    /// Forgets what was imported: the surfaces are different ones now.
    pub fn clear_imported_frames(&mut self)
        ensures
            final(self).retained() == old(self).retained(),
            final(self).imported() == Map::<u32, Arc<DmaBufFrame<X, O>>>::empty(),
    {
        self.imported_frames.clear();
    }
}

/// The newest pictures, as many as are kept alive.
pub open spec fn last_ones<H>(handles: Seq<H>) -> Seq<H> {
    if handles.len() > RETAINED_HANDLE_COUNT {
        handles.skip(handles.len() - RETAINED_HANDLE_COUNT)
    } else {
        handles
    }
}

/// The frame for the picture on a surface, and what is imported then: a surface that was imported
/// before needs no import, and one whose import failed is not remembered.
pub open spec fn looked_up<X, O>(
    imported: Map<u32, Arc<DmaBufFrame<X, O>>>,
    surface_id: u32,
    import: Option<Result<Arc<DmaBufFrame<X, O>>, String>>,
) -> (Map<u32, Arc<DmaBufFrame<X, O>>>, Result<Arc<DmaBufFrame<X, O>>, String>) {
    if imported.dom().contains(surface_id) {
        (imported, Ok(imported[surface_id]))
    } else {
        match import->0 {
            Ok(frame) => (imported.insert(surface_id, frame), Ok(frame)),
            Err(message) => (imported, Err(message)),
        }
    }
}

/// A surface is imported once: after an import that succeeded, asking again gives the same frame,
/// whatever another import would bring, and no other surface is affected.
pub proof fn lemma_surface_is_imported_once<X, O>(
    imported: Map<u32, Arc<DmaBufFrame<X, O>>>,
    surface_id: u32,
    import: Option<Result<Arc<DmaBufFrame<X, O>>, String>>,
    again: Option<Result<Arc<DmaBufFrame<X, O>>, String>>,
    other: u32,
)
    requires
        looked_up(imported, surface_id, import).1 is Ok,
        other != surface_id,
    ensures
        ({
            let (known, frame) = looked_up(imported, surface_id, import);
            &&& looked_up(known, surface_id, again) == (known, frame)
            &&& known.dom().contains(other) <==> imported.dom().contains(other)
            &&& imported.dom().contains(other) ==> known[other] == imported[other]
        }),
{
}

/// What a decoder remembers after a run of inputs.
pub open spec fn remembered(state: DecoderState, inputs: Seq<InputKind>) -> DecoderState
    decreases inputs.len(),
{
    if inputs.len() == 0 {
        state
    } else {
        remembered(state, inputs.drop_last()).noted(inputs.last())
    }
}

/// A picture is handed on exactly if waiting for it succeeded and the last data that arrived is to be
/// presented; lost data and the ends of access units make no difference. Before any data, pictures are
/// handed on.
pub proof fn lemma_last_data_decides(inputs: Seq<InputKind>, synced: bool, last: int)
    requires
        -1 <= last < inputs.len(),
        last >= 0 ==> inputs[last] is Chunk,
        forall|i: int| last < i < inputs.len() ==> !((#[trigger] inputs[i]) is Chunk),
    ensures
        ({
            let state = remembered(DecoderState { drop_frames: false }, inputs);
            let reaction = state.reacts(DecoderEvent::FrameReady { synced });
            let shown = last < 0 || inputs[last]->present;
            &&& synced && shown ==> reaction == EventReaction::HandOn
            &&& !(synced && shown) ==> reaction == EventReaction::Drop
            &&& state.reacts(DecoderEvent::FormatChanged) == EventReaction::ForgetImported
        }),
    decreases inputs.len(),
{
    if inputs.len() > 0 && last < inputs.len() - 1 {
        let before = inputs.drop_last();
        assert(!(inputs[inputs.len() - 1] is Chunk));
        assert forall|i: int| last < i < before.len() implies !((#[trigger] before[i]) is Chunk) by {
            assert(before[i] == inputs[i]);
        }
        lemma_last_data_decides(before, synced, last);
    }
}

/// The newest sixty-four pictures are kept alive, or all where there are fewer, in their order.
pub proof fn lemma_newest_are_kept_alive<H>(handles: Seq<H>, back: int)
    requires
        1 <= back <= last_ones(handles).len(),
    ensures
        handles.len() <= 64 ==> last_ones(handles).len() == handles.len(),
        handles.len() > 64 ==> last_ones(handles).len() == 64,
        last_ones(handles)[last_ones(handles).len() - back] == handles[handles.len() - back],
{
}

/// A surface that was not imported before is shown by what importing it brought, which is remembered for
/// it; where importing failed, the failure is passed on, and nothing is remembered.
pub proof fn lemma_import_is_remembered_if_it_succeeds<X, O>(
    imported: Map<u32, Arc<DmaBufFrame<X, O>>>,
    surface_id: u32,
    import: Result<Arc<DmaBufFrame<X, O>>, String>,
)
    requires
        !imported.dom().contains(surface_id),
    ensures
        ({
            let (known, frame) = looked_up(imported, surface_id, Some(import));
            &&& frame == import
            &&& known.dom().contains(surface_id) <==> import is Ok
            &&& import is Ok ==> known[surface_id] == import->Ok_0
            &&& import is Err ==> known == imported
        }),
{
}

/// An access unit goes on exactly while a start code with something behind it is left in what has not
/// been taken.
pub proof fn lemma_unit_goes_on_while_a_header_is_left(unit: AccessUnit)
    requires
        unit.wf(),
    ensures
        unit.left().len() == unit.data().len() - unit.offset(),
        unit.goes_on() <==> exists|at: int| #[trigger] header_follows(unit.left(), at),
{
    lemma_unit_needs_a_header(unit.left());
}

} // verus!
