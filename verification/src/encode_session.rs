//! What comes out of an encoder, from its first picture to its last.

use crate::encode_run::{next_step, EncodeCall, EncodeStage, EncodeStep};
use crate::h264_encoder::{
    coded_picture, EncoderModel, H264EncoderConfig, PendingEncode, PictureParameter, SliceParameter,
};
use crate::time::Duration;
use vstd::arithmetic::div_mod::{lemma_fundamental_div_mod, lemma_fundamental_div_mod_converse};
use vstd::prelude::*;

verus! {

/// A picture that an encoder was called with.
pub struct GivenPicture {
    pub pts: Duration,
    pub force_keyframe: bool,
}

/// A picture that an encoder returned.
pub struct ReturnedPicture {
    pub pts: Duration,
    pub is_keyframe: bool,
    pub data: Seq<u8>,
}

/// What the hardware was told about a picture.
pub struct ToldPicture {
    pub picture: PictureParameter,
    pub slice: SliceParameter,
}

/// An encoder, the call that it is in, and all that went in and came out.
pub struct Session {
    /// The call that is under way, or the last one.
    pub call: EncodeCall,
    pub stage: EncodeStage,
    pub encoder: EncoderModel,
    /// The parameter sets of the stream.
    pub sets: Seq<u8>,
    pub given: Seq<GivenPicture>,
    pub returned: Seq<ReturnedPicture>,
    /// What the hardware was told about the pictures that went to it.
    pub told: Seq<ToldPicture>,
}

/// What happens to an encoder.
pub enum SessionStep {
    /// It is called with a picture.
    Encode(GivenPicture),
    /// It is told to hand out all that there is.
    Flush,
    /// The call goes on by a step. `oldest_ready` says whether the oldest picture is done, `slices`
    /// is the data of that picture where it is waited for. A picture that goes in is written to
    /// `surface`, where `free` and `allocated` are what there is of surfaces by then.
    Go {
        oldest_ready: bool,
        slices: Seq<u8>,
        surface: u32,
        free: Seq<u32>,
        allocated: int,
    },
}

impl Session {
    /// An encoder that was never called.
    pub open spec fn fresh(config: H264EncoderConfig, sets: Seq<u8>) -> Self {
        Session {
            call: EncodeCall::Flush,
            stage: EncodeStage::Finished,
            encoder: EncoderModel {
                config,
                allocated: 0,
                free: Seq::empty(),
                pending: Seq::empty(),
                retired: Seq::empty(),
                reference: None,
                frames_since_keyframe: 0,
                frame_num: 0,
                idr_pic_id: 0,
            },
            sets,
            given: Seq::empty(),
            returned: Seq::empty(),
            told: Seq::empty(),
        }
    }

    /// A call is made when the one before it has returned.
    pub open spec fn allows(self, step: SessionStep) -> bool {
        step is Go || self.stage == EncodeStage::Finished
    }

    pub open spec fn after(self, step: SessionStep) -> Self {
        match step {
            SessionStep::Encode(picture) => Session {
                call: EncodeCall::Encode,
                stage: EncodeStage::Collecting,
                given: self.given.push(picture),
                ..self
            },
            SessionStep::Flush => Session {
                call: EncodeCall::Flush,
                stage: EncodeStage::Collecting,
                ..self
            },
            SessionStep::Go { oldest_ready, slices, surface, free, allocated } => {
                let (stage, todo) = next_step(self.call, self.stage, self.encoder, oldest_ready);
                match todo {
                    EncodeStep::CompleteOldest => Session {
                        stage,
                        encoder: self.encoder.completed(),
                        returned: self.returned.push(
                            returned_as(self.sets, self.encoder.pending[0], slices),
                        ),
                        ..self
                    },
                    EncodeStep::Submit => {
                        let supplied = EncoderModel { free, allocated, ..self.encoder };
                        let is_keyframe = supplied.keyframe_due(self.given.last().force_keyframe);
                        Session {
                            stage,
                            encoder: supplied.submitted(
                                surface,
                                self.given.last().pts,
                                is_keyframe,
                            ),
                            told: self.told.push(
                                ToldPicture {
                                    picture: supplied.picture(surface, is_keyframe),
                                    slice: supplied.slice(is_keyframe),
                                },
                            ),
                            ..self
                        }
                    },
                    EncodeStep::Return => Session { stage, ..self },
                }
            },
        }
    }

    /// How many pictures went to the hardware: all, but for one whose call has not come so far.
    pub open spec fn submitted(self) -> int {
        if self.call == EncodeCall::Encode && self.stage == EncodeStage::Collecting {
            self.given.len() - 1
        } else {
            self.given.len() as int
        }
    }

    /// The last call was to hand out all that there is, and it has returned.
    pub open spec fn is_flushed(self) -> bool {
        self.call == EncodeCall::Flush && self.stage == EncodeStage::Finished
    }
}

/// How a picture that was waited for is returned.
pub open spec fn returned_as(sets: Seq<u8>, picture: PendingEncode, slices: Seq<u8>) -> ReturnedPicture {
    ReturnedPicture {
        pts: picture.pts,
        is_keyframe: picture.is_keyframe,
        data: coded_picture(sets, slices, picture.is_keyframe),
    }
}

/// What the steps make of an encoder.
pub open spec fn session_after(start: Session, steps: Seq<SessionStep>) -> Session
    decreases steps.len(),
{
    if steps.len() == 0 {
        start
    } else {
        session_after(start, steps.drop_last()).after(steps.last())
    }
}

/// Every step is allowed where it stands.
pub open spec fn is_session(start: Session, steps: Seq<SessionStep>) -> bool
    decreases steps.len(),
{
    steps.len() == 0 || (is_session(start, steps.drop_last()) && session_after(
        start,
        steps.drop_last(),
    ).allows(steps.last()))
}

/// How many pictures, before picture `i`, were encoded since the last keyframe, counting that.
pub open spec fn since_keyframe(given: Seq<GivenPicture>, gop_size: int, i: int) -> int
    decreases i, 0int,
{
    if i <= 0 {
        0
    } else if is_key(given, gop_size, i - 1) {
        1
    } else {
        since_keyframe(given, gop_size, i - 1) + 1
    }
}

/// Picture `i` is a keyframe: it is the first, it was asked to be one, or the group is full.
pub open spec fn is_key(given: Seq<GivenPicture>, gop_size: int, i: int) -> bool
    decreases i, 1int,
{
    i <= 0 || given[i].force_keyframe || since_keyframe(given, gop_size, i) >= gop_size
}

/// The encoder is where it should be after what went in, and has returned what it should have.
pub open spec fn is_regular(session: Session) -> bool {
    let encoder = session.encoder;
    let gop_size = encoder.config.gop_size as int;
    let given = session.given;
    let back = session.returned.len();
    let count = session.submitted();
    &&& gop_size > 0
    &&& 0 <= count
    &&& back + encoder.pending.len() == count
    &&& encoder.reference is Some <==> count > 0
    &&& encoder.frames_since_keyframe == since_keyframe(given, gop_size, count)
    &&& since_keyframe(given, gop_size, count) <= gop_size
    &&& forall|i: int|
        0 <= i < back ==> {
            &&& (#[trigger] session.returned[i]).pts == given[i].pts
            &&& session.returned[i].is_keyframe == is_key(given, gop_size, i)
            &&& session.returned[i].is_keyframe ==> starts_with(
                session.returned[i].data,
                session.sets,
            )
        }
    &&& forall|j: int|
        0 <= j < encoder.pending.len() ==> {
            &&& (#[trigger] encoder.pending[j]).pts == given[back + j].pts
            &&& encoder.pending[j].is_keyframe == is_key(given, gop_size, back + j)
        }
    &&& session.is_flushed() ==> encoder.pending.len() == 0
}

/// The data starts with these bytes.
pub open spec fn starts_with(data: Seq<u8>, prefix: Seq<u8>) -> bool {
    prefix.len() <= data.len() && data.take(prefix.len() as int) == prefix
}

/// Whether a picture is a keyframe does not depend on later pictures.
proof fn lemma_kinds_are_settled(given: Seq<GivenPicture>, more: GivenPicture, gop_size: int, i: int)
    requires
        0 <= i <= given.len(),
    ensures
        since_keyframe(given.push(more), gop_size, i) == since_keyframe(given, gop_size, i),
        i < given.len() ==> is_key(given.push(more), gop_size, i) == is_key(given, gop_size, i),
    decreases i,
{
    if i > 0 {
        lemma_kinds_are_settled(given, more, gop_size, i - 1);
    }
}

/// The data of a keyframe starts with the parameter sets.
pub proof fn lemma_keyframe_starts_with_parameter_sets(sets: Seq<u8>, slices: Seq<u8>)
    ensures
        starts_with(coded_picture(sets, slices, true), sets),
{
    assert(coded_picture(sets, slices, true).take(sets.len() as int) =~= sets);
}

proof fn lemma_stays_regular(session: Session, step: SessionStep)
    requires
        is_regular(session),
        session.allows(step),
    ensures
        is_regular(session.after(step)),
        session.after(step).encoder.config == session.encoder.config,
        session.after(step).sets == session.sets,
{
    let next = session.after(step);
    let encoder = session.encoder;
    let gop_size = encoder.config.gop_size as int;
    let given = session.given;
    let count = session.submitted();
    match step {
        SessionStep::Encode(picture) => {
            assert forall|i: int| 0 <= i <= given.len() implies since_keyframe(
                next.given,
                gop_size,
                i,
            ) == #[trigger] since_keyframe(given, gop_size, i) by {
                lemma_kinds_are_settled(given, picture, gop_size, i);
            }
            assert forall|i: int| 0 <= i < given.len() implies is_key(next.given, gop_size, i)
                == #[trigger] is_key(given, gop_size, i) && next.given[i] == given[i] by {
                lemma_kinds_are_settled(given, picture, gop_size, i);
            }
            assert(next.submitted() == count);
        },
        SessionStep::Flush => {},
        SessionStep::Go { oldest_ready, slices, surface, free, allocated } => {
            let (stage, todo) = next_step(session.call, session.stage, encoder, oldest_ready);
            match todo {
                EncodeStep::CompleteOldest => {
                    let done = encoder.pending[0];
                    assert(next.encoder.pending == encoder.pending.drop_first());
                    assert(done.pts == given[session.returned.len() as int].pts);
                    if done.is_keyframe {
                        lemma_keyframe_starts_with_parameter_sets(session.sets, slices);
                    }
                    assert forall|j: int| 0 <= j < next.encoder.pending.len() implies {
                        &&& (#[trigger] next.encoder.pending[j]).pts
                            == given[next.returned.len() + j].pts
                        &&& next.encoder.pending[j].is_keyframe == is_key(
                            given,
                            gop_size,
                            next.returned.len() + j,
                        )
                    } by {
                        assert(next.encoder.pending[j] == encoder.pending[j + 1]);
                    }
                },
                EncodeStep::Submit => {
                    let supplied = EncoderModel { free, allocated, ..encoder };
                    let picture = given.last();
                    let is_keyframe = supplied.keyframe_due(picture.force_keyframe);
                    assert(picture == given[count]);
                    assert(is_keyframe == is_key(given, gop_size, count));
                    assert(next.submitted() == count + 1);
                    assert(next.encoder.pending.len() == encoder.pending.len() + 1);
                    assert(forall|j: int|
                        0 <= j < encoder.pending.len() ==> next.encoder.pending[j]
                            == encoder.pending[j]);
                },
                EncodeStep::Return => {},
            }
        },
    }
}

/// Picture `j` is a keyframe, and no picture after it up to picture `i` is: the group of picture `i`
/// starts with it.
pub open spec fn starts_group(told: Seq<ToldPicture>, j: int, i: int) -> bool {
    &&& 0 <= j <= i < told.len()
    &&& told[j].picture.is_idr
    &&& forall|k: int| j < k <= i ==> !(#[trigger] told[k]).picture.is_idr
}

/// How many of the first `count` pictures are keyframes.
pub open spec fn keyframes(told: Seq<ToldPicture>, count: int) -> int
    decreases count,
{
    if count <= 0 {
        0
    } else {
        keyframes(told, count - 1) + if told[count - 1].picture.is_idr {
            1int
        } else {
            0
        }
    }
}

/// What the hardware was told about picture `i`, whose group starts with picture `j`.
pub open spec fn is_numbered(told: Seq<ToldPicture>, j: int, i: int) -> bool {
    let ToldPicture { picture, slice } = told[i];
    &&& picture.frame_num == (i - j) % 65_536
    &&& picture.current.frame_num == (i - j) % 65_536
    &&& picture.current.poc == 2 * (i - j) % 65_536
    &&& slice.poc == 2 * (i - j) % 65_536
    &&& slice.idr_pic_id == keyframes(told, i) % 65_536
    &&& picture.is_reference
    &&& i == j ==> {
        &&& picture.reference is None && slice.reference is None
        &&& slice.slice_type == 2
        &&& !slice.override_reference_count
    }
    &&& i > j ==> {
        &&& picture.reference == Some(told[i - 1].picture.current)
        &&& slice.reference == Some(told[i - 1].picture.current)
        &&& slice.slice_type == 0
        &&& slice.override_reference_count
    }
}

/// The encoder is where the pictures that went to the hardware have brought it.
pub open spec fn is_counted(session: Session) -> bool {
    let encoder = session.encoder;
    let told = session.told;
    let count = told.len() as int;
    &&& encoder.config.gop_size > 0
    &&& count == session.submitted()
    &&& encoder.idr_pic_id == keyframes(told, count) % 65_536
    &&& encoder.reference is Some <==> count > 0
    &&& count > 0 ==> {
        &&& told[0].picture.is_idr
        &&& encoder.reference->0 == told[count - 1].picture.current
        &&& exists|j: int| #[trigger] starts_group(told, j, count - 1)
    }
    &&& forall|j: int| #[trigger]
        starts_group(told, j, count - 1) ==> {
            &&& encoder.frame_num == (count - j) % 65_536
            &&& encoder.frames_since_keyframe == count - j
            &&& count - j <= encoder.config.gop_size
        }
    &&& forall|j: int, i: int| #[trigger] starts_group(told, j, i) ==> is_numbered(told, j, i)
    &&& forall|j: int, i: int| #[trigger]
        starts_group(told, j, i) && i + 1 < told.len() ==> (told[i + 1].picture.is_idr
            <==> session.given[i + 1].force_keyframe || i + 1 - j >= encoder.config.gop_size)
    &&& forall|i: int|
        0 <= i < session.returned.len() ==> (#[trigger] session.returned[i]).is_keyframe
            == told[i].picture.is_idr
    &&& forall|i: int|
        0 <= i < encoder.pending.len() ==> (#[trigger] encoder.pending[i]).is_keyframe
            == told[session.returned.len() + i].picture.is_idr
    &&& session.returned.len() + encoder.pending.len() == count
}

proof fn lemma_keyframes_are_settled(told: Seq<ToldPicture>, more: ToldPicture, count: int)
    requires
        count <= told.len(),
    ensures
        keyframes(told.push(more), count) == keyframes(told, count),
    decreases count,
{
    if count > 0 {
        lemma_keyframes_are_settled(told, more, count - 1);
    }
}

/// A picture goes to the hardware.
proof fn lemma_submit_counts(session: Session, step: SessionStep)
    requires
        is_counted(session),
        step is Go,
        next_step(
            session.call,
            session.stage,
            session.encoder,
            step->oldest_ready,
        ).1 == EncodeStep::Submit,
    ensures
        is_counted(session.after(step)),
{
    let next = session.after(step);
    let encoder = session.encoder;
    let told = session.told;
    let count = told.len() as int;
    let more = next.told[count];
    let all = next.told;
    assert(all == told.push(more));
    assert(session.given.len() == count + 1);
    let is_keyframe = more.picture.is_idr;
    assert forall|k: int| k <= count implies #[trigger] keyframes(all, k) == keyframes(told, k) by {
        lemma_keyframes_are_settled(told, more, k);
    }
    assert(keyframes(all, count + 1) == keyframes(all, count) + if is_keyframe {
        1int
    } else {
        0
    });
    assert forall|j: int, i: int| i < count && #[trigger] starts_group(all, j, i) implies
    starts_group(told, j, i) by {
        assert forall|k: int| j < k <= i implies !(#[trigger] told[k]).picture.is_idr by {
            assert(all[k] == told[k]);
        }
    }
    assert forall|j: int, i: int| #[trigger] starts_group(all, j, i) implies is_numbered(
        all,
        j,
        i,
    ) by {
        if i < count {
            assert(starts_group(told, j, i));
            assert(is_numbered(told, j, i));
        } else if j < count {
            assert(!all[count].picture.is_idr);
            assert forall|k: int| j < k <= count - 1 implies !(#[trigger] told[k]).picture.is_idr by {
                assert(all[k] == told[k]);
            }
            assert(starts_group(told, j, count - 1));
        }
    }
    assert forall|j: int, i: int| #[trigger]
        starts_group(all, j, i) && i + 1 < all.len() implies (all[i + 1].picture.is_idr
        <==> next.given[i + 1].force_keyframe || i + 1 - j >= encoder.config.gop_size) by {
        assert(starts_group(told, j, i));
    }
    assert forall|j: int| #[trigger] starts_group(all, j, count) implies {
        &&& next.encoder.frame_num == (count + 1 - j) % 65_536
        &&& next.encoder.frames_since_keyframe == count + 1 - j
        &&& count + 1 - j <= encoder.config.gop_size
    } by {
        if j < count {
            assert(!all[count].picture.is_idr);
            assert forall|k: int| j < k <= count - 1 implies !(#[trigger] told[k]).picture.is_idr by {
                assert(all[k] == told[k]);
            }
            assert(starts_group(told, j, count - 1));
        }
    }
    if is_keyframe {
        assert(starts_group(all, count, count));
    } else {
        let j = choose|j: int| #[trigger] starts_group(told, j, count - 1);
        assert forall|k: int| j < k <= count implies !(#[trigger] all[k]).picture.is_idr by {
            if k < count {
                assert(told[k] == all[k]);
            }
        }
        assert(starts_group(all, j, count));
    }
    if count > 0 {
        assert(all[0] == told[0]);
    }
    assert(forall|i: int| 0 <= i < count ==> told[i] == all[i]);
    assert(forall|i: int|
        0 <= i < encoder.pending.len() ==> next.encoder.pending[i] == encoder.pending[i]);
}

proof fn lemma_stays_counted(session: Session, step: SessionStep)
    requires
        is_counted(session),
        session.allows(step),
    ensures
        is_counted(session.after(step)),
{
    let next = session.after(step);
    match step {
        SessionStep::Encode(picture) => {
            assert forall|j: int, i: int| #[trigger]
                starts_group(next.told, j, i) && i + 1 < next.told.len() implies (next.told[i
                + 1].picture.is_idr <==> next.given[i + 1].force_keyframe || i + 1 - j
                >= next.encoder.config.gop_size) by {
                assert(starts_group(session.told, j, i));
                assert(next.given[i + 1] == session.given[i + 1]);
            }
        },
        SessionStep::Flush => {},
        SessionStep::Go { oldest_ready, slices, surface, free, allocated } => {
            let (stage, todo) = next_step(
                session.call,
                session.stage,
                session.encoder,
                oldest_ready,
            );
            match todo {
                EncodeStep::CompleteOldest => {
                    assert(next.encoder.pending == session.encoder.pending.drop_first());
                    assert forall|i: int| 0 <= i < next.encoder.pending.len() implies (
                    #[trigger] next.encoder.pending[i]).is_keyframe == next.told[next.returned.len()
                        + i].picture.is_idr by {
                        assert(next.encoder.pending[i] == session.encoder.pending[i + 1]);
                    }
                },
                EncodeStep::Submit => {
                    lemma_submit_counts(session, step);
                },
                EncodeStep::Return => {},
            }
        },
    }
}

proof fn lemma_session_is_counted(start: Session, steps: Seq<SessionStep>)
    requires
        is_session(start, steps),
        is_counted(start),
    ensures
        is_counted(session_after(start, steps)),
        session_after(start, steps).encoder.config == start.encoder.config,
    decreases steps.len(),
{
    if steps.len() > 0 {
        lemma_session_is_counted(start, steps.drop_last());
        lemma_stays_counted(session_after(start, steps.drop_last()), steps.last());
    }
}

/// Whatever was called so far: a picture that lies `k` behind the keyframe of its group is told to the
/// hardware with the number `k` and the order `2 k`, both counted in 16 bits, a keyframe with none; so
/// both go up from picture to picture. It refers to the picture before it, with the numbers that this
/// one was told with, and a keyframe to none. Keyframes are numbered one after the other. The first
/// picture is a keyframe, and a later one if and only if it was asked to be or its group is full.
pub proof fn lemma_pictures_are_numbered(
    config: H264EncoderConfig,
    sets: Seq<u8>,
    steps: Seq<SessionStep>,
)
    requires
        config.gop_size > 0,
        is_session(Session::fresh(config, sets), steps),
    ensures
        ({
            let session = session_after(Session::fresh(config, sets), steps);
            let told = session.told;
            &&& told.len() > 0 ==> told[0].picture.is_idr
            &&& session.returned.len() <= told.len() <= session.given.len()
            &&& forall|i: int|
                0 <= i < session.returned.len() ==> (#[trigger] session.returned[i]).is_keyframe
                    == told[i].picture.is_idr
            &&& forall|j: int, i: int| #[trigger]
                starts_group(told, j, i) ==> {
                    let k = i - j;
                    let before = told[i - 1].picture.current;
                    &&& told[i].picture.frame_num == k % 65_536
                    &&& told[i].picture.current.frame_num == k % 65_536
                    &&& told[i].picture.current.poc == 2 * k % 65_536
                    &&& told[i].slice.poc == 2 * k % 65_536
                    &&& told[i].slice.idr_pic_id == keyframes(told, i) % 65_536
                    &&& told[i].picture.reference == if k == 0 {
                        None
                    } else {
                        Some(before)
                    }
                    &&& told[i].slice.reference == told[i].picture.reference
                    &&& told[i].slice.slice_type == if k == 0 {
                        2int
                    } else {
                        0
                    }
                    &&& k > 0 ==> before.frame_num == (k - 1) % 65_536 && before.poc == 2 * (k - 1)
                        % 65_536
                    &&& k < config.gop_size
                }
            &&& forall|j: int, i: int| #[trigger]
                starts_group(told, j, i) && i + 1 < told.len() ==> (told[i + 1].picture.is_idr
                    <==> session.given[i + 1].force_keyframe || i + 1 - j == config.gop_size)
        }),
{
    let start = Session::fresh(config, sets);
    assert(is_counted(start)) by {
        assert(keyframes(start.told, 0) == 0);
    }
    lemma_session_is_counted(start, steps);
    let session = session_after(start, steps);
    let told = session.told;
    assert forall|j: int, i: int| #[trigger] starts_group(told, j, i) implies {
        let k = i - j;
        let before = told[i - 1].picture.current;
        &&& k > 0 ==> before.frame_num == (k - 1) % 65_536 && before.poc == 2 * (k - 1) % 65_536
        &&& k < config.gop_size
    } by {
        assert(is_numbered(told, j, i));
        if i > j {
            assert(starts_group(told, j, i - 1));
            assert(is_numbered(told, j, i - 1));
            assert(!told[i].picture.is_idr);
        }
    }
    assert forall|j: int, i: int| #[trigger]
        starts_group(told, j, i) && i + 1 < told.len() implies (told[i + 1].picture.is_idr
        <==> session.given[i + 1].force_keyframe || i + 1 - j == config.gop_size) by {
        assert(is_numbered(told, j, i));
    }
}

proof fn lemma_session_is_regular(start: Session, steps: Seq<SessionStep>)
    requires
        is_session(start, steps),
        is_regular(start),
    ensures
        is_regular(session_after(start, steps)),
        session_after(start, steps).encoder.config == start.encoder.config,
        session_after(start, steps).sets == start.sets,
    decreases steps.len(),
{
    if steps.len() > 0 {
        lemma_session_is_regular(start, steps.drop_last());
        lemma_stays_regular(session_after(start, steps.drop_last()), steps.last());
    }
}

/// Whatever was called so far, pictures come back in the order in which they went in, each with its
/// own time. The first is a keyframe, and so is each that was asked to be one or that finds its group
/// full; no other is. The data of keyframes starts with the parameter sets.
pub proof fn lemma_pictures_come_back_in_order(
    config: H264EncoderConfig,
    sets: Seq<u8>,
    steps: Seq<SessionStep>,
)
    requires
        config.gop_size > 0,
        is_session(Session::fresh(config, sets), steps),
    ensures
        ({
            let session = session_after(Session::fresh(config, sets), steps);
            &&& session.returned.len() <= session.given.len()
            &&& forall|i: int|
                0 <= i < session.returned.len() ==> {
                    &&& (#[trigger] session.returned[i]).pts == session.given[i].pts
                    &&& session.returned[i].is_keyframe <==> is_key(
                        session.given,
                        config.gop_size as int,
                        i,
                    )
                    &&& session.returned[i].is_keyframe ==> starts_with(
                        session.returned[i].data,
                        sets,
                    )
                }
        }),
{
    lemma_session_is_regular(Session::fresh(config, sets), steps);
}

/// When all that there is has been handed out, as many pictures have come back as went in.
pub proof fn lemma_flush_returns_every_picture(
    config: H264EncoderConfig,
    sets: Seq<u8>,
    steps: Seq<SessionStep>,
)
    requires
        config.gop_size > 0,
        is_session(Session::fresh(config, sets), steps),
        session_after(Session::fresh(config, sets), steps).is_flushed(),
    ensures
        ({
            let session = session_after(Session::fresh(config, sets), steps);
            session.returned.len() == session.given.len()
        }),
{
    lemma_session_is_regular(Session::fresh(config, sets), steps);
}

/// Where no picture is asked to be a keyframe, every group has its full size: the keyframes are the
/// pictures whose number is a multiple of it.
pub proof fn lemma_groups_are_full(given: Seq<GivenPicture>, gop_size: int, i: int)
    requires
        gop_size > 0,
        0 <= i < given.len(),
        forall|k: int| 0 <= k < given.len() ==> !(#[trigger] given[k]).force_keyframe,
    ensures
        is_key(given, gop_size, i) <==> i % gop_size == 0,
        i > 0 ==> since_keyframe(given, gop_size, i) == (i - 1) % gop_size + 1,
    decreases i,
{
    if i == 0 {
        lemma_fundamental_div_mod_converse(0, gop_size, 0, 0);
    } else {
        lemma_groups_are_full(given, gop_size, i - 1);
        lemma_next_remainder(i - 1, gop_size);
        if i > 1 {
            lemma_next_remainder(i - 2, gop_size);
        } else {
            lemma_fundamental_div_mod_converse(0, gop_size, 0, 0);
        }
        assert(!given[i].force_keyframe);
    }
}

proof fn lemma_next_remainder(i: int, n: int)
    requires
        i >= 0,
        n > 0,
    ensures
        0 <= i % n < n,
        (i + 1) % n == if i % n == n - 1 {
            0
        } else {
            i % n + 1
        },
{
    let q = i / n;
    let r = i % n;
    lemma_fundamental_div_mod(i, n);
    if r == n - 1 {
        assert(i + 1 == (q + 1) * n + 0) by (nonlinear_arith)
            requires
                i == n * q + r,
                r == n - 1,
        ;
        lemma_fundamental_div_mod_converse(i + 1, n, q + 1, 0);
    } else {
        assert(i + 1 == q * n + (r + 1)) by (nonlinear_arith)
            requires
                i == n * q + r,
        ;
        lemma_fundamental_div_mod_converse(i + 1, n, q, r + 1);
    }
}

} // verus!
