//! Decisions of a hardware H.264 encoder: what kind each picture is, which surfaces it uses, and
//! when a surface may be used again.
//!
//! Surfaces are known by numbers that are handed out here. Whoever talks to the hardware keeps the
//! surface that belongs to each number.

use crate::encode_session::{returned_as, ReturnedPicture};
use crate::h264_parameter_sets::{
    at_least_one, codable_side, crop_units, doubled_clamped, macroblocks_over, H264_LEVEL_4_0,
    LOG2_MAX_FRAME_NUM_MINUS4, LOG2_MAX_PIC_ORDER_CNT_LSB_MINUS4,
};
use crate::h264_parameter_sets::h264_main_parameter_sets;
use crate::media::{Framerate, Resolution};
use crate::shared_bytes::{bytes_as_slice, bytes_contents, bytes_from_vec};
use crate::time::Duration;
use std::collections::VecDeque;
use vstd::prelude::*;

verus! {

/// How many surfaces are allocated at a time.
pub const RECONSTRUCTED_SURFACE_ALLOCATION_BATCH: usize = 4;

/// The least room for an encoded picture.
pub const DEFAULT_CODED_BUFFER_SIZE: usize = 1_500_000;

/// How an encoder is set up.
#[derive(Debug, Clone, Copy, PartialEq, Eq, Structural)]
pub struct H264EncoderConfig {
    pub resolution: Resolution,
    pub bitrate: u32,
    /// A keyframe comes at least every `gop_size` pictures.
    pub gop_size: u16,
    pub framerate: Framerate,
    /// How many pictures may be with the hardware at a time.
    pub max_pending_frames: usize,
}

/// The picture that the next one may refer to.
#[derive(Debug, Clone, Copy, PartialEq, Eq, Structural)]
pub struct EncodedReference {
    pub surface: u32,
    pub frame_num: u16,
    pub poc: u16,
}

/// A picture that is with the hardware.
#[derive(Debug, Clone, Copy, PartialEq, Eq, Structural)]
pub struct PendingEncode {
    /// The surface that receives the reconstructed picture.
    pub reconstructed: u32,
    /// The surface that the picture refers to. It is free once the picture is done.
    pub retired_after_sync: Option<u32>,
    pub pts: Duration,
    pub is_keyframe: bool,
}

/// What an encoder is, seen from outside.
pub struct EncoderModel {
    pub config: H264EncoderConfig,
    /// How many surface numbers have been handed out.
    pub allocated: int,
    /// Surfaces that the next picture may be written to.
    pub free: Seq<u32>,
    /// Pictures that are with the hardware, oldest first.
    pub pending: Seq<PendingEncode>,
    /// Surfaces that are free once the picture that is written to them is done.
    pub retired: Seq<u32>,
    pub reference: Option<EncodedReference>,
    pub frames_since_keyframe: u16,
    pub frame_num: u16,
    pub idr_pic_id: u16,
}

/// The number after `value`, where numbers start over at the end.
pub open spec fn next_u16(value: u16) -> u16 {
    if value == u16::MAX {
        0
    } else {
        (value + 1) as u16
    }
}

/// Twice `value`, where numbers start over at the end.
pub open spec fn twice_u16(value: u16) -> u16 {
    (2 * value % 0x1_0000) as u16
}

impl EncoderModel {
    /// The next picture is a keyframe: on demand, where there is nothing to refer to, and at the
    /// end of a group of pictures.
    pub open spec fn keyframe_due(self, force_keyframe: bool) -> bool {
        force_keyframe || self.reference is None || self.frames_since_keyframe
            >= self.config.gop_size
    }

    pub open spec fn frame_num_for(self, is_keyframe: bool) -> u16 {
        if is_keyframe {
            0
        } else {
            self.frame_num
        }
    }

    pub open spec fn poc_for(self, is_keyframe: bool) -> u16 {
        twice_u16(self.frame_num_for(is_keyframe))
    }

    /// A picture that is with the hardware is written to this surface.
    pub open spec fn producer_is_pending(self, surface: u32) -> bool {
        exists|i: int|
            0 <= i < self.pending.len() && (#[trigger] self.pending[i]).reconstructed == surface
    }

    /// A picture that is with the hardware refers to this surface.
    pub open spec fn reader_is_pending(self, surface: u32) -> bool {
        exists|i: int|
            0 <= i < self.pending.len() && (#[trigger] self.pending[i]).retired_after_sync == Some(
                surface,
            )
    }

    /// The next picture may refer to this surface.
    pub open spec fn is_reference(self, surface: u32) -> bool {
        self.reference is Some && self.reference->0.surface == surface
    }

    /// A surface that was taken to be written to: nobody else knows of it.
    pub open spec fn unowned(self, surface: u32) -> bool {
        &&& surface < self.allocated
        &&& !self.free.contains(surface)
        &&& !self.retired.contains(surface)
        &&& !self.is_reference(surface)
        &&& !self.reader_is_pending(surface)
        &&& !self.producer_is_pending(surface)
    }

    /// Every surface has one owner, and what the hardware writes to or reads from is not free.
    pub open spec fn wf(self) -> bool {
        &&& self.config.gop_size > 0
        &&& self.free.no_duplicates()
        &&& self.retired.no_duplicates()
        &&& forall|surface: u32| #[trigger] self.free.contains(surface) ==> {
            &&& surface < self.allocated
            &&& !self.retired.contains(surface)
            &&& !self.is_reference(surface)
            &&& !self.reader_is_pending(surface)
            &&& !self.producer_is_pending(surface)
        }
        &&& forall|surface: u32| #[trigger] self.retired.contains(surface) ==> {
            &&& surface < self.allocated
            &&& !self.is_reference(surface)
            &&& !self.reader_is_pending(surface)
        }
        &&& self.reference is Some ==> {
            &&& self.reference->0.surface < self.allocated
            &&& !self.reader_is_pending(self.reference->0.surface)
        }
        &&& forall|i: int| 0 <= i < self.pending.len() ==> {
            &&& (#[trigger] self.pending[i]).reconstructed < self.allocated
            &&& self.pending[i].retired_after_sync is Some
                ==> self.pending[i].retired_after_sync->0 < self.allocated
        }
        &&& forall|i: int, j: int|
            0 <= i < j < self.pending.len() ==> {
                &&& (#[trigger] self.pending[i]).reconstructed != (
                #[trigger] self.pending[j]).reconstructed
                &&& self.pending[j].retired_after_sync is Some
                    ==> self.pending[i].retired_after_sync != self.pending[j].retired_after_sync
                &&& self.pending[i].retired_after_sync != Some(self.pending[j].reconstructed)
            }
        &&& forall|i: int|
            0 <= i < self.pending.len() ==> (#[trigger] self.pending[i]).retired_after_sync != Some(
                self.pending[i].reconstructed,
            )
    }

    /// The picture written to `surface` becomes the one that the next may refer to.
    pub open spec fn rotated(self, surface: u32, is_keyframe: bool) -> Self {
        EncoderModel {
            reference: Some(
                EncodedReference {
                    surface,
                    frame_num: self.frame_num_for(is_keyframe),
                    poc: self.poc_for(is_keyframe),
                },
            ),
            frame_num: if is_keyframe {
                1
            } else {
                next_u16(self.frame_num)
            },
            idr_pic_id: if is_keyframe {
                next_u16(self.idr_pic_id)
            } else {
                self.idr_pic_id
            },
            frames_since_keyframe: if is_keyframe {
                1
            } else if self.frames_since_keyframe == u16::MAX {
                u16::MAX
            } else {
                (self.frames_since_keyframe + 1) as u16
            },
            ..self
        }
    }

    /// A picture that is written to `surface` went to the hardware. The surface of the picture
    /// before it is kept as long as it is read or written.
    pub open spec fn submitted(self, surface: u32, pts: Duration, is_keyframe: bool) -> Self {
        let rotated = self.rotated(surface, is_keyframe);
        let pending = PendingEncode {
            reconstructed: surface,
            retired_after_sync: if !is_keyframe && self.reference is Some {
                Some(self.reference->0.surface)
            } else {
                None
            },
            pts,
            is_keyframe,
        };
        let with_picture = EncoderModel { pending: self.pending.push(pending), ..rotated };
        if !is_keyframe || self.reference is None {
            with_picture
        } else if self.producer_is_pending(self.reference->0.surface) {
            EncoderModel { retired: self.retired.push(self.reference->0.surface), ..with_picture }
        } else {
            EncoderModel { free: self.free.push(self.reference->0.surface), ..with_picture }
        }
    }

    /// The surface is free, if it was kept only for the picture that is written to it. The last of
    /// the surfaces that are kept so takes its place.
    pub open spec fn released(self, surface: u32) -> Self {
        if self.retired.contains(surface) {
            EncoderModel {
                retired: self.retired.update(
                    self.retired.index_of(surface),
                    self.retired.last(),
                ).drop_last(),
                free: self.free.push(surface),
                ..self
            }
        } else {
            self
        }
    }

    /// The oldest picture was given up, and the surface that it was reading with it.
    pub open spec fn without_oldest(self) -> Self {
        EncoderModel { pending: self.pending.drop_first(), ..self }
    }

    /// The oldest picture is done: what it alone was reading or writing is free.
    pub open spec fn completed(self) -> Self {
        let done = self.pending[0];
        let rest = self.without_oldest();
        let read = match done.retired_after_sync {
            Some(surface) => EncoderModel { free: rest.free.push(surface), ..rest },
            None => rest,
        };
        read.released(done.reconstructed)
    }
}

/// The decisions of an encoder.
pub struct IntelVaapiH264Encoder {
    config: H264EncoderConfig,
    allocated: u32,
    free_reconstructed_surfaces: Vec<u32>,
    pending: VecDeque<PendingEncode>,
    retired_after_producer: Vec<u32>,
    reference: Option<EncodedReference>,
    frames_since_keyframe: u16,
    frame_num: u16,
    idr_pic_id: u16,
}

impl IntelVaapiH264Encoder {
    pub closed spec fn model(self) -> EncoderModel {
        EncoderModel {
            config: self.config,
            allocated: self.allocated as int,
            free: self.free_reconstructed_surfaces@,
            pending: self.pending@,
            retired: self.retired_after_producer@,
            reference: self.reference,
            frames_since_keyframe: self.frames_since_keyframe,
            frame_num: self.frame_num,
            idr_pic_id: self.idr_pic_id,
        }
    }

    pub open spec fn wf(self) -> bool {
        self.model().wf()
    }

    /// An encoder that has encoded nothing. A group of pictures has at least one.
    pub fn new(config: H264EncoderConfig) -> (r: Self)
        ensures
            r.wf(),
            r.model() == (EncoderModel {
                config: H264EncoderConfig {
                    gop_size: if config.gop_size == 0 {
                        1
                    } else {
                        config.gop_size
                    },
                    ..config
                },
                allocated: 0,
                free: Seq::<u32>::empty(),
                pending: Seq::<PendingEncode>::empty(),
                retired: Seq::<u32>::empty(),
                reference: None,
                frames_since_keyframe: 0,
                frame_num: 0,
                idr_pic_id: 0,
            }),
    {
        let gop_size: u16 = if config.gop_size == 0 {
            1
        } else {
            config.gop_size
        };
        IntelVaapiH264Encoder {
            config: H264EncoderConfig { gop_size, ..config },
            allocated: 0,
            free_reconstructed_surfaces: Vec::new(),
            pending: VecDeque::new(),
            retired_after_producer: Vec::new(),
            reference: None,
            frames_since_keyframe: 0,
            frame_num: 0,
            idr_pic_id: 0,
        }
    }

    /// Whether the next picture is a keyframe.
    pub fn is_keyframe_due(&self, force_keyframe: bool) -> (r: bool)
        ensures
            r == self.model().keyframe_due(force_keyframe),
    {
        force_keyframe || self.reference.is_none() || self.frames_since_keyframe
            >= self.config.gop_size
    }

    /// A surface for the next picture, if one is free.
    pub fn take_reconstructed_surface(&mut self) -> (r: Option<u32>)
        requires
            old(self).wf(),
        ensures
            final(self).wf(),
            match r {
                Some(surface) => {
                    &&& old(self).model().free.len() > 0
                    &&& surface == old(self).model().free.last()
                    &&& final(self).model() == (EncoderModel {
                        free: old(self).model().free.drop_last(),
                        ..old(self).model()
                    })
                    &&& final(self).model().unowned(surface)
                },
                None => old(self).model().free.len() == 0 && final(self).model() == old(self).model(),
            },
    {
        let ghost before = self.model();
        let r = self.free_reconstructed_surfaces.pop();
        proof {
            if r is Some {
                assert(self.model().free =~= before.free.drop_last());
                lemma_taken_wf(before);
            } else {
                assert(self.model().free =~= before.free);
            }
        }
        r
    }

    /// Takes in `created` new surfaces, where one was wanted and none was free. The last of them is
    /// taken for the next picture; the numbers of the others follow on those handed out before.
    pub fn add_surfaces(&mut self, created: u32) -> (r: Result<u32, String>)
        requires
            old(self).wf(),
            old(self).model().allocated + created <= u32::MAX,
        ensures
            final(self).wf(),
            match r {
                Ok(surface) => {
                    &&& created > 0
                    &&& surface == old(self).model().allocated + created - 1
                    &&& final(self).model() == (EncoderModel {
                        allocated: old(self).model().allocated + created,
                        free: old(self).model().free + Seq::new(
                            (created - 1) as nat,
                            |i: int| (old(self).model().allocated + i) as u32,
                        ),
                        ..old(self).model()
                    })
                    &&& final(self).model().unowned(surface)
                },
                Err(message) => {
                    &&& created == 0
                    &&& message@ == "VA-API returned no reconstructed surface"@
                    &&& final(self).model() == old(self).model()
                },
            },
    {
        if created == 0 {
            return Err(String::from_str("VA-API returned no reconstructed surface"));
        }
        let ghost before = self.model();
        let first: u32 = self.allocated;
        self.allocated = first + created;
        let mut added: u32 = 0;
        assert(self.free_reconstructed_surfaces@ =~= before.free + Seq::new(
            0,
            |i: int| (first + i) as u32,
        ));
        while added < created - 1
            invariant
                added <= created - 1,
                first + created <= u32::MAX,
                self.free_reconstructed_surfaces@ == before.free + Seq::new(
                    added as nat,
                    |i: int| (first + i) as u32,
                ),
                self.model() == (EncoderModel {
                    allocated: first + created,
                    free: self.free_reconstructed_surfaces@,
                    ..before
                }),
            decreases created - added,
        {
            self.free_reconstructed_surfaces.push(first + added);
            added = added + 1;
            assert(self.free_reconstructed_surfaces@ =~= before.free + Seq::new(
                added as nat,
                |i: int| (first + i) as u32,
            ));
        }
        let surface: u32 = first + (created - 1);
        proof {
            lemma_added_wf(before, created as int);
        }
        Ok(surface)
    }

    /// Makes the picture that was written to `surface` the one that the next may refer to, and
    /// returns the one it replaces.
    pub fn rotate_reference(&mut self, surface: u32, encoded_keyframe: bool) -> (r: Option<
        EncodedReference,
    >)
        ensures
            r == old(self).model().reference,
            final(self).model() == old(self).model().rotated(surface, encoded_keyframe),
    {
        let retired = self.reference;
        self.reference = Some(
            EncodedReference {
                surface,
                frame_num: self.frame_num_for(encoded_keyframe),
                poc: self.poc_for(encoded_keyframe),
            },
        );
        if encoded_keyframe {
            self.idr_pic_id = self.idr_pic_id.wrapping_add(1);
            self.frames_since_keyframe = 1;
            self.frame_num = 1;
        } else {
            self.frames_since_keyframe = self.frames_since_keyframe.saturating_add(1);
            self.frame_num = self.frame_num.wrapping_add(1);
        }
        retired
    }

    /// Whether a picture that is with the hardware is written to this surface.
    pub fn producer_is_pending(&self, surface: u32) -> (r: bool)
        ensures
            r == self.model().producer_is_pending(surface),
    {
        let mut i: usize = 0;
        while i < self.pending.len()
            invariant
                i <= self.pending@.len(),
                forall|k: int|
                    0 <= k < i ==> (#[trigger] self.model().pending[k]).reconstructed != surface,
            decreases self.pending@.len() - i,
        {
            if self.pending[i].reconstructed == surface {
                assert(self.model().pending[i as int].reconstructed == surface);
                return true;
            }
            i = i + 1;
        }
        false
    }

    /// A picture that is written to `surface` went to the hardware.
    pub fn submitted(&mut self, surface: u32, pts: Duration, is_keyframe: bool)
        requires
            old(self).wf(),
            old(self).model().unowned(surface),
        ensures
            final(self).wf(),
            final(self).model() == old(self).model().submitted(surface, pts, is_keyframe),
    {
        let ghost before = self.model();
        proof {
            lemma_submitted_wf(before, surface, pts, is_keyframe);
        }
        let retired_reference = self.rotate_reference(surface, is_keyframe);
        let retired_after_sync = match (is_keyframe, retired_reference) {
            (false, Some(reference)) => Some(reference.surface),
            (false, None) => None,
            (true, Some(reference)) => {
                if self.producer_is_pending(reference.surface) {
                    self.retired_after_producer.push(reference.surface);
                } else {
                    self.free_reconstructed_surfaces.push(reference.surface);
                }
                None
            },
            (true, None) => None,
        };
        self.pending.push_back(
            PendingEncode { reconstructed: surface, retired_after_sync, pts, is_keyframe },
        );
    }

    /// Whether more pictures are with the hardware than may be.
    pub fn over_limit(&self) -> (r: bool)
        ensures
            r == (self.model().pending.len() > self.model().config.max_pending_frames),
    {
        self.pending.len() > self.config.max_pending_frames
    }

    /// How many pictures are with the hardware.
    pub fn pending_frames(&self) -> (r: usize)
        ensures
            r == self.model().pending.len(),
    {
        self.pending.len()
    }

    /// The oldest picture that is with the hardware.
    pub fn oldest(&self) -> (r: Result<PendingEncode, String>)
        ensures
            match r {
                Ok(pending) => self.model().pending.len() > 0 && pending == self.model().pending[0],
                Err(message) => self.model().pending.len() == 0 && message@
                    == "VA-API encoder has no pending frame"@,
            },
    {
        if self.pending.len() > 0 {
            Ok(self.pending[0])
        } else {
            Err(String::from_str("VA-API encoder has no pending frame"))
        }
    }

    /// The oldest picture is done: the surfaces that it alone was using are free.
    pub fn complete_oldest(&mut self) -> (r: Result<PendingEncode, String>)
        requires
            old(self).wf(),
        ensures
            final(self).wf(),
            match r {
                Ok(pending) => {
                    &&& old(self).model().pending.len() > 0
                    &&& pending == old(self).model().pending[0]
                    &&& final(self).model() == old(self).model().completed()
                },
                Err(message) => {
                    &&& old(self).model().pending.len() == 0
                    &&& message@ == "VA-API encoder has no pending frame"@
                    &&& final(self).model() == old(self).model()
                },
            },
    {
        let ghost before = self.model();
        let pending = match self.pending.pop_front() {
            Some(pending) => pending,
            None => {
                return Err(String::from_str("VA-API encoder has no pending frame"));
            },
        };
        proof {
            lemma_completed_wf(before);
            assert(self.pending@ =~= before.pending.drop_first());
        }
        if let Some(surface) = pending.retired_after_sync {
            self.free_reconstructed_surfaces.push(surface);
        }
        self.release_retired_producer(pending.reconstructed);
        Ok(pending)
    }

    /// The oldest picture failed: it is given up, and the surface that it was reading with it.
    pub fn drop_oldest(&mut self) -> (r: Option<PendingEncode>)
        requires
            old(self).wf(),
        ensures
            final(self).wf(),
            match r {
                Some(pending) => {
                    &&& old(self).model().pending.len() > 0
                    &&& pending == old(self).model().pending[0]
                    &&& final(self).model() == old(self).model().without_oldest()
                },
                None => {
                    &&& old(self).model().pending.len() == 0
                    &&& final(self).model() == old(self).model()
                },
            },
    {
        let ghost before = self.model();
        let r = self.pending.pop_front();
        proof {
            if r is Some {
                lemma_completed_wf(before);
                assert(self.pending@ =~= before.pending.drop_first());
            } else {
                assert(self.pending@ =~= before.pending);
            }
        }
        r
    }

    /// Frees a surface that was kept only for the picture that is written to it.
    pub fn release_retired_producer(&mut self, surface: u32)
        requires
            old(self).model().retired.no_duplicates(),
        ensures
            final(self).model() == old(self).model().released(surface),
    {
        let ghost before = self.model();
        let mut i: usize = 0;
        while i < self.retired_after_producer.len()
            invariant
                i <= self.retired_after_producer@.len(),
                self.model() == before,
                before.retired.no_duplicates(),
                before == old(self).model(),
                forall|k: int| 0 <= k < i ==> #[trigger] before.retired[k] != surface,
            decreases self.retired_after_producer@.len() - i,
        {
            if self.retired_after_producer[i] == surface {
                assert(before.retired[i as int] == surface);
                assert(before.retired.contains(surface));
                let found = self.retired_after_producer.swap_remove(i);
                self.free_reconstructed_surfaces.push(found);
                assert(self.model().retired =~= before.released(surface).retired);
                return;
            }
            i = i + 1;
        }
        assert(!before.retired.contains(surface));
    }

    pub fn frame_num_for(&self, is_keyframe: bool) -> (r: u16)
        ensures
            r == self.model().frame_num_for(is_keyframe),
    {
        if is_keyframe {
            0
        } else {
            self.frame_num
        }
    }

    pub fn poc_for(&self, is_keyframe: bool) -> (r: u16)
        ensures
            r == self.model().poc_for(is_keyframe),
    {
        let twice: u32 = 2 * self.frame_num_for(is_keyframe) as u32;
        (twice % 0x1_0000) as u16
    }

    /// The picture that the next one refers to: none if it is a keyframe.
    pub fn active_reference(&self, is_keyframe: bool) -> (r: Option<EncodedReference>)
        ensures
            r == self.model().active_reference(is_keyframe),
    {
        if is_keyframe {
            None
        } else {
            self.reference
        }
    }

    /// The room for an encoded picture: two seconds of the stream, the picture itself, or the
    /// default, whichever is most.
    pub fn coded_buffer_size(&self) -> (r: usize)
        requires
            self.model().config.resolution.width * self.model().config.resolution.height * 3
                <= usize::MAX,
        ensures
            r == coded_size(self.model().config),
    {
        let width: usize = self.config.resolution.width;
        let height: usize = self.config.resolution.height;
        assert(width * height <= width * height * 3) by (nonlinear_arith)
            requires
                width >= 0,
                height >= 0,
        ;
        let raw_size: usize = width * height * 3 / 2;
        let by_rate: usize = (self.config.bitrate as usize / 8) * 2;
        let mut size: usize = DEFAULT_CODED_BUFFER_SIZE;
        if by_rate > size {
            size = by_rate;
        }
        if raw_size > size {
            size = raw_size;
        }
        size
    }

    /// The number of macroblocks across and down.
    pub fn macroblocks(&self) -> (r: (u32, u32))
        ensures
            r.0 == macroblocks_over(self.model().config.resolution.width as u32 as int),
            r.1 == macroblocks_over(self.model().config.resolution.height as u32 as int),
    {
        (
            macroblocks_along(self.config.resolution.width as u32),
            macroblocks_along(self.config.resolution.height as u32),
        )
    }

    /// The number of macroblocks.
    pub fn macroblock_count(&self) -> (r: u32)
        requires
            macroblocks_over(self.model().config.resolution.width as u32 as int) * macroblocks_over(
                self.model().config.resolution.height as u32 as int,
            ) <= u32::MAX,
        ensures
            r == macroblocks_over(self.model().config.resolution.width as u32 as int) * macroblocks_over(
                self.model().config.resolution.height as u32 as int,
            ),
    {
        let (width_mbs, height_mbs) = self.macroblocks();
        width_mbs * height_mbs
    }

    /// How much of the last macroblocks, across and down, lies outside the picture.
    pub fn crop_offsets(&self) -> (r: (u32, u32))
        requires
            coverable(self.model().config.resolution),
        ensures
            r.0 == crop_units(self.model().config.resolution.width as u32 as int),
            r.1 == crop_units(self.model().config.resolution.height as u32 as int),
    {
        let (width_mbs, height_mbs) = self.macroblocks();
        (
            (width_mbs * 16 - self.config.resolution.width as u32) / 2,
            (height_mbs * 16 - self.config.resolution.height as u32) / 2,
        )
    }

    /// What holds of the whole stream.
    pub fn sequence_parameter(&self) -> (r: SequenceParameter)
        requires
            coverable(self.model().config.resolution),
        ensures
            r == self.model().sequence(),
    {
        let (width_mbs, height_mbs) = self.macroblocks();
        let (crop_right, crop_bottom) = self.crop_offsets();
        let num: u32 = self.config.framerate.num;
        let den: u32 = self.config.framerate.den;
        let rate: u32 = if num == 0 {
            1
        } else {
            num
        };
        SequenceParameter {
            level_idc: H264_LEVEL_4_0,
            intra_period: self.config.gop_size as u32,
            intra_idr_period: self.config.gop_size as u32,
            ip_period: 1,
            bits_per_second: self.config.bitrate,
            max_num_ref_frames: 1,
            picture_width_in_mbs: width_mbs as u16,
            picture_height_in_mbs: height_mbs as u16,
            chroma_format_idc: 1,
            frame_mbs_only: true,
            direct_8x8_inference: true,
            pic_order_cnt_type: 0,
            log2_max_frame_num_minus4: LOG2_MAX_FRAME_NUM_MINUS4,
            log2_max_pic_order_cnt_lsb_minus4: LOG2_MAX_PIC_ORDER_CNT_LSB_MINUS4,
            crop: if crop_right > 0 || crop_bottom > 0 {
                Some(Crop { right: crop_right, bottom: crop_bottom })
            } else {
                None
            },
            aspect_ratio_idc: 1,
            sar_width: 1,
            sar_height: 1,
            fixed_frame_rate: true,
            num_units_in_tick: if den == 0 {
                1
            } else {
                den
            },
            time_scale: if rate <= u32::MAX / 2 {
                rate * 2
            } else {
                u32::MAX
            },
        }
    }

    /// What holds of one picture, which is written to `reconstructed`.
    pub fn picture_parameter(&self, reconstructed: u32, is_keyframe: bool) -> (r: PictureParameter)
        ensures
            r == self.model().picture(reconstructed, is_keyframe),
    {
        PictureParameter {
            current: EncodedReference {
                surface: reconstructed,
                frame_num: self.frame_num_for(is_keyframe),
                poc: self.poc_for(is_keyframe),
            },
            reference: self.active_reference(is_keyframe),
            frame_num: self.frame_num_for(is_keyframe),
            initial_qp: INITIAL_QP,
            is_idr: is_keyframe,
            is_reference: true,
            deblocking_filter_control: true,
        }
    }

    /// What holds of the one slice of a picture.
    pub fn slice_parameter(&self, is_keyframe: bool) -> (r: SliceParameter)
        requires
            macroblocks_over(self.model().config.resolution.width as u32 as int) * macroblocks_over(
                self.model().config.resolution.height as u32 as int,
            ) <= u32::MAX,
        ensures
            r == self.model().slice(is_keyframe),
    {
        SliceParameter {
            macroblock_count: self.macroblock_count(),
            slice_type: if is_keyframe {
                SLICE_TYPE_I
            } else {
                SLICE_TYPE_P
            },
            idr_pic_id: self.idr_pic_id,
            poc: self.poc_for(is_keyframe),
            direct_spatial_mv_pred: true,
            override_reference_count: !is_keyframe,
            reference: self.active_reference(is_keyframe),
            alpha_c0_offset_div2: 2,
            beta_offset_div2: 2,
        }
    }

    /// How the bit rate is kept.
    pub fn rate_control_parameter(&self) -> (r: RateControlParameter)
        ensures
            r == self.model().rate_control(),
    {
        RateControlParameter {
            bits_per_second: self.config.bitrate,
            target_percentage: 100,
            window_size_ms: 1_500,
            initial_qp: INITIAL_QP as u32,
            min_qp: 10,
            max_qp: 51,
            disable_frame_skip: true,
        }
    }

    /// Whole pictures per second.
    pub fn framerate_parameter(&self) -> (r: u32)
        ensures
            r == self.model().frames_per_second(),
            r == self.model().config.framerate.num as int / at_least_one(
                self.model().config.framerate.den,
            ) as int,
    {
        let den: u32 = if self.config.framerate.den == 0 {
            1
        } else {
            self.config.framerate.den
        };
        self.config.framerate.num / den
    }

    /// Everything the hardware is told about the next picture, which is written to `reconstructed`,
    /// in the order in which it is told.
    pub fn plan_submit(&self, reconstructed: u32, force_keyframe: bool) -> (r: SubmitPlan)
        requires
            encodable(self.model().config.resolution),
        ensures
            self.model().is_told(reconstructed, force_keyframe, r),
            r.is_keyframe == self.model().keyframe_due(force_keyframe),
            r.coded_buffer_size == coded_size(self.model().config),
            r.sequence == self.model().sequence(),
            r.picture == self.model().picture(reconstructed, r.is_keyframe),
            r.slice == self.model().slice(r.is_keyframe),
            r.rate_control == self.model().rate_control(),
            r.frames_per_second == self.model().config.framerate.num as int / at_least_one(
                self.model().config.framerate.den,
            ) as int,
    {
        let is_keyframe = self.is_keyframe_due(force_keyframe);
        SubmitPlan {
            is_keyframe,
            coded_buffer_size: self.coded_buffer_size(),
            sequence: self.sequence_parameter(),
            picture: self.picture_parameter(reconstructed, is_keyframe),
            slice: self.slice_parameter(is_keyframe),
            rate_control: self.rate_control_parameter(),
            frames_per_second: self.framerate_parameter(),
        }
    }

    /// How the encoder is set up.
    pub fn config(&self) -> (r: H264EncoderConfig)
        ensures
            r == self.model().config,
    {
        self.config
    }
}

/// The quantisation that a stream starts with.
pub const INITIAL_QP: u8 = 26;

/// A slice that refers to earlier pictures.
pub const SLICE_TYPE_P: u8 = 0;

/// A slice that refers to no other picture.
pub const SLICE_TYPE_I: u8 = 2;

/// Whole macroblocks that cover both sides can be counted in pixels.
pub open spec fn coverable(resolution: Resolution) -> bool {
    &&& resolution.width as u32 <= 0xffff_fff0
    &&& resolution.height as u32 <= 0xffff_fff0
}

/// The number of macroblocks that cover `side` pixels.
fn macroblocks_along(side: u32) -> (r: u32)
    ensures
        r == macroblocks_over(side as int),
{
    if side % 16 == 0 {
        side / 16
    } else {
        side / 16 + 1
    }
}

/// Both sides can be coded.
pub open spec fn codable(resolution: Resolution) -> bool {
    &&& codable_side(resolution.width as u32)
    &&& codable_side(resolution.height as u32)
}

/// Both sides can be coded, and the sizes that follow from them are representable.
pub open spec fn encodable(resolution: Resolution) -> bool {
    &&& codable(resolution)
    &&& resolution.width * resolution.height * 3 <= usize::MAX
    &&& macroblocks_over(resolution.width as u32 as int) * macroblocks_over(resolution.height as u32 as int)
        <= u32::MAX
}

/// The room for an encoded picture.
pub open spec fn coded_size(config: H264EncoderConfig) -> int {
    let raw_size = config.resolution.width * config.resolution.height * 3 / 2;
    let by_rate = (config.bitrate as int / 8) * 2;
    let least = if by_rate > DEFAULT_CODED_BUFFER_SIZE {
        by_rate
    } else {
        DEFAULT_CODED_BUFFER_SIZE as int
    };
    if raw_size > least {
        raw_size
    } else {
        least
    }
}

/// What is cut off on the right and at the bottom, in chroma samples.
#[derive(Debug, Clone, Copy, PartialEq, Eq, Structural)]
pub struct Crop {
    pub right: u32,
    pub bottom: u32,
}

/// What holds of a whole stream.
#[derive(Debug, Clone, Copy, PartialEq, Eq, Structural)]
pub struct SequenceParameter {
    pub level_idc: u8,
    pub intra_period: u32,
    pub intra_idr_period: u32,
    pub ip_period: u32,
    pub bits_per_second: u32,
    pub max_num_ref_frames: u32,
    pub picture_width_in_mbs: u16,
    pub picture_height_in_mbs: u16,
    /// One chroma sample for four luma samples.
    pub chroma_format_idc: u32,
    pub frame_mbs_only: bool,
    pub direct_8x8_inference: bool,
    pub pic_order_cnt_type: u32,
    pub log2_max_frame_num_minus4: u32,
    pub log2_max_pic_order_cnt_lsb_minus4: u32,
    /// What is cut off, if anything is.
    pub crop: Option<Crop>,
    /// Square samples.
    pub aspect_ratio_idc: u8,
    pub sar_width: u32,
    pub sar_height: u32,
    pub fixed_frame_rate: bool,
    pub num_units_in_tick: u32,
    pub time_scale: u32,
}

/// What holds of a picture.
#[derive(Debug, Clone, Copy, PartialEq, Eq, Structural)]
pub struct PictureParameter {
    pub current: EncodedReference,
    pub reference: Option<EncodedReference>,
    pub frame_num: u16,
    pub initial_qp: u8,
    pub is_idr: bool,
    /// Later pictures may refer to this one.
    pub is_reference: bool,
    pub deblocking_filter_control: bool,
}

/// What holds of the one slice of a picture.
#[derive(Debug, Clone, Copy, PartialEq, Eq, Structural)]
pub struct SliceParameter {
    pub macroblock_count: u32,
    pub slice_type: u8,
    pub idr_pic_id: u16,
    pub poc: u16,
    pub direct_spatial_mv_pred: bool,
    pub override_reference_count: bool,
    pub reference: Option<EncodedReference>,
    /// How the deblocking filter is tuned.
    pub alpha_c0_offset_div2: i8,
    pub beta_offset_div2: i8,
}

/// How the bit rate is kept.
#[derive(Debug, Clone, Copy, PartialEq, Eq, Structural)]
pub struct RateControlParameter {
    pub bits_per_second: u32,
    pub target_percentage: u32,
    pub window_size_ms: u32,
    pub initial_qp: u32,
    pub min_qp: u32,
    pub max_qp: u32,
    pub disable_frame_skip: bool,
}

/// What the hardware is told about a picture.
#[derive(Debug, Clone, Copy, PartialEq, Eq, Structural)]
pub struct SubmitPlan {
    pub is_keyframe: bool,
    pub coded_buffer_size: usize,
    pub sequence: SequenceParameter,
    pub picture: PictureParameter,
    pub slice: SliceParameter,
    pub rate_control: RateControlParameter,
    pub frames_per_second: u32,
}

impl EncoderModel {
    pub open spec fn active_reference(self, is_keyframe: bool) -> Option<EncodedReference> {
        if is_keyframe {
            None
        } else {
            self.reference
        }
    }

    pub open spec fn sequence(self) -> SequenceParameter {
        let resolution = self.config.resolution;
        let crop_right = crop_units(resolution.width as u32 as int);
        let crop_bottom = crop_units(resolution.height as u32 as int);
        SequenceParameter {
            level_idc: H264_LEVEL_4_0,
            intra_period: self.config.gop_size as u32,
            intra_idr_period: self.config.gop_size as u32,
            ip_period: 1,
            bits_per_second: self.config.bitrate,
            max_num_ref_frames: 1,
            picture_width_in_mbs: macroblocks_over(resolution.width as u32 as int) as u16,
            picture_height_in_mbs: macroblocks_over(resolution.height as u32 as int) as u16,
            chroma_format_idc: 1,
            frame_mbs_only: true,
            direct_8x8_inference: true,
            pic_order_cnt_type: 0,
            log2_max_frame_num_minus4: LOG2_MAX_FRAME_NUM_MINUS4,
            log2_max_pic_order_cnt_lsb_minus4: LOG2_MAX_PIC_ORDER_CNT_LSB_MINUS4,
            crop: if crop_right > 0 || crop_bottom > 0 {
                Some(Crop { right: crop_right as u32, bottom: crop_bottom as u32 })
            } else {
                None
            },
            aspect_ratio_idc: 1,
            sar_width: 1,
            sar_height: 1,
            fixed_frame_rate: true,
            num_units_in_tick: at_least_one(self.config.framerate.den),
            time_scale: doubled_clamped(at_least_one(self.config.framerate.num)),
        }
    }

    pub open spec fn picture(self, reconstructed: u32, is_keyframe: bool) -> PictureParameter {
        PictureParameter {
            current: EncodedReference {
                surface: reconstructed,
                frame_num: self.frame_num_for(is_keyframe),
                poc: self.poc_for(is_keyframe),
            },
            reference: self.active_reference(is_keyframe),
            frame_num: self.frame_num_for(is_keyframe),
            initial_qp: INITIAL_QP,
            is_idr: is_keyframe,
            is_reference: true,
            deblocking_filter_control: true,
        }
    }

    pub open spec fn slice(self, is_keyframe: bool) -> SliceParameter {
        SliceParameter {
            macroblock_count: (macroblocks_over(self.config.resolution.width as u32 as int)
                * macroblocks_over(self.config.resolution.height as u32 as int)) as u32,
            slice_type: if is_keyframe {
                SLICE_TYPE_I
            } else {
                SLICE_TYPE_P
            },
            idr_pic_id: self.idr_pic_id,
            poc: self.poc_for(is_keyframe),
            direct_spatial_mv_pred: true,
            override_reference_count: !is_keyframe,
            reference: self.active_reference(is_keyframe),
            alpha_c0_offset_div2: 2,
            beta_offset_div2: 2,
        }
    }

    pub open spec fn rate_control(self) -> RateControlParameter {
        RateControlParameter {
            bits_per_second: self.config.bitrate,
            target_percentage: 100,
            window_size_ms: 1_500,
            initial_qp: INITIAL_QP as u32,
            min_qp: 10,
            max_qp: 51,
            disable_frame_skip: true,
        }
    }

    /// Whole pictures per second.
    pub open spec fn frames_per_second(self) -> int {
        self.config.framerate.num as int / at_least_one(self.config.framerate.den) as int
    }

    /// `plan` is what the hardware is told about the next picture, which is written to
    /// `reconstructed`.
    pub open spec fn is_told(self, reconstructed: u32, force_keyframe: bool, plan: SubmitPlan) -> bool {
        &&& plan.is_keyframe == self.keyframe_due(force_keyframe)
        &&& plan.coded_buffer_size == coded_size(self.config)
        &&& plan.sequence == self.sequence()
        &&& plan.picture == self.picture(reconstructed, plan.is_keyframe)
        &&& plan.slice == self.slice(plan.is_keyframe)
        &&& plan.rate_control == self.rate_control()
        &&& plan.frames_per_second == self.frames_per_second()
    }

    /// How many surfaces are accounted for.
    pub open spec fn surfaces(self) -> int {
        self.free.len() + self.retired.len() + if self.reference is Some {
            1int
        } else {
            0
        } + readers(self.pending)
    }
}

/// How many of the pictures refer to another one.
pub open spec fn readers(pending: Seq<PendingEncode>) -> int
    decreases pending.len(),
{
    if pending.len() == 0 {
        0
    } else {
        readers(pending.drop_first()) + if pending[0].retired_after_sync is Some {
            1int
        } else {
            0
        }
    }
}

proof fn lemma_readers_push(pending: Seq<PendingEncode>, added: PendingEncode)
    ensures
        readers(pending.push(added)) == readers(pending) + if added.retired_after_sync is Some {
            1int
        } else {
            0
        },
    decreases pending.len(),
{
    reveal_with_fuel(readers, 2);
    if pending.len() == 0 {
        assert(pending.push(added).drop_first() =~= Seq::empty());
    } else {
        assert(pending.push(added).drop_first() =~= pending.drop_first().push(added));
        lemma_readers_push(pending.drop_first(), added);
    }
}

/// No surface gets lost or turns up twice: the one that a picture was written to joins those that
/// are accounted for, and a picture that is done leaves all of them accounted for.
pub proof fn lemma_surfaces_are_conserved(
    before: EncoderModel,
    surface: u32,
    pts: Duration,
    is_keyframe: bool,
)
    requires
        before.wf(),
    ensures
        before.unowned(surface) ==> before.submitted(surface, pts, is_keyframe).surfaces()
            == before.surfaces() + 1,
        before.pending.len() > 0 ==> before.completed().surfaces() == before.surfaces(),
{
    let added = PendingEncode {
        reconstructed: surface,
        retired_after_sync: if !is_keyframe && before.reference is Some {
            Some(before.reference->0.surface)
        } else {
            None
        },
        pts,
        is_keyframe,
    };
    lemma_readers_push(before.pending, added);
}

/// What is free is used by nobody: no picture with the hardware is written to it or refers to it,
/// and the next picture will not refer to it.
pub proof fn lemma_free_surfaces_are_unused(encoder: EncoderModel, free: int, picture: int)
    requires
        encoder.wf(),
        0 <= free < encoder.free.len(),
        0 <= picture < encoder.pending.len(),
    ensures
        encoder.pending[picture].reconstructed != encoder.free[free],
        encoder.pending[picture].retired_after_sync != Some(encoder.free[free]),
        !encoder.is_reference(encoder.free[free]),
{
    assert(encoder.free.contains(encoder.free[free]));
}

/// A group of pictures never gets longer than configured, and it starts with the first picture.
pub proof fn lemma_keyframe_in_every_group(
    before: EncoderModel,
    force_keyframe: bool,
    surface: u32,
    pts: Duration,
)
    requires
        before.wf(),
        before.frames_since_keyframe <= before.config.gop_size,
    ensures
        before.reference is None ==> before.keyframe_due(force_keyframe),
        before.submitted(
            surface,
            pts,
            before.keyframe_due(force_keyframe),
        ).frames_since_keyframe <= before.config.gop_size,
        before.keyframe_due(force_keyframe) ==> before.submitted(
            surface,
            pts,
            true,
        ).frames_since_keyframe == 1,
{
}

/// Whole macroblocks, less what is cut off, cover a side, rounded up to whole chroma samples.
proof fn lemma_side_is_covered(side: int)
    requires
        0 < side <= 0xf_fff0,
    ensures
        16 * macroblocks_over(side) - 2 * crop_units(side) == side + side % 2,
        0 <= crop_units(side) < 8,
        0 < macroblocks_over(side) <= 0xffff,
{
}

/// What the hardware is told about the stream fits what was asked for: whole macroblocks, less what
/// is cut off, cover the picture exactly, an odd side rounded up to whole chroma samples; twice the
/// rate is the time scale over the units in a tick; groups and the bit rate are as configured, and
/// each picture refers to one other at most, the one before it.
#[verifier::spinoff_prover]
pub proof fn lemma_hardware_is_told_the_stream(encoder: EncoderModel, is_keyframe: bool)
    requires
        codable(encoder.config.resolution),
        encoder.config.resolution.width <= 0xf_fff0,
        encoder.config.resolution.height <= 0xf_fff0,
    ensures
        ({
            let config = encoder.config;
            let sequence = encoder.sequence();
            let slice = encoder.slice(is_keyframe);
            let crop = match sequence.crop {
                Some(crop) => crop,
                None => Crop { right: 0, bottom: 0 },
            };
            let width = config.resolution.width as int;
            let height = config.resolution.height as int;
            &&& 16 * sequence.picture_width_in_mbs - 2 * crop.right == width + width % 2
            &&& 16 * sequence.picture_height_in_mbs - 2 * crop.bottom == height + height % 2
            &&& 0 <= crop.right < 8 && 0 <= crop.bottom < 8
            &&& sequence.crop is Some <==> crop.right > 0 || crop.bottom > 0
            &&& slice.macroblock_count == sequence.picture_width_in_mbs
                * sequence.picture_height_in_mbs
            &&& sequence.num_units_in_tick > 0 && sequence.time_scale > 0
            &&& config.framerate.den > 0 ==> sequence.num_units_in_tick == config.framerate.den
            &&& 0 < config.framerate.num < 0x8000_0000 ==> sequence.time_scale == 2
                * config.framerate.num
            &&& config.framerate.den == 0 ==> sequence.num_units_in_tick == 1
            &&& config.framerate.num == 0 ==> sequence.time_scale == 2
            &&& config.framerate.num >= 0x8000_0000 ==> sequence.time_scale == 0xffff_ffff
            &&& sequence.intra_period == config.gop_size && sequence.intra_idr_period
                == config.gop_size
            &&& sequence.bits_per_second == config.bitrate
            &&& encoder.rate_control().bits_per_second == config.bitrate
            &&& sequence.level_idc == 40 && sequence.ip_period == 1 && sequence.max_num_ref_frames
                == 1 && sequence.chroma_format_idc == 1
            &&& sequence.log2_max_frame_num_minus4 == 12
                && sequence.log2_max_pic_order_cnt_lsb_minus4 == 12
                && sequence.pic_order_cnt_type == 0
        }),
{
    let width = encoder.config.resolution.width as int;
    let height = encoder.config.resolution.height as int;
    lemma_side_is_covered(width);
    lemma_side_is_covered(height);
    let across = macroblocks_over(width);
    let down = macroblocks_over(height);
    assert(encoder.config.resolution.width as u32 == width);
    assert(encoder.config.resolution.height as u32 == height);
    assert(0 <= across * down <= 0xffff * 0xffff) by (nonlinear_arith)
        requires
            0 <= across <= 0xffff,
            0 <= down <= 0xffff,
    ;
}

/// What the hardware is told about a picture fits the parameter sets of the stream and the picture
/// itself: a keyframe is an IDR picture of I slices that refers to nothing, any other one has P slices
/// and refers to the picture before it; the numbers of slice and picture agree; the quality starts in
/// the middle, and the deblocking filter is tuned in every slice.
pub proof fn lemma_hardware_is_told_the_picture(
    encoder: EncoderModel,
    reconstructed: u32,
    is_keyframe: bool,
)
    ensures
        ({
            let picture = encoder.picture(reconstructed, is_keyframe);
            let slice = encoder.slice(is_keyframe);
            let rate = encoder.rate_control();
            &&& picture.current.surface == reconstructed
            &&& picture.current.frame_num == picture.frame_num && picture.current.poc == slice.poc
            &&& (picture.frame_num + picture.frame_num) % 65_536 == slice.poc
            &&& picture.is_idr == is_keyframe && picture.is_reference
            &&& is_keyframe ==> picture.frame_num == 0 && slice.slice_type == 2
                && slice.reference is None && picture.reference is None
                && !slice.override_reference_count
            &&& !is_keyframe ==> picture.frame_num == encoder.frame_num && slice.slice_type == 0
                && slice.reference == encoder.reference && picture.reference == encoder.reference
                && slice.override_reference_count
            &&& slice.idr_pic_id == encoder.idr_pic_id
            &&& slice.direct_spatial_mv_pred
            &&& picture.deblocking_filter_control && slice.alpha_c0_offset_div2 == 2
                && slice.beta_offset_div2 == 2
            &&& picture.initial_qp == 26 && rate.initial_qp == 26
            &&& rate.bits_per_second == encoder.config.bitrate && rate.target_percentage == 100
                && rate.window_size_ms == 1_500
            &&& rate.min_qp == 10 && rate.max_qp == 51 && rate.disable_frame_skip
            &&& encoder.sequence().frame_mbs_only && encoder.sequence().direct_8x8_inference
                && encoder.sequence().fixed_frame_rate
            &&& encoder.sequence().aspect_ratio_idc == 1 && encoder.sequence().sar_width == 1
                && encoder.sequence().sar_height == 1
        }),
{
}

/// There is room for what two seconds take at the bit rate, for the picture itself, and for 1.5 million
/// bytes, and no more than for the largest of these.
pub proof fn lemma_coded_buffer_has_room(config: H264EncoderConfig)
    ensures
        ({
            let room = coded_size(config);
            let by_rate = config.bitrate as int / 8 * 2;
            let raw = config.resolution.width * config.resolution.height * 3 / 2;
            &&& room >= 1_500_000 && room >= by_rate && room >= raw
            &&& room == 1_500_000 || room == by_rate || room == raw
        }),
{
}

/// All that the hardware is told about a picture goes by whether it is a keyframe, and that by what was
/// asked for: an IDR picture of I slices where a keyframe was demanded or there is nothing to refer to,
/// and a picture that refers to the last one otherwise, until the group is full. What two seconds take
/// fits into the buffer, and whole pictures per second into the rate.
pub proof fn lemma_what_is_told_goes_by_the_kind(
    encoder: EncoderModel,
    reconstructed: u32,
    force_keyframe: bool,
    plan: SubmitPlan,
)
    requires
        encoder.is_told(reconstructed, force_keyframe, plan),
    ensures
        plan.is_keyframe <==> force_keyframe || encoder.reference is None
            || encoder.frames_since_keyframe >= encoder.config.gop_size,
        plan.picture.is_idr == plan.is_keyframe,
        plan.slice.slice_type == 2 <==> plan.is_keyframe,
        plan.picture.current.surface == reconstructed,
        plan.picture.reference == plan.slice.reference,
        plan.picture.reference is Some <==> !plan.is_keyframe,
        !plan.is_keyframe ==> plan.picture.reference == encoder.reference,
        plan.sequence.intra_period == encoder.config.gop_size,
        plan.sequence.bits_per_second == encoder.config.bitrate,
        plan.rate_control.bits_per_second == encoder.config.bitrate,
        plan.coded_buffer_size >= encoder.config.bitrate as int / 8 * 2,
        plan.coded_buffer_size >= 1_500_000,
        encoder.config.framerate.den == 0 ==> plan.frames_per_second
            == encoder.config.framerate.num,
        encoder.config.framerate.den > 0 ==> plan.frames_per_second * encoder.config.framerate.den
            <= encoder.config.framerate.num < (plan.frames_per_second + 1)
            * encoder.config.framerate.den,
{
    lemma_coded_buffer_has_room(encoder.config);
    let num = encoder.config.framerate.num as int;
    let den = encoder.config.framerate.den as int;
    if den > 0 {
        let fps = num / den;
        assert(fps * den <= num < (fps + 1) * den) by (nonlinear_arith)
            requires
                den > 0,
                fps == num / den,
        ;
    }
}

/// A keyframe is due when it is asked for, when there is nothing to refer to, and when as many pictures
/// as a group has were encoded since the last one; at no other time.
pub proof fn lemma_when_a_keyframe_is_due(encoder: EncoderModel)
    ensures
        encoder.keyframe_due(true),
        encoder.reference is None ==> encoder.keyframe_due(false),
        encoder.reference is Some ==> (encoder.keyframe_due(false)
            <==> encoder.frames_since_keyframe >= encoder.config.gop_size),
{
}

/// The surface that a picture is written to becomes the reference, and is not free. The one that was
/// the reference before is kept for as long as it is used: by a picture that refers to it until that
/// one is done, and otherwise until the picture that is written to it is done; only where nobody
/// uses it is it free at once.
pub proof fn lemma_old_reference_is_kept_while_used(
    before: EncoderModel,
    surface: u32,
    pts: Duration,
    is_keyframe: bool,
)
    requires
        before.wf(),
        before.unowned(surface),
    ensures
        ({
            let after = before.submitted(surface, pts, is_keyframe);
            let picture = after.pending.last();
            &&& after.pending.len() == before.pending.len() + 1
            &&& after.pending.drop_last() == before.pending
            &&& picture.reconstructed == surface && picture.pts == pts && picture.is_keyframe
                == is_keyframe
            &&& after.reference is Some && after.reference->0.surface == surface
            &&& !after.free.contains(surface) && !after.retired.contains(surface)
            &&& after.config == before.config && after.allocated == before.allocated
            &&& before.reference is None ==> picture.retired_after_sync is None && after.free
                == before.free && after.retired == before.retired
            &&& before.reference is Some ==> {
                let old_surface = before.reference->0.surface;
                let written = exists|i: int|
                    0 <= i < before.pending.len() && (
                    #[trigger] before.pending[i]).reconstructed == old_surface;
                &&& !is_keyframe ==> picture.retired_after_sync == Some(old_surface) && after.free
                    == before.free && after.retired == before.retired
                &&& is_keyframe ==> picture.retired_after_sync is None
                &&& is_keyframe && written ==> after.free == before.free && after.retired
                    == before.retired.push(old_surface)
                &&& is_keyframe && !written ==> after.free == before.free.push(old_surface)
                    && after.retired == before.retired
            }
        }),
{
    lemma_submitted_wf(before, surface, pts, is_keyframe);
    let after = before.submitted(surface, pts, is_keyframe);
    assert(after.pending.drop_last() =~= before.pending);
    if before.reference is Some {
        lemma_push_contains(before.free, before.reference->0.surface);
        lemma_push_contains(before.retired, before.reference->0.surface);
        assert(before.is_reference(before.reference->0.surface));
    }
}

/// A picture that is done frees what it referred to, and what it was written to if that was kept only
/// for it; everything else stays as it is, and so do the numbers of the pictures to come. One that
/// failed frees nothing.
pub proof fn lemma_done_picture_frees_its_surfaces(before: EncoderModel, surface: u32)
    requires
        before.wf(),
        before.pending.len() > 0,
    ensures
        ({
            let after = before.completed();
            let done = before.pending[0];
            let failed = before.without_oldest();
            &&& after.pending == before.pending.drop_first()
            &&& after.free.contains(surface) <==> before.free.contains(surface)
                || done.retired_after_sync == Some(surface) || (before.retired.contains(surface)
                && done.reconstructed == surface)
            &&& after.retired.contains(surface) <==> before.retired.contains(surface)
                && done.reconstructed != surface
            &&& after.reference == before.reference && after.frame_num == before.frame_num
                && after.idr_pic_id == before.idr_pic_id && after.frames_since_keyframe
                == before.frames_since_keyframe && after.config == before.config
                && after.allocated == before.allocated
            &&& failed == EncoderModel { pending: before.pending.drop_first(), ..before }
        }),
{
    let done = before.pending[0];
    let rest = before.without_oldest();
    let read = match done.retired_after_sync {
        Some(surface) => EncoderModel { free: rest.free.push(surface), ..rest },
        None => rest,
    };
    if done.retired_after_sync is Some {
        lemma_push_contains(rest.free, done.retired_after_sync->0);
    }
    lemma_push_contains(read.free, done.reconstructed);
    let after = before.completed();
    if read.retired.contains(done.reconstructed) {
        let at = read.retired.index_of(done.reconstructed);
        assert(0 <= at < read.retired.len() && read.retired[at] == done.reconstructed);
        let last = read.retired.len() - 1;
        if after.retired.contains(surface) {
            let i = choose|i: int| 0 <= i < after.retired.len() && after.retired[i] == surface;
            assert(read.retired[if i == at { last } else { i }] == surface);
        }
        if read.retired.contains(surface) && surface != done.reconstructed {
            let i = choose|i: int| 0 <= i < read.retired.len() && read.retired[i] == surface;
            assert(after.retired[if i == last { at } else { i }] == surface);
        }
    }
}

/// Segments of data, put together.
pub open spec fn put_together(segments: Seq<Vec<u8>>) -> Seq<u8>
    decreases segments.len(),
{
    if segments.len() == 0 {
        Seq::empty()
    } else {
        put_together(segments.drop_last()) + segments.last()@
    }
}

/// The data starts with a start code of three bytes.
pub open spec fn starts_with_short_code(data: Seq<u8>) -> bool {
    data.len() >= 3 && data[0] == 0 && data[1] == 0 && data[2] == 1
}

/// The encoded picture: parameter sets before a keyframe, and a start code of four bytes.
pub open spec fn coded_picture(parameter_sets: Seq<u8>, slices: Seq<u8>, is_keyframe: bool) -> Seq<
    u8,
> {
    (if is_keyframe {
        parameter_sets
    } else {
        Seq::empty()
    }) + (if starts_with_short_code(slices) {
        seq![0u8]
    } else {
        Seq::empty()
    }) + slices
}

/// Segments are put together in order, with nothing between them.
pub proof fn lemma_segments_follow_each_other(first: Seq<Vec<u8>>, segment: Vec<u8>)
    ensures
        put_together(first.push(segment)) == put_together(first) + segment@,
        put_together(Seq::<Vec<u8>>::empty()).len() == 0,
{
    assert(first.push(segment).drop_last() =~= first);
}

/// The data of a picture ends with what the hardware returned. Before that, a keyframe has the
/// parameter sets and any other picture nothing, and a start code of three bytes gets the zero that
/// makes it one of four.
pub proof fn lemma_picture_data_ends_with_slices(
    sets: Seq<u8>,
    slices: Seq<u8>,
    is_keyframe: bool,
)
    ensures
        ({
            let data = coded_picture(sets, slices, is_keyframe);
            let before = if is_keyframe {
                sets
            } else {
                Seq::<u8>::empty()
            };
            let short = slices.len() >= 3 && slices[0] == 0 && slices[1] == 0 && slices[2] == 1;
            &&& data.take(before.len() as int) == before
            &&& short ==> data.skip(before.len() as int) == seq![0u8] + slices
            &&& !short ==> data.skip(before.len() as int) == slices
        }),
{
    let data = coded_picture(sets, slices, is_keyframe);
    let n = if is_keyframe {
        sets.len() as int
    } else {
        0
    };
    assert(data.take(n) =~= if is_keyframe {
        sets
    } else {
        Seq::<u8>::empty()
    });
    assert(data.skip(n) =~= if starts_with_short_code(slices) {
        seq![0u8] + slices
    } else {
        slices
    });
}

/// An encoded picture.
#[derive(Debug)]
pub struct EncodedFrame {
    pub data: bytes::Bytes,
    pub pts: Duration,
    pub is_keyframe: bool,
}

/// Makes an encoded picture of what the hardware returned.
pub fn collect_coded_data(
    parameter_sets: &bytes::Bytes,
    segments: &Vec<Vec<u8>>,
    is_keyframe: bool,
) -> (r: Result<bytes::Bytes, String>)
    ensures
        match r {
            Ok(data) => {
                &&& put_together(segments@).len() > 0
                &&& bytes_contents(data) == coded_picture(
                    bytes_contents(*parameter_sets),
                    put_together(segments@),
                    is_keyframe,
                )
            },
            Err(message) => {
                &&& put_together(segments@).len() == 0
                &&& message@ == "VA-API encoder returned empty coded data"@
            },
        },
{
    let mut slices: Vec<u8> = Vec::new();
    let mut i: usize = 0;
    assert(segments@.take(0) =~= Seq::<Vec<u8>>::empty());
    while i < segments.len()
        invariant
            i <= segments@.len(),
            slices@ == put_together(segments@.take(i as int)),
        decreases segments@.len() - i,
    {
        slices.extend_from_slice(segments[i].as_slice());
        proof {
            assert(segments@.take(i + 1).drop_last() =~= segments@.take(i as int));
            assert(slices@ =~= put_together(segments@.take(i + 1)));
        }
        i = i + 1;
    }
    assert(segments@.take(i as int) =~= segments@);
    if slices.len() == 0 {
        return Err(String::from_str("VA-API encoder returned empty coded data"));
    }
    let short_code = slices.len() >= 3 && slices[0] == 0 && slices[1] == 0 && slices[2] == 1;
    let mut out: Vec<u8> = Vec::new();
    if is_keyframe {
        out.extend_from_slice(bytes_as_slice(parameter_sets));
    }
    if short_code {
        out.push(0);
    }
    out.extend_from_slice(slices.as_slice());
    assert(out@ =~= coded_picture(
        bytes_contents(*parameter_sets),
        put_together(segments@),
        is_keyframe,
    ));
    Ok(bytes_from_vec(out))
}

/// How the hardware can be asked to encode.
#[derive(Debug, Clone, Copy, PartialEq, Eq, Structural)]
pub enum Entrypoint {
    EncSlice,
    /// With low power.
    EncSliceLP,
    /// Something else than encoding.
    Other,
}

/// The entrypoint to encode with, if there is one.
pub open spec fn best_entrypoint(available: Seq<Entrypoint>) -> Option<Entrypoint> {
    if available.contains(Entrypoint::EncSliceLP) {
        Some(Entrypoint::EncSliceLP)
    } else if available.contains(Entrypoint::EncSlice) {
        Some(Entrypoint::EncSlice)
    } else {
        None
    }
}

/// Pictures are encoded wherever they can be, with low power where that is offered, and never through
/// anything that is not offered or does not encode.
pub proof fn lemma_best_entrypoint_is_offered(available: Seq<Entrypoint>, i: int)
    requires
        0 <= i < available.len(),
    ensures
        available[i] == Entrypoint::EncSliceLP ==> best_entrypoint(available) == Some(available[i]),
        available[i] != Entrypoint::Other ==> best_entrypoint(available) is Some,
        best_entrypoint(available) is Some ==> available.contains(best_entrypoint(available)->0)
            && best_entrypoint(available)->0 != Entrypoint::Other,
{
    assert(available.contains(available[i]));
}

/// The entrypoint to encode with: the one with low power where there is one.
pub fn h264_encode_entrypoint(available: &[Entrypoint]) -> (r: Result<Entrypoint, String>)
    ensures
        match r {
            Ok(chosen) => best_entrypoint(available@) == Some(chosen),
            Err(_) => best_entrypoint(available@) is None,
        },
        match r {
            Ok(chosen) => {
                &&& available@.contains(chosen)
                &&& chosen == Entrypoint::EncSliceLP || (chosen == Entrypoint::EncSlice
                    && !available@.contains(Entrypoint::EncSliceLP))
            },
            Err(message) => {
                &&& !available@.contains(Entrypoint::EncSliceLP)
                &&& !available@.contains(Entrypoint::EncSlice)
                &&& message@ == "VA-API H264 encode entrypoint is unavailable"@
            },
        },
{
    let mut low_power = false;
    let mut normal = false;
    let mut i: usize = 0;
    while i < available.len()
        invariant
            i <= available@.len(),
            low_power == available@.take(i as int).contains(Entrypoint::EncSliceLP),
            normal == available@.take(i as int).contains(Entrypoint::EncSlice),
        decreases available@.len() - i,
    {
        let ghost seen = available@.take(i as int);
        let ghost more = available@.take(i + 1);
        proof {
            assert(more =~= seen.push(available@[i as int]));
            assert forall|entry: Entrypoint| #[trigger] more.contains(entry) <==> seen.contains(
                entry,
            ) || entry == available@[i as int] by {
                if more.contains(entry) {
                    let k = choose|k: int| 0 <= k < more.len() && more[k] == entry;
                    if k < i {
                        assert(seen[k] == entry);
                    }
                }
                if seen.contains(entry) {
                    let k = choose|k: int| 0 <= k < seen.len() && seen[k] == entry;
                    assert(more[k] == entry);
                }
                assert(more[i as int] == available@[i as int]);
            }
        }
        match available[i] {
            Entrypoint::EncSliceLP => {
                low_power = true;
            },
            Entrypoint::EncSlice => {
                normal = true;
            },
            Entrypoint::Other => {},
        }
        i = i + 1;
    }
    assert(available@.take(i as int) =~= available@);
    if low_power {
        Ok(Entrypoint::EncSliceLP)
    } else if normal {
        Ok(Entrypoint::EncSlice)
    } else {
        Err(String::from_str("VA-API H264 encode entrypoint is unavailable"))
    }
}

/// An H.264 encoder: its decisions and the parameter sets of its stream.
pub struct H264Encoder {
    encoder: IntelVaapiH264Encoder,
    parameter_sets: bytes::Bytes,
}

impl H264Encoder {
    pub closed spec fn model(self) -> EncoderModel {
        self.encoder.model()
    }

    /// The parameter sets that every keyframe starts with.
    pub closed spec fn sets(self) -> Seq<u8> {
        bytes_contents(self.parameter_sets)
    }

    pub open spec fn wf(self) -> bool {
        self.model().wf()
    }

    pub fn new(config: H264EncoderConfig) -> (r: Self)
        requires
            codable(config.resolution),
        ensures
            r.wf(),
            r.sets() == crate::h264_parameter_sets::parameter_sets(
                config.resolution.width as u32,
                config.resolution.height as u32,
                config.framerate,
            ),
            r.model() == (EncoderModel {
                config: H264EncoderConfig {
                    gop_size: if config.gop_size == 0 {
                        1
                    } else {
                        config.gop_size
                    },
                    ..config
                },
                allocated: 0,
                free: Seq::<u32>::empty(),
                pending: Seq::<PendingEncode>::empty(),
                retired: Seq::<u32>::empty(),
                reference: None,
                frames_since_keyframe: 0,
                frame_num: 0,
                idr_pic_id: 0,
            }),
    {
        H264Encoder {
            encoder: IntelVaapiH264Encoder::new(config),
            parameter_sets: h264_main_parameter_sets(config.resolution, config.framerate),
        }
    }

    pub fn parameter_sets(&self) -> (r: &bytes::Bytes)
        ensures
            bytes_contents(*r) == self.sets(),
    {
        &self.parameter_sets
    }

    /// The decisions of the encoder.
    pub fn decisions(&mut self) -> (r: &mut IntelVaapiH264Encoder)
        ensures
            r.model() == old(self).model(),
            final(self).model() == final(r).model(),
            final(self).sets() == old(self).sets(),
    {
        &mut self.encoder
    }

    /// Takes in what became of the oldest picture: the data that the hardware returned, or why it
    /// failed. A picture that failed, or that came back empty, is given up.
    pub fn complete_oldest(&mut self, outcome: Result<Vec<Vec<u8>>, String>) -> (r: Result<
        EncodedFrame,
        String,
    >)
        requires
            old(self).wf(),
        ensures
            final(self).wf(),
            final(self).sets() == old(self).sets(),
            if old(self).model().pending.len() == 0 {
                &&& final(self).model() == old(self).model()
                &&& r is Err && r->Err_0@ == "VA-API encoder has no pending frame"@
            } else {
                let picture = old(self).model().pending[0];
                match outcome {
                    Err(message) => {
                        &&& final(self).model() == old(self).model().without_oldest()
                        &&& r is Err && r->Err_0 == message
                    },
                    Ok(segments) => if put_together(segments@).len() == 0 {
                        &&& final(self).model() == old(self).model().without_oldest()
                        &&& r is Err && r->Err_0@ == "VA-API encoder returned empty coded data"@
                    } else {
                        &&& final(self).model() == old(self).model().completed()
                        &&& r is Ok
                        &&& returned_as(old(self).sets(), picture, put_together(segments@)) == (
                        ReturnedPicture {
                            pts: r->Ok_0.pts,
                            is_keyframe: r->Ok_0.is_keyframe,
                            data: bytes_contents(r->Ok_0.data),
                        })
                        &&& bytes_contents(r->Ok_0.data) == coded_picture(
                            old(self).sets(),
                            put_together(segments@),
                            picture.is_keyframe,
                        )
                        &&& r->Ok_0.pts == picture.pts
                        &&& r->Ok_0.is_keyframe == picture.is_keyframe
                    },
                }
            },
    {
        let picture = self.encoder.oldest()?;
        let data = match outcome {
            Ok(segments) => collect_coded_data(
                &self.parameter_sets,
                &segments,
                picture.is_keyframe,
            ),
            Err(message) => Err(message),
        };
        match data {
            Ok(data) => {
                let done = self.encoder.complete_oldest()?;
                Ok(EncodedFrame { data, pts: done.pts, is_keyframe: done.is_keyframe })
            },
            Err(message) => {
                let _ = self.encoder.drop_oldest();
                Err(message)
            },
        }
    }
}

proof fn lemma_taken_wf(before: EncoderModel)
    requires
        before.wf(),
        before.free.len() > 0,
    ensures
        ({
            let after = EncoderModel { free: before.free.drop_last(), ..before };
            after.wf() && after.unowned(before.free.last())
        }),
{
    let after = EncoderModel { free: before.free.drop_last(), ..before };
    let surface = before.free.last();
    assert(before.free.contains(surface));
    assert forall|other: u32| #[trigger] after.free.contains(other) implies before.free.contains(
        other,
    ) && other != surface by {
        let i = choose|i: int| 0 <= i < after.free.len() && after.free[i] == other;
        assert(before.free[i] == other);
        assert(before.free[before.free.len() - 1] == surface);
    }
    lemma_same_users(before, after);
}

proof fn lemma_added_wf(before: EncoderModel, created: int)
    requires
        before.wf(),
        before.allocated >= 0,
        0 < created,
        before.allocated + created <= u32::MAX,
    ensures
        ({
            let after = EncoderModel {
                allocated: before.allocated + created,
                free: before.free + Seq::new(
                    (created - 1) as nat,
                    |i: int| (before.allocated + i) as u32,
                ),
                ..before
            };
            after.wf() && after.unowned((before.allocated + created - 1) as u32)
        }),
{
    let fresh = Seq::new((created - 1) as nat, |i: int| (before.allocated + i) as u32);
    let after = EncoderModel {
        allocated: before.allocated + created,
        free: before.free + fresh,
        ..before
    };
    lemma_same_users(before, after);
    assert forall|other: u32| before.allocated <= other implies {
        &&& !before.free.contains(other)
        &&& !before.retired.contains(other)
        &&& !before.is_reference(other)
        &&& !before.reader_is_pending(other)
        &&& !(#[trigger] before.producer_is_pending(other))
    } by {}
    assert forall|other: u32| #[trigger] after.free.contains(other) implies before.free.contains(
        other,
    ) || before.allocated <= other < before.allocated + created - 1 by {
        let i = choose|i: int| 0 <= i < after.free.len() && after.free[i] == other;
        if i < before.free.len() {
            assert(before.free[i] == other);
        } else {
            assert(fresh[i - before.free.len()] == other);
        }
    }
    assert(after.free.no_duplicates()) by {
        assert forall|i: int, j: int|
            0 <= i < after.free.len() && 0 <= j < after.free.len() && i != j implies after.free[i]
            != after.free[j] by {
            let n = before.free.len() as int;
            if i < n {
                assert(before.free.contains(before.free[i]));
            }
            if j < n {
                assert(before.free.contains(before.free[j]));
            }
            if i >= n {
                assert(after.free[i] == fresh[i - n]);
            }
            if j >= n {
                assert(after.free[j] == fresh[j - n]);
            }
        }
    }
    let surface = (before.allocated + created - 1) as u32;
    assert(!before.producer_is_pending(surface));
    assert forall|other: u32| #[trigger] after.free.contains(other) implies !before.retired.contains(
        other,
    ) && !before.is_reference(other) && !before.reader_is_pending(other)
        && !before.producer_is_pending(other) by {
        let _ = before.producer_is_pending(other);
    }
}

/// Who uses a surface depends on the pictures that are with the hardware and on the reference.
proof fn lemma_same_users(one: EncoderModel, other: EncoderModel)
    requires
        one.pending == other.pending,
        one.reference == other.reference,
    ensures
        forall|surface: u32|
            {
                &&& #[trigger] one.reader_is_pending(surface) == other.reader_is_pending(surface)
                &&& one.is_reference(surface) == other.is_reference(surface)
            },
        forall|surface: u32|
            {
                &&& one.reader_is_pending(surface) == #[trigger] other.reader_is_pending(surface)
                &&& one.is_reference(surface) == other.is_reference(surface)
            },
        forall|surface: u32|
            #[trigger] one.producer_is_pending(surface) == other.producer_is_pending(surface),
        forall|surface: u32|
            one.producer_is_pending(surface) == #[trigger] other.producer_is_pending(surface),
{
}

proof fn lemma_push_contains(list: Seq<u32>, added: u32)
    ensures
        forall|x: u32| #[trigger] list.push(added).contains(x) <==> list.contains(x) || x == added,
        list.no_duplicates() && !list.contains(added) ==> list.push(added).no_duplicates(),
{
    assert forall|x: u32| #[trigger] list.push(added).contains(x) <==> list.contains(x) || x
        == added by {
        if list.push(added).contains(x) {
            let i = choose|i: int| 0 <= i < list.push(added).len() && list.push(added)[i] == x;
            if i < list.len() {
                assert(list[i] == x);
            }
        }
        if list.contains(x) {
            let i = choose|i: int| 0 <= i < list.len() && list[i] == x;
            assert(list.push(added)[i] == x);
        }
        assert(list.push(added)[list.len() as int] == added);
    }
    if list.no_duplicates() && !list.contains(added) {
        let all = list.push(added);
        assert forall|i: int, j: int| 0 <= i < all.len() && 0 <= j < all.len() && i != j implies all[i]
            != all[j] by {
            if i < list.len() {
                assert(list.contains(list[i]));
            }
            if j < list.len() {
                assert(list.contains(list[j]));
            }
        }
    }
}

proof fn lemma_submitted_wf(before: EncoderModel, surface: u32, pts: Duration, is_keyframe: bool)
    requires
        before.wf(),
        before.unowned(surface),
    ensures
        before.submitted(surface, pts, is_keyframe).wf(),
{
    let after = before.submitted(surface, pts, is_keyframe);
    let n = before.pending.len() as int;
    let added = after.pending[n];
    assert(after.pending == before.pending.push(added));
    assert forall|x: u32| #[trigger] after.producer_is_pending(x) implies
    before.producer_is_pending(x) || x == surface by {
        let i = choose|i: int|
            0 <= i < after.pending.len() && (#[trigger] after.pending[i]).reconstructed == x;
        if i < n {
            assert(before.pending[i].reconstructed == x);
        }
    }
    assert forall|x: u32| #[trigger] after.reader_is_pending(x) implies before.reader_is_pending(x)
        || added.retired_after_sync == Some(x) by {
        let i = choose|i: int|
            0 <= i < after.pending.len() && (#[trigger] after.pending[i]).retired_after_sync
                == Some(x);
        if i < n {
            assert(before.pending[i].retired_after_sync == Some(x));
        }
    }
    if before.reference is Some {
        let old_reference = before.reference->0.surface;
        lemma_push_contains(before.free, old_reference);
        lemma_push_contains(before.retired, old_reference);
        assert(before.is_reference(old_reference));
        assert(surface != old_reference);
    }
    assert forall|i: int, j: int| 0 <= i < j < after.pending.len() implies {
        &&& (#[trigger] after.pending[i]).reconstructed != (
        #[trigger] after.pending[j]).reconstructed
        &&& after.pending[j].retired_after_sync is Some ==> after.pending[i].retired_after_sync
            != after.pending[j].retired_after_sync
        &&& after.pending[i].retired_after_sync != Some(after.pending[j].reconstructed)
    } by {
        assert(after.pending[i] == before.pending[i]);
        if j < n {
            assert(after.pending[j] == before.pending[j]);
        } else {
            assert(before.pending[i].reconstructed != surface) by {
                assert(!before.producer_is_pending(surface));
            }
            assert(before.pending[i].retired_after_sync != Some(surface)) by {
                assert(!before.reader_is_pending(surface));
            }
            if added.retired_after_sync is Some {
                assert(!before.reader_is_pending(added.retired_after_sync->0));
            }
        }
    }
    assert forall|i: int| 0 <= i < after.pending.len() implies (
    #[trigger] after.pending[i]).retired_after_sync != Some(after.pending[i].reconstructed) by {
        if i < n {
            assert(after.pending[i] == before.pending[i]);
        }
    }
    assert forall|i: int| 0 <= i < after.pending.len() implies {
        &&& (#[trigger] after.pending[i]).reconstructed < after.allocated
        &&& after.pending[i].retired_after_sync is Some
            ==> after.pending[i].retired_after_sync->0 < after.allocated
    } by {
        if i < n {
            assert(after.pending[i] == before.pending[i]);
        }
    }
    assert(!after.reader_is_pending(surface));
}

proof fn lemma_completed_wf(before: EncoderModel)
    requires
        before.wf(),
        before.pending.len() > 0,
    ensures
        before.completed().wf(),
        before.without_oldest().wf(),
{
    let done = before.pending[0];
    let rest = before.without_oldest();
    assert forall|x: u32| #[trigger] rest.producer_is_pending(x) implies
    before.producer_is_pending(x) && x != done.reconstructed && done.retired_after_sync != Some(
        x,
    ) by {
        let i = choose|i: int|
            0 <= i < rest.pending.len() && (#[trigger] rest.pending[i]).reconstructed == x;
        assert(before.pending[i + 1].reconstructed == x);
        assert(before.pending[0].reconstructed != before.pending[i + 1].reconstructed);
    }
    assert forall|x: u32| #[trigger] rest.reader_is_pending(x) implies before.reader_is_pending(x)
        && done.retired_after_sync != Some(x) by {
        let i = choose|i: int|
            0 <= i < rest.pending.len() && (#[trigger] rest.pending[i]).retired_after_sync == Some(
                x,
            );
        assert(before.pending[i + 1].retired_after_sync == Some(x));
        assert(before.pending[0].reconstructed != before.pending[i + 1].reconstructed);
    }
    assert forall|i: int, j: int| 0 <= i < j < rest.pending.len() implies {
        &&& (#[trigger] rest.pending[i]).reconstructed != (#[trigger] rest.pending[j]).reconstructed
        &&& rest.pending[j].retired_after_sync is Some ==> rest.pending[i].retired_after_sync
            != rest.pending[j].retired_after_sync
        &&& rest.pending[i].retired_after_sync != Some(rest.pending[j].reconstructed)
    } by {
        assert(rest.pending[i] == before.pending[i + 1]);
        assert(rest.pending[j] == before.pending[j + 1]);
    }
    assert(rest.wf());
    let read = match done.retired_after_sync {
        Some(surface) => EncoderModel { free: rest.free.push(surface), ..rest },
        None => rest,
    };
    lemma_same_users(rest, read);
    if done.retired_after_sync is Some {
        let surface = done.retired_after_sync->0;
        assert(before.pending[0].retired_after_sync == Some(surface));
        assert(before.reader_is_pending(surface));
        lemma_push_contains(rest.free, surface);
        assert(!rest.producer_is_pending(surface));
        assert(!rest.reader_is_pending(surface));
    }
    assert(read.wf());
    let after = read.released(done.reconstructed);
    lemma_same_users(read, after);
    if read.retired.contains(done.reconstructed) {
        let surface = done.reconstructed;
        let at = read.retired.index_of(surface);
        assert(0 <= at < read.retired.len() && read.retired[at] == surface);
        assert(!read.producer_is_pending(surface));
        assert(!read.free.contains(surface));
        lemma_push_contains(read.free, surface);
        let last = read.retired.len() - 1;
        let kept = |i: int| if i == at { last } else { i };
        assert forall|i: int| 0 <= i < after.retired.len() implies after.retired[i]
            == read.retired[#[trigger] kept(i)] by {}
        assert forall|x: u32| #[trigger] after.retired.contains(x) implies read.retired.contains(x)
            && x != surface by {
            let i = choose|i: int| 0 <= i < after.retired.len() && after.retired[i] == x;
            assert(read.retired[kept(i)] == x);
        }
        assert forall|i: int, j: int|
            0 <= i < after.retired.len() && 0 <= j < after.retired.len() && i != j implies
        after.retired[i] != after.retired[j] by {
            assert(read.retired[kept(i)] != read.retired[kept(j)]);
        }
        assert(after.wf());
    }
}

} // verus!
