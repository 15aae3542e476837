//! How a hardware H.264 encoder is configured, and what becomes of what it returns.

use crate::annexb::{contains_idr, nalu_types, NALU_TYPE_IDR};
use crate::h264_parameter_sets::at_least_one;
use crate::media::{Framerate, Resolution};
use crate::time::{Duration, NANOS_PER_MICRO};
use cros_codecs::codec::h264::parser::{Level, Pps, PpsBuilder, Profile, Sps, SpsBuilder};
use cros_codecs::codec::h264::synthesizer::Synthesizer;
use vstd::prelude::*;

verus! {

/// The main profile.
pub const PROFILE_MAIN: u8 = 77;

/// Level 4.
pub const LEVEL_4: u8 = 40;

/// What a sequence parameter set says.
#[derive(Debug, Clone, Copy, PartialEq, Eq, Structural)]
pub struct SequenceHeader {
    pub id: u8,
    pub profile: u8,
    pub level: u8,
    pub max_frame_num: u32,
    pub pic_order_cnt_type: u8,
    pub max_pic_order_cnt_lsb: u32,
    pub max_num_ref_frames: u8,
    pub frame_mbs_only: bool,
    pub direct_8x8_inference: bool,
    pub width: u32,
    pub height: u32,
    pub bit_depth_luma: u8,
    pub bit_depth_chroma: u8,
    pub aspect_width: u16,
    pub aspect_height: u16,
    pub num_units_in_tick: u32,
    pub time_scale: u32,
    pub fixed_frame_rate: bool,
}

/// What a picture parameter set says.
#[derive(Debug, Clone, Copy, PartialEq, Eq, Structural)]
pub struct PictureHeader {
    pub id: u8,
    pub sequence_id: u8,
    pub init_qp: u8,
    pub deblocking_control: bool,
    pub references_l0: u8,
    pub references_l1_minus1: u8,
}

/// The sequence parameter set, with its start code, that `cros_codecs` writes for these values; none
/// where it cannot write one.
pub uninterp spec fn synthesized_sps(header: SequenceHeader, ref_idc: u8) -> Option<Seq<u8>>;

/// The picture parameter set, with its start code, that `cros_codecs` writes for these values; none
/// where it cannot write one.
pub uninterp spec fn synthesized_pps(header: PictureHeader, ref_idc: u8) -> Option<Seq<u8>>;

/// A side of a picture that `cros_codecs` can round up to whole macroblocks: it adds sixteen first.
pub open spec fn synthesizable_side(side: u32) -> bool {
    0 < side < 0xffff_fff0
}

/// Calls `cros_codecs`'s `SpsBuilder` and `Synthesizer::<Sps, _>::synthesize`, with emulation
/// prevention. Trusted: the result is a function of the arguments. Left out are the arguments on
/// which the builder's arithmetic fails: numbers below sixteen, sides that cannot be rounded up, and
/// bit depths below eight.
#[verifier::external_body]
fn synthesize_sps(h: SequenceHeader, ref_idc: u8) -> (r: Option<Vec<u8>>)
    requires
        h.max_frame_num >= 16,
        h.max_pic_order_cnt_lsb >= 16,
        synthesizable_side(h.width),
        synthesizable_side(h.height),
        h.bit_depth_luma >= 8,
        h.bit_depth_chroma >= 8,
    ensures
        bytes_of(r) == synthesized_sps(h, ref_idc),
{
    let sps = SpsBuilder::new().seq_parameter_set_id(h.id)
        .profile_idc(Profile::try_from(h.profile).ok()?).level_idc(Level::try_from(h.level).ok()?)
        .max_frame_num(h.max_frame_num).pic_order_cnt_type(h.pic_order_cnt_type)
        .max_pic_order_cnt_lsb(h.max_pic_order_cnt_lsb).max_num_ref_frames(h.max_num_ref_frames)
        .frame_mbs_only_flag(h.frame_mbs_only).direct_8x8_inference_flag(h.direct_8x8_inference)
        .resolution(h.width, h.height).bit_depth_luma(h.bit_depth_luma)
        .bit_depth_chroma(h.bit_depth_chroma).aspect_ratio(h.aspect_width, h.aspect_height)
        .timing_info(h.num_units_in_tick, h.time_scale, h.fixed_frame_rate).build();
    let mut data = Vec::new();
    Synthesizer::<Sps, &mut Vec<u8>>::synthesize(ref_idc, &sps, &mut data, true).ok()?;
    Some(data)
}

/// Calls `cros_codecs`'s `PpsBuilder` and `Synthesizer::<Pps, _>::synthesize`, with emulation
/// prevention. Trusted: the result is a function of the arguments. Left out are the arguments on
/// which the builder's arithmetic fails.
#[verifier::external_body]
fn synthesize_pps(h: PictureHeader, ref_idc: u8) -> (r: Option<Vec<u8>>)
    requires
        h.init_qp <= 127,
        h.references_l0 >= 1,
    ensures
        bytes_of(r) == synthesized_pps(h, ref_idc),
{
    let sps = SpsBuilder::new().seq_parameter_set_id(h.sequence_id).build();
    let pps = PpsBuilder::new(sps).pic_parameter_set_id(h.id).pic_init_qp(h.init_qp)
        .deblocking_filter_control_present_flag(h.deblocking_control)
        .num_ref_idx_l0_default_active(h.references_l0)
        .num_ref_idx_l1_default_active_minus1(h.references_l1_minus1).build();
    let mut data = Vec::new();
    Synthesizer::<Pps, &mut Vec<u8>>::synthesize(ref_idc, &pps, &mut data, true).ok()?;
    Some(data)
}

/// The bytes, if there are any.
pub open spec fn bytes_of(data: Option<Vec<u8>>) -> Option<Seq<u8>> {
    match data {
        Some(data) => Some(data@),
        None => None,
    }
}

/// How many pictures a group has: at least one, and as many as fit into 16 bits.
pub open spec fn clamped_gop(gop_size: u64) -> u16 {
    if gop_size < 1 {
        1
    } else if gop_size > u16::MAX {
        u16::MAX
    } else {
        gop_size as u16
    }
}

/// How many pictures a group has: at least one, and as many as fit into 16 bits.
pub fn clamp_gop_size(gop_size: u64) -> (r: u16)
    ensures
        r == clamped_gop(gop_size),
{
    if gop_size < 1 {
        1
    } else if gop_size > u16::MAX as u64 {
        u16::MAX
    } else {
        gop_size as u16
    }
}

/// Whole pictures per second.
pub open spec fn whole_fps(framerate: Framerate) -> int {
    framerate.num as int / at_least_one(framerate.den) as int
}

/// Whole pictures per second.
pub fn frames_per_second(framerate: Framerate) -> (r: u32)
    ensures
        r == whole_fps(framerate),
{
    let den: u32 = if framerate.den == 0 {
        1
    } else {
        framerate.den
    };
    framerate.num / den
}

/// How an encoder is configured.
#[derive(Debug, Clone, Copy, PartialEq, Eq, Structural)]
pub struct EncoderPlan {
    pub width: u32,
    pub height: u32,
    pub profile: u8,
    pub level: u8,
    /// How many pictures refer to each other before a keyframe comes.
    pub gop_size: u16,
    /// Bits per second, which are kept constant.
    pub bitrate: u64,
    pub framerate: u32,
}

/// How an encoder is configured for a stream.
pub open spec fn plan_for(
    resolution: Resolution,
    framerate: Framerate,
    gop_size: u64,
    bitrate: Option<u64>,
    default_bitrate: u64,
) -> EncoderPlan {
    EncoderPlan {
        width: resolution.width as u32,
        height: resolution.height as u32,
        profile: PROFILE_MAIN,
        level: LEVEL_4,
        gop_size: clamped_gop(gop_size),
        bitrate: match bitrate {
            Some(bitrate) => bitrate,
            None => default_bitrate,
        },
        framerate: whole_fps(framerate) as u32,
    }
}

/// How an encoder is configured. Where no bit rate was asked for, the one that suits the stream is
/// used.
pub fn plan_encoder(
    resolution: Resolution,
    framerate: Framerate,
    gop_size: u64,
    bitrate: Option<u64>,
    default_bitrate: u64,
) -> (r: EncoderPlan)
    ensures
        r == plan_for(resolution, framerate, gop_size, bitrate, default_bitrate),
        r == (EncoderPlan {
            width: resolution.width as u32,
            height: resolution.height as u32,
            profile: PROFILE_MAIN,
            level: LEVEL_4,
            gop_size: clamped_gop(gop_size),
            bitrate: match bitrate {
                Some(bitrate) => bitrate,
                None => default_bitrate,
            },
            framerate: whole_fps(framerate) as u32,
        }),
{
    EncoderPlan {
        width: resolution.width as u32,
        height: resolution.height as u32,
        profile: PROFILE_MAIN,
        level: LEVEL_4,
        gop_size: clamp_gop_size(gop_size),
        bitrate: match bitrate {
            Some(bitrate) => bitrate,
            None => default_bitrate,
        },
        framerate: frames_per_second(framerate),
    }
}

/// Both parameter sets, one after the other; none where one of them is missing.
pub open spec fn both_sets(sps: Option<Seq<u8>>, pps: Option<Seq<u8>>) -> Option<Seq<u8>> {
    match (sps, pps) {
        (Some(sps), Some(pps)) => Some(sps + pps),
        _ => None,
    }
}

/// Puts both parameter sets together, if both are there.
pub fn join_parameter_sets(sps: Option<Vec<u8>>, pps: Option<Vec<u8>>) -> (r: Option<Vec<u8>>)
    ensures
        bytes_of(r) == both_sets(bytes_of(sps), bytes_of(pps)),
{
    match (sps, pps) {
        (Some(sps), Some(pps)) => {
            let mut headers = sps;
            headers.extend_from_slice(pps.as_slice());
            Some(headers)
        },
        _ => None,
    }
}

/// The frame rate doubled, as a time scale, where a rate of zero counts as one.
pub open spec fn doubled_rate(framerate: Framerate) -> int {
    2 * if whole_fps(framerate) < 1 {
        1
    } else {
        whole_fps(framerate)
    }
}

/// What the sequence parameter set of a stream says.
pub open spec fn sequence_header_for(
    resolution: Resolution,
    framerate: Framerate,
    gop_size: u64,
) -> SequenceHeader {
    SequenceHeader {
        id: 0,
        profile: PROFILE_MAIN,
        level: LEVEL_4,
        max_frame_num: clamped_gop(gop_size) as u32,
        pic_order_cnt_type: 0,
        max_pic_order_cnt_lsb: (2 * clamped_gop(gop_size)) as u32,
        max_num_ref_frames: 1,
        frame_mbs_only: true,
        direct_8x8_inference: true,
        width: resolution.width as u32,
        height: resolution.height as u32,
        bit_depth_luma: 8,
        bit_depth_chroma: 8,
        aspect_width: 1,
        aspect_height: 1,
        num_units_in_tick: 1,
        time_scale: doubled_rate(framerate) as u32,
        fixed_frame_rate: false,
    }
}

/// What the sequence parameter set of a stream says.
pub fn sequence_header(resolution: Resolution, framerate: Framerate, gop_size: u64) -> (r:
    SequenceHeader)
    requires
        doubled_rate(framerate) <= u32::MAX,
    ensures
        r == sequence_header_for(resolution, framerate, gop_size),
{
    let gop_size: u32 = clamp_gop_size(gop_size) as u32;
    let fps: u32 = frames_per_second(framerate);
    let rate: u32 = if fps < 1 {
        1
    } else {
        fps
    };
    SequenceHeader {
        id: 0,
        profile: PROFILE_MAIN,
        level: LEVEL_4,
        max_frame_num: gop_size,
        pic_order_cnt_type: 0,
        max_pic_order_cnt_lsb: gop_size * 2,
        max_num_ref_frames: 1,
        frame_mbs_only: true,
        direct_8x8_inference: true,
        width: resolution.width as u32,
        height: resolution.height as u32,
        bit_depth_luma: 8,
        bit_depth_chroma: 8,
        aspect_width: 1,
        aspect_height: 1,
        num_units_in_tick: 1,
        time_scale: rate * 2,
        fixed_frame_rate: false,
    }
}

/// What the picture parameter set of a stream says.
pub fn picture_header() -> (r: PictureHeader)
    ensures
        r == picture_header_for_all(),
{
    PictureHeader {
        id: 0,
        sequence_id: 0,
        init_qp: 26,
        deblocking_control: true,
        references_l0: 1,
        references_l1_minus1: 0,
    }
}

/// What the picture parameter set of a stream says.
pub open spec fn picture_header_for_all() -> PictureHeader {
    PictureHeader {
        id: 0,
        sequence_id: 0,
        init_qp: 26,
        deblocking_control: true,
        references_l0: 1,
        references_l1_minus1: 0,
    }
}

/// How important parameter sets are: as much as can be.
pub const PARAMETER_SET_REF_IDC: u8 = 3;

/// The parameter sets that a decoder is configured with.
pub fn avc_decoder_headers(resolution: Resolution, framerate: Framerate, gop_size: u64) -> (r: Option<
    Vec<u8>,
>)
    requires
        clamped_gop(gop_size) >= 16,
        synthesizable_side(resolution.width as u32),
        synthesizable_side(resolution.height as u32),
        doubled_rate(framerate) <= u32::MAX,
    ensures
        bytes_of(r) == both_sets(
            synthesized_sps(
                sequence_header_for(resolution, framerate, gop_size),
                PARAMETER_SET_REF_IDC,
            ),
            synthesized_pps(picture_header_for_all(), PARAMETER_SET_REF_IDC),
        ),
{
    let sps = synthesize_sps(
        sequence_header(resolution, framerate, gop_size),
        PARAMETER_SET_REF_IDC,
    );
    let pps = synthesize_pps(picture_header(), PARAMETER_SET_REF_IDC);
    join_parameter_sets(sps, pps)
}

/// How NAL units are delimited.
#[derive(Debug, Clone, Copy, PartialEq, Eq, Structural)]
pub enum H264BitstreamFormat {
    AnnexB,
    Avcc,
}

/// What the encoder says of a picture that it has encoded.
#[derive(Debug, Clone, Copy, PartialEq, Eq, Structural)]
pub struct CodedMetadata {
    pub timestamp: u64,
    pub force_keyframe: bool,
}

/// How an encoded picture is passed on.
#[derive(Debug, Clone, Copy, PartialEq, Eq, Structural)]
pub struct ChunkPlan {
    pub pts: Duration,
    pub is_keyframe: bool,
    /// Its start codes are replaced by lengths.
    pub to_avcc: bool,
}

/// How an encoded picture is passed on.
pub open spec fn chunk_for(
    metadata: CodedMetadata,
    bitstream: Seq<u8>,
    fallback_pts: Duration,
    format: H264BitstreamFormat,
) -> ChunkPlan {
    let coded = metadata.timestamp * NANOS_PER_MICRO;
    ChunkPlan {
        pts: if coded >= fallback_pts.nanos {
            Duration { nanos: coded as u128 }
        } else {
            fallback_pts
        },
        is_keyframe: metadata.force_keyframe || nalu_types(bitstream).contains(NALU_TYPE_IDR),
        to_avcc: format == H264BitstreamFormat::Avcc,
    }
}

/// How an encoded picture is passed on: its time is not before `fallback_pts`, and it is a keyframe
/// if it was asked to be one or turned out to be one.
pub fn plan_chunk(
    metadata: CodedMetadata,
    bitstream: &[u8],
    fallback_pts: Duration,
    format: H264BitstreamFormat,
) -> (r: ChunkPlan)
    ensures
        r == chunk_for(metadata, bitstream@, fallback_pts, format),
        r.is_keyframe == (metadata.force_keyframe || nalu_types(bitstream@).contains(
            NALU_TYPE_IDR,
        )),
        r.pts.nanos == if metadata.timestamp * NANOS_PER_MICRO >= fallback_pts.nanos {
            metadata.timestamp * NANOS_PER_MICRO
        } else {
            fallback_pts.nanos as int
        },
        r.to_avcc == (format == H264BitstreamFormat::Avcc),
{
    ChunkPlan {
        pts: Duration::from_micros(metadata.timestamp).longer(fallback_pts),
        is_keyframe: metadata.force_keyframe || contains_idr(bitstream),
        to_avcc: format == H264BitstreamFormat::Avcc,
    }
}

/// A group has as many pictures as were asked for, where that is between one and what fits into 16
/// bits, and otherwise the nearest number that is.
pub proof fn lemma_group_is_as_asked_within_bounds(gop_size: u64)
    ensures
        1 <= clamped_gop(gop_size) <= 65_535,
        1 <= gop_size <= 65_535 ==> clamped_gop(gop_size) == gop_size,
        gop_size == 0 ==> clamped_gop(gop_size) == 1,
        gop_size > 65_535 ==> clamped_gop(gop_size) == 65_535,
{
}

/// Whole pictures per second fit into the rate, and one more would not. A denominator of zero counts as
/// one.
pub proof fn lemma_whole_pictures_per_second(framerate: Framerate)
    ensures
        framerate.den == 0 ==> whole_fps(framerate) == framerate.num,
        framerate.den > 0 ==> whole_fps(framerate) * framerate.den <= framerate.num < (whole_fps(
            framerate,
        ) + 1) * framerate.den,
        doubled_rate(framerate) >= 2,
        whole_fps(framerate) >= 1 ==> doubled_rate(framerate) == 2 * whole_fps(framerate),
        whole_fps(framerate) < 1 ==> doubled_rate(framerate) == 2,
{
    if framerate.den > 0 {
        let num = framerate.num as int;
        let den = framerate.den as int;
        let fps = num / den;
        assert(fps * den <= num < (fps + 1) * den) by (nonlinear_arith)
            requires
                den > 0,
                fps == num / den,
        ;
    }
}

/// What a decoder is told about a stream: its size, twice its rate in ticks of one unit, numbers for a
/// whole group, order numbers for twice that, main profile at level 4, one reference, square pixels of
/// eight bits, whole frames.
pub proof fn lemma_decoder_is_told_the_stream(
    resolution: Resolution,
    framerate: Framerate,
    gop_size: u64,
)
    requires
        resolution.width <= u32::MAX,
        resolution.height <= u32::MAX,
        doubled_rate(framerate) <= u32::MAX,
    ensures
        ({
            let header = sequence_header_for(resolution, framerate, gop_size);
            &&& header.width == resolution.width && header.height == resolution.height
            &&& header.num_units_in_tick == 1
            &&& framerate.num >= framerate.den > 0 ==> header.time_scale == 2 * (framerate.num as int
                / framerate.den as int)
            &&& framerate.num < framerate.den ==> header.time_scale == 2
            &&& 1 <= gop_size <= 65_535 ==> header.max_frame_num == gop_size
                && header.max_pic_order_cnt_lsb == 2 * gop_size
            &&& header.max_pic_order_cnt_lsb == 2 * header.max_frame_num
            &&& header.profile == 77 && header.level == 40
            &&& header.pic_order_cnt_type == 0 && header.max_num_ref_frames == 1
            &&& header.frame_mbs_only && header.direct_8x8_inference && !header.fixed_frame_rate
            &&& header.bit_depth_luma == 8 && header.bit_depth_chroma == 8
            &&& header.aspect_width == header.aspect_height && header.aspect_width > 0
            &&& header.id == picture_header_for_all().sequence_id
        }),
{
    let num = framerate.num as int;
    let den = framerate.den as int;
    if num >= den > 0 {
        assert(num / den >= 1) by (nonlinear_arith)
            requires
                num >= den > 0,
        ;
    } else if num < den {
        assert(num / den == 0) by (nonlinear_arith)
            requires
                0 <= num < den,
        ;
    }
}

/// Nothing is handed out unless both sets are there, and then the sequence parameter set comes first,
/// and the picture parameter set right after it.
pub proof fn lemma_sets_come_together(sps: Option<Seq<u8>>, pps: Option<Seq<u8>>)
    ensures
        both_sets(sps, pps) is Some <==> sps is Some && pps is Some,
        both_sets(sps, pps) is Some ==> {
            let both = both_sets(sps, pps)->0;
            &&& both.len() == sps->0.len() + pps->0.len()
            &&& both.take(sps->0.len() as int) == sps->0
            &&& both.skip(sps->0.len() as int) == pps->0
        },
{
    if sps is Some && pps is Some {
        let both = both_sets(sps, pps)->0;
        assert(both.take(sps->0.len() as int) =~= sps->0);
        assert(both.skip(sps->0.len() as int) =~= pps->0);
    }
}

/// A picture is passed on at the later of two moments, the one that the encoder tells in microseconds
/// and the fallback. It counts as a keyframe if it was asked to be one, and if a unit of type 5 is in
/// it.
pub proof fn lemma_picture_is_passed_on_in_time(
    metadata: CodedMetadata,
    bitstream: Seq<u8>,
    fallback_pts: Duration,
    format: H264BitstreamFormat,
)
    ensures
        ({
            let chunk = chunk_for(metadata, bitstream, fallback_pts, format);
            &&& chunk.pts.nanos >= fallback_pts.nanos
            &&& chunk.pts.nanos >= 1_000 * metadata.timestamp
            &&& chunk.pts == fallback_pts || chunk.pts.nanos == 1_000 * metadata.timestamp
            &&& metadata.force_keyframe ==> chunk.is_keyframe
            &&& !metadata.force_keyframe ==> (chunk.is_keyframe <==> exists|i: int|
                0 <= i < nalu_types(bitstream).len() && #[trigger] nalu_types(bitstream)[i] == 5)
            &&& format == H264BitstreamFormat::Avcc ==> chunk.to_avcc
            &&& format == H264BitstreamFormat::AnnexB ==> !chunk.to_avcc
        }),
{
    let types = nalu_types(bitstream);
    if types.contains(NALU_TYPE_IDR) {
        let i = choose|i: int| 0 <= i < types.len() && types[i] == NALU_TYPE_IDR;
        assert(types[i] == 5);
    }
}

/// An encoder is configured for the stream that its decoder is told about: the same size, profile,
/// level and groups. A bit rate that was asked for is kept, and the default is used only where none
/// was.
pub proof fn lemma_encoder_and_decoder_agree(
    resolution: Resolution,
    framerate: Framerate,
    gop_size: u64,
    bitrate: Option<u64>,
    default_bitrate: u64,
)
    ensures
        ({
            let plan = plan_for(resolution, framerate, gop_size, bitrate, default_bitrate);
            let header = sequence_header_for(resolution, framerate, gop_size);
            &&& plan.width == header.width && plan.height == header.height
            &&& plan.profile == header.profile && plan.level == header.level
            &&& plan.gop_size == header.max_frame_num
            &&& bitrate is Some ==> plan.bitrate == bitrate->0
            &&& bitrate is None ==> plan.bitrate == default_bitrate
            &&& framerate.den == 0 ==> plan.framerate == framerate.num
            &&& framerate.den > 0 ==> plan.framerate * framerate.den <= framerate.num < (
            plan.framerate + 1) * framerate.den
        }),
{
    lemma_whole_pictures_per_second(framerate);
    let num = framerate.num as int;
    let den = framerate.den as int;
    if den > 0 {
        assert(0 <= num / den <= num) by (nonlinear_arith)
            requires
                num >= 0,
                den > 0,
        ;
    }
}

} // verus!
