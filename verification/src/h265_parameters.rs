//! Parameters of H.265 streams for Vulkan video.

use crate::text::{decimal, decimal_text};
use vstd::prelude::*;

verus! {

/// The number that Vulkan gives to level 6.1.
pub const LEVEL_6_1: u32 = 11;

/// The level number of the stream for each level number of Vulkan, in order.
pub open spec fn level_idcs() -> Seq<u8> {
    seq![30u8, 60u8, 63u8, 90u8, 93u8, 120u8, 123u8, 150u8, 153u8, 156u8, 180u8, 183u8, 186u8]
}

/// Why data for a decoder is not accepted.
#[derive(Debug)]
pub enum VulkanDecoderError {
    InvalidInputData(String),
}

/// The level number of the stream for a level number of Vulkan.
pub fn vk_to_h265_level_idc(level_idc: u32) -> (r: Result<u8, VulkanDecoderError>)
    ensures
        match r {
            Ok(level) => level_idc < level_idcs().len() && level == level_idcs()[level_idc as int],
            Err(VulkanDecoderError::InvalidInputData(message)) => {
                &&& level_idc >= level_idcs().len()
                &&& message@ == "unknown StdVideoH265LevelIdc: "@ + decimal_text(
                    level_idc as nat,
                )
            },
        },
{
    match level_idc {
        0 => Ok(30),
        1 => Ok(60),
        2 => Ok(63),
        3 => Ok(90),
        4 => Ok(93),
        5 => Ok(120),
        6 => Ok(123),
        7 => Ok(150),
        8 => Ok(153),
        9 => Ok(156),
        10 => Ok(180),
        11 => Ok(183),
        12 => Ok(186),
        _ => {
            let number = decimal(level_idc as u64);
            Err(
                VulkanDecoderError::InvalidInputData(
                    String::from_str("unknown StdVideoH265LevelIdc: ").concat(number.as_str()),
                ),
            )
        },
    }
}

/// How pictures are buffered, for each of seven temporal layers.
#[derive(Debug, Clone, Copy)]
pub struct DecPicBufMgr {
    pub max_latency_increase_plus1: [u32; 7],
    pub max_dec_pic_buffering_minus1: [u8; 7],
    pub max_num_reorder_pics: [u8; 7],
}

/// The profile, tier and level of a stream.
#[derive(Debug, Clone, Copy, PartialEq, Eq, Structural)]
pub struct ProfileTierLevel {
    pub tier: bool,
    pub progressive_source: bool,
    pub interlaced_source: bool,
    pub non_packed_constraint: bool,
    pub frame_only_constraint: bool,
    pub general_profile_idc: u32,
    pub general_level_idc: u32,
}

/// What the video parameter set of an encoded stream says.
#[derive(Debug, Clone, Copy)]
pub struct VideoParameterSet {
    pub temporal_id_nesting: bool,
    pub sub_layer_ordering_info_present: bool,
    pub timing_info_present: bool,
    pub poc_proportional_to_timing: bool,
    pub id: u8,
    pub max_sub_layers_minus1: u8,
    pub num_units_in_tick: u32,
    pub time_scale: u32,
    pub num_ticks_poc_diff_one_minus1: u32,
    pub profile_tier_level: ProfileTierLevel,
    pub dec_pic_buf_mgr: DecPicBufMgr,
}

/// The first of seven values, and zeros.
pub open spec fn first_of_seven<T>(first: T, zero: T) -> Seq<T> {
    seq![first, zero, zero, zero, zero, zero, zero]
}

/// What the video parameter set of an encoded stream says: one layer, no reordering.
pub fn new_encode_vps(general_profile_idc: u32, max_references: u32) -> (r: VideoParameterSet)
    ensures
        r.temporal_id_nesting,
        r.sub_layer_ordering_info_present,
        !r.timing_info_present,
        !r.poc_proportional_to_timing,
        r.id == 0,
        r.max_sub_layers_minus1 == 0,
        r.num_units_in_tick == 0,
        r.time_scale == 0,
        r.num_ticks_poc_diff_one_minus1 == 0,
        r.profile_tier_level == (ProfileTierLevel {
            tier: true,
            progressive_source: true,
            interlaced_source: false,
            non_packed_constraint: true,
            frame_only_constraint: true,
            general_profile_idc,
            general_level_idc: LEVEL_6_1,
        }),
        r.dec_pic_buf_mgr.max_latency_increase_plus1@ == first_of_seven(1u32, 0u32),
        r.dec_pic_buf_mgr.max_dec_pic_buffering_minus1@ == first_of_seven(
            max_references as u8,
            0u8,
        ),
        r.dec_pic_buf_mgr.max_num_reorder_pics@ == first_of_seven(0u8, 0u8),
{
    let buffering: [u8; 7] = [max_references as u8, 0, 0, 0, 0, 0, 0];
    let latency: [u32; 7] = [1, 0, 0, 0, 0, 0, 0];
    let reorder: [u8; 7] = [0, 0, 0, 0, 0, 0, 0];
    assert(buffering@ =~= first_of_seven(max_references as u8, 0u8));
    assert(latency@ =~= first_of_seven(1u32, 0u32));
    assert(reorder@ =~= first_of_seven(0u8, 0u8));
    VideoParameterSet {
        temporal_id_nesting: true,
        sub_layer_ordering_info_present: true,
        timing_info_present: false,
        poc_proportional_to_timing: false,
        id: 0,
        max_sub_layers_minus1: 0,
        num_units_in_tick: 0,
        time_scale: 0,
        num_ticks_poc_diff_one_minus1: 0,
        profile_tier_level: ProfileTierLevel {
            tier: true,
            progressive_source: true,
            interlaced_source: false,
            non_packed_constraint: true,
            frame_only_constraint: true,
            general_profile_idc,
            general_level_idc: LEVEL_6_1,
        },
        dec_pic_buf_mgr: DecPicBufMgr {
            max_latency_increase_plus1: latency,
            max_dec_pic_buffering_minus1: buffering,
            max_num_reorder_pics: reorder,
        },
    }
}

/// The level number of a stream is thirty times the level, which counts its tenths in threes. The levels
/// are 1, then 2 to 4 with one step between each and the next, then 5 and 6 with two.
pub proof fn lemma_level_number_is_thirty_times_the_level(level_idc: u32)
    requires
        level_idc < level_idcs().len(),
    ensures
        ({
            let number = level_idcs()[level_idc as int] as int;
            &&& level_idcs().len() == 13
            &&& level_idc == 0 ==> number == 30
            &&& 1 <= level_idc <= 6 ==> number == 30 * (2 + (level_idc - 1) / 2) + 3 * ((level_idc
                - 1) % 2)
            &&& level_idc >= 7 ==> number == 30 * (5 + (level_idc - 7) / 3) + 3 * ((level_idc - 7)
                % 3)
            &&& level_idc == LEVEL_6_1 <==> number == 183
        }),
{
}

/// Only the first of the seven layers is used.
pub proof fn lemma_only_one_layer_is_used<T>(first: T, zero: T)
    ensures
        first_of_seven(first, zero).len() == 7,
        first_of_seven(first, zero)[0] == first,
        forall|i: int| 1 <= i < 7 ==> #[trigger] first_of_seven(first, zero)[i] == zero,
{
}

} // verus!
