//! Reading H.264 parameter sets back, field by field.
//!
//! What is read off a sequence parameter set is what a decoder goes by: the size at which pictures
//! are shown and the rate at which they follow each other.

use crate::bits::{
    be_bits, bits_of_bytes, bits_value, lemma_be_bits_len,
    lemma_bits_stand_most_significant_first, lemma_bits_value_of_be_bits, lemma_ue_round_trip,
    pack_bits, read_ue, se_bits, ue_bits, with_trailing_bits, zero_bits,
};
use crate::h264_parameter_sets::{
    at_least_one, codable_side, crop_units, doubled_clamped, escaped, lemma_unescape_escaped,
    macroblocks_over, parameter_sets, pps_bits, sps_bits, unescaped, vui_bits,
};
use crate::media::Framerate;
use vstd::arithmetic::power2::{lemma2_to64, lemma_pow2_unfold, pow2};
use vstd::prelude::*;

verus! {

/// The number in the first `count` bits, and the bits after them.
pub open spec fn read_bits(bits: Seq<bool>, count: int) -> (nat, Seq<bool>) {
    (bits_value(bits.take(count)), bits.skip(count))
}

/// The first bit, and the bits after it.
pub open spec fn read_flag(bits: Seq<bool>) -> (bool, Seq<bool>) {
    (bits[0], bits.skip(1))
}

/// The number in the Exp-Golomb code at the front, and the bits after it.
pub open spec fn read_code(bits: Seq<bool>) -> (int, Seq<bool>) {
    (read_ue(bits).0, bits.skip(read_ue(bits).1 as int))
}

/// How much of a picture is cut off, in chroma samples.
pub struct CropReading {
    pub left: int,
    pub right: int,
    pub top: int,
    pub bottom: int,
}

/// What a sequence parameter set says, up to the video usability information.
pub struct SpsReading {
    pub profile_idc: nat,
    pub constraint_flags: nat,
    pub level_idc: nat,
    pub seq_parameter_set_id: int,
    pub chroma_format_idc: int,
    pub bit_depth_luma_minus8: int,
    pub bit_depth_chroma_minus8: int,
    pub qpprime_y_zero_transform_bypass: bool,
    pub seq_scaling_matrix_present: bool,
    pub log2_max_frame_num_minus4: int,
    pub pic_order_cnt_type: int,
    pub log2_max_pic_order_cnt_lsb_minus4: int,
    pub max_num_ref_frames: int,
    pub gaps_in_frame_num_allowed: bool,
    pub pic_width_in_mbs_minus1: int,
    pub pic_height_in_map_units_minus1: int,
    pub frame_mbs_only: bool,
    pub direct_8x8_inference: bool,
    pub crop: CropReading,
    pub vui_parameters_present: bool,
}

/// What the video usability information of a sequence parameter set says.
pub struct VuiReading {
    pub aspect_ratio_info_present: bool,
    pub aspect_ratio_idc: nat,
    pub overscan_info_present: bool,
    pub video_signal_type_present: bool,
    pub chroma_loc_info_present: bool,
    pub timing_info_present: bool,
    pub num_units_in_tick: nat,
    pub time_scale: nat,
    pub fixed_frame_rate: bool,
    pub nal_hrd_parameters_present: bool,
    pub vcl_hrd_parameters_present: bool,
    pub pic_struct_present: bool,
    pub bitstream_restriction: bool,
}

/// Reads how much is cut off, where a flag says that something is.
pub open spec fn read_crop(bits: Seq<bool>) -> (CropReading, Seq<bool>) {
    let (cropped, bits) = read_flag(bits);
    if cropped {
        let (left, bits) = read_code(bits);
        let (right, bits) = read_code(bits);
        let (top, bits) = read_code(bits);
        let (bottom, bits) = read_code(bits);
        (CropReading { left, right, top, bottom }, bits)
    } else {
        (CropReading { left: 0, right: 0, top: 0, bottom: 0 }, bits)
    }
}

/// Reads a sequence parameter set, in which the chroma format and the bit depths follow the number
/// of the set, up to the video usability information.
pub open spec fn read_sps(bits: Seq<bool>) -> (SpsReading, Seq<bool>) {
    let (profile_idc, bits) = read_bits(bits, 8);
    let (constraint_flags, bits) = read_bits(bits, 8);
    let (level_idc, bits) = read_bits(bits, 8);
    let (seq_parameter_set_id, bits) = read_code(bits);
    let (chroma_format_idc, bits) = read_code(bits);
    let (bit_depth_luma_minus8, bits) = read_code(bits);
    let (bit_depth_chroma_minus8, bits) = read_code(bits);
    let (qpprime_y_zero_transform_bypass, bits) = read_flag(bits);
    let (seq_scaling_matrix_present, bits) = read_flag(bits);
    let (log2_max_frame_num_minus4, bits) = read_code(bits);
    let (pic_order_cnt_type, bits) = read_code(bits);
    let (log2_max_pic_order_cnt_lsb_minus4, bits) = read_code(bits);
    let (max_num_ref_frames, bits) = read_code(bits);
    let (gaps_in_frame_num_allowed, bits) = read_flag(bits);
    let (pic_width_in_mbs_minus1, bits) = read_code(bits);
    let (pic_height_in_map_units_minus1, bits) = read_code(bits);
    let (frame_mbs_only, bits) = read_flag(bits);
    let (direct_8x8_inference, bits) = read_flag(bits);
    let (crop, bits) = read_crop(bits);
    let (vui_parameters_present, bits) = read_flag(bits);
    (
        SpsReading {
            profile_idc,
            constraint_flags,
            level_idc,
            seq_parameter_set_id,
            chroma_format_idc,
            bit_depth_luma_minus8,
            bit_depth_chroma_minus8,
            qpprime_y_zero_transform_bypass,
            seq_scaling_matrix_present,
            log2_max_frame_num_minus4,
            pic_order_cnt_type,
            log2_max_pic_order_cnt_lsb_minus4,
            max_num_ref_frames,
            gaps_in_frame_num_allowed,
            pic_width_in_mbs_minus1,
            pic_height_in_map_units_minus1,
            frame_mbs_only,
            direct_8x8_inference,
            crop,
            vui_parameters_present,
        },
        bits,
    )
}

/// Reads video usability information that says something of the shape of samples and of the rate,
/// and nothing of what may stand between these and after them.
pub open spec fn read_vui(bits: Seq<bool>) -> (VuiReading, Seq<bool>) {
    let (aspect_ratio_info_present, bits) = read_flag(bits);
    let (aspect_ratio_idc, bits) = read_bits(bits, 8);
    let (overscan_info_present, bits) = read_flag(bits);
    let (video_signal_type_present, bits) = read_flag(bits);
    let (chroma_loc_info_present, bits) = read_flag(bits);
    let (timing_info_present, bits) = read_flag(bits);
    let (num_units_in_tick, bits) = read_bits(bits, 32);
    let (time_scale, bits) = read_bits(bits, 32);
    let (fixed_frame_rate, bits) = read_flag(bits);
    let (nal_hrd_parameters_present, bits) = read_flag(bits);
    let (vcl_hrd_parameters_present, bits) = read_flag(bits);
    let (pic_struct_present, bits) = read_flag(bits);
    let (bitstream_restriction, bits) = read_flag(bits);
    (
        VuiReading {
            aspect_ratio_info_present,
            aspect_ratio_idc,
            overscan_info_present,
            video_signal_type_present,
            chroma_loc_info_present,
            timing_info_present,
            num_units_in_tick,
            time_scale,
            fixed_frame_rate,
            nal_hrd_parameters_present,
            vcl_hrd_parameters_present,
            pic_struct_present,
            bitstream_restriction,
        },
        bits,
    )
}

/// The bits that close a payload: a one, and zeros.
pub open spec fn closes_payload(bits: Seq<bool>) -> bool {
    &&& 1 <= bits.len() <= 8
    &&& bits[0]
    &&& forall|i: int| 1 <= i < bits.len() ==> !(#[trigger] bits[i])
}

/// The width that a decoder shows.
pub open spec fn shown_width(sps: SpsReading) -> int {
    16 * (sps.pic_width_in_mbs_minus1 + 1) - 2 * (sps.crop.left + sps.crop.right)
}

/// The height that a decoder shows.
pub open spec fn shown_height(sps: SpsReading) -> int {
    16 * (sps.pic_height_in_map_units_minus1 + 1) - 2 * (sps.crop.top + sps.crop.bottom)
}

proof fn lemma_read_bits(value: nat, count: nat, rest: Seq<bool>)
    requires
        value < pow2(count),
    ensures
        read_bits(be_bits(value, count) + rest, count as int) == (value, rest),
{
    lemma_be_bits_len(value, count);
    lemma_bits_value_of_be_bits(value, count);
    assert((be_bits(value, count) + rest).take(count as int) =~= be_bits(value, count));
    assert((be_bits(value, count) + rest).skip(count as int) =~= rest);
}

proof fn lemma_read_flag(flag: bool, rest: Seq<bool>)
    ensures
        read_flag(seq![flag] + rest) == (flag, rest),
{
    assert((seq![flag] + rest).skip(1) =~= rest);
}

proof fn lemma_read_code(value: nat, rest: Seq<bool>)
    ensures
        read_code(ue_bits(value) + rest) == (value as int, rest),
{
    lemma_ue_round_trip(value, rest);
    assert((ue_bits(value) + rest).skip(ue_bits(value).len() as int) =~= rest);
}

proof fn lemma_push_then(first: Seq<bool>, flag: bool, rest: Seq<bool>)
    ensures
        first.push(flag) + rest == first + (seq![flag] + rest),
{
    assert(first.push(flag) + rest =~= first + (seq![flag] + rest));
}

proof fn lemma_add_then(first: Seq<bool>, next: Seq<bool>, rest: Seq<bool>)
    ensures
        first + next + rest == first + (next + rest),
{
    assert(first + next + rest =~= first + (next + rest));
}

/// The bits of video usability information before `rest`, first field first.
spec fn vui_fields(framerate: Framerate, rest: Seq<bool>) -> Seq<bool> {
    let t5 = seq![true] + (seq![false] + (seq![false] + (seq![false] + (seq![false] + rest))));
    let t4 = be_bits(at_least_one(framerate.den) as nat, 32) + (be_bits(
        doubled_clamped(at_least_one(framerate.num)) as nat,
        32,
    ) + t5);
    let t3 = seq![false] + (seq![false] + (seq![false] + (seq![true] + t4)));
    seq![true] + (be_bits(1, 8) + t3)
}

proof fn lemma_vui_fields(bits: Seq<bool>, framerate: Framerate, rest: Seq<bool>)
    ensures
        vui_bits(bits, framerate) + rest == bits + vui_fields(framerate, rest),
{
    let den = be_bits(at_least_one(framerate.den) as nat, 32);
    let scale = be_bits(doubled_clamped(at_least_one(framerate.num)) as nat, 32);
    let shape = bits.push(true) + be_bits(1, 8);
    let flags = shape.push(false).push(false).push(false).push(true);
    let timing = flags + den + scale;
    let t5 = seq![true] + (seq![false] + (seq![false] + (seq![false] + (seq![false] + rest))));
    let t4 = den + (scale + t5);
    let t3 = seq![false] + (seq![false] + (seq![false] + (seq![true] + t4)));
    assert(vui_bits(bits, framerate) + rest =~= timing + t5);
    assert(timing + t5 =~= flags + t4);
    assert(flags + t4 =~= shape + t3);
    assert(shape + t3 =~= bits + (seq![true] + (be_bits(1, 8) + t3)));
}

proof fn lemma_vui_is_read_back(framerate: Framerate, rest: Seq<bool>)
    ensures
        read_vui(vui_fields(framerate, rest)) == (
            VuiReading {
                aspect_ratio_info_present: true,
                aspect_ratio_idc: 1,
                overscan_info_present: false,
                video_signal_type_present: false,
                chroma_loc_info_present: false,
                timing_info_present: true,
                num_units_in_tick: at_least_one(framerate.den) as nat,
                time_scale: doubled_clamped(at_least_one(framerate.num)) as nat,
                fixed_frame_rate: true,
                nal_hrd_parameters_present: false,
                vcl_hrd_parameters_present: false,
                pic_struct_present: false,
                bitstream_restriction: false,
            },
            rest,
        ),
{
    let den = at_least_one(framerate.den) as nat;
    let scale = doubled_clamped(at_least_one(framerate.num)) as nat;
    lemma2_to64();
    let r1 = seq![false] + rest;
    let r2 = seq![false] + r1;
    let r3 = seq![false] + r2;
    let r4 = seq![false] + r3;
    let t5 = seq![true] + r4;
    let s1 = be_bits(scale, 32) + t5;
    let t4 = be_bits(den, 32) + s1;
    let f1 = seq![true] + t4;
    let f2 = seq![false] + f1;
    let f3 = seq![false] + f2;
    let t3 = seq![false] + f3;
    let a1 = be_bits(1, 8) + t3;
    lemma_read_flag(true, a1);
    lemma_read_bits(1, 8, t3);
    lemma_read_flag(false, f3);
    lemma_read_flag(false, f2);
    lemma_read_flag(false, f1);
    lemma_read_flag(true, t4);
    lemma_read_bits(den, 32, s1);
    lemma_read_bits(scale, 32, t5);
    lemma_read_flag(true, r4);
    lemma_read_flag(false, r3);
    lemma_read_flag(false, r2);
    lemma_read_flag(false, r1);
    lemma_read_flag(false, rest);
}

/// The bits that say how much is cut off, before `rest`.
spec fn crop_fields(crop_right: nat, crop_bottom: nat, rest: Seq<bool>) -> Seq<bool> {
    if crop_right > 0 || crop_bottom > 0 {
        seq![true] + (ue_bits(0) + (ue_bits(crop_right) + (ue_bits(0) + (ue_bits(crop_bottom)
            + rest))))
    } else {
        seq![false] + rest
    }
}

proof fn lemma_crop_is_read_back(crop_right: nat, crop_bottom: nat, rest: Seq<bool>)
    ensures
        read_crop(crop_fields(crop_right, crop_bottom, rest)) == (
            CropReading {
                left: 0,
                right: crop_right as int,
                top: 0,
                bottom: crop_bottom as int,
            },
            rest,
        ),
{
    if crop_right > 0 || crop_bottom > 0 {
        let c1 = ue_bits(crop_bottom) + rest;
        let c2 = ue_bits(0) + c1;
        let c3 = ue_bits(crop_right) + c2;
        let c4 = ue_bits(0) + c3;
        lemma_read_flag(true, c4);
        lemma_read_code(0, c3);
        lemma_read_code(crop_right, c2);
        lemma_read_code(0, c1);
        lemma_read_code(crop_bottom, rest);
    } else {
        lemma_read_flag(false, rest);
    }
}

/// The bits of a sequence parameter set before those that say how much is cut off, which start
/// `rest`.
spec fn head_fields(width_mbs: nat, height_mbs: nat, rest: Seq<bool>) -> Seq<bool> {
    let t4 = ue_bits((width_mbs - 1) as nat) + (ue_bits((height_mbs - 1) as nat) + (seq![true] + (
    seq![true] + rest)));
    let t3 = ue_bits(12) + (ue_bits(0) + (ue_bits(12) + (ue_bits(1) + (seq![false] + t4))));
    let t2 = ue_bits(0) + (ue_bits(1) + (ue_bits(0) + (ue_bits(0) + (seq![false] + (seq![false]
        + t3)))));
    be_bits(77, 8) + (be_bits(0, 8) + (be_bits(40, 8) + t2))
}

proof fn lemma_sps_fields(
    width_mbs: nat,
    height_mbs: nat,
    crop_right: nat,
    crop_bottom: nat,
    framerate: Framerate,
    rest: Seq<bool>,
)
    ensures
        sps_bits(width_mbs, height_mbs, crop_right, crop_bottom, framerate) + rest == head_fields(
            width_mbs,
            height_mbs,
            crop_fields(
                crop_right,
                crop_bottom,
                seq![true] + vui_fields(framerate, rest),
            ),
        ),
{
    reveal(sps_bits);
    let cropped = crop_right > 0 || crop_bottom > 0;
    let head = Seq::<bool>::empty() + be_bits(77, 8) + be_bits(0, 8) + be_bits(40, 8);
    let format = head + ue_bits(0) + ue_bits(1) + ue_bits(0) + ue_bits(0);
    let scaling = format.push(false).push(false);
    let order = scaling + ue_bits(12) + ue_bits(0) + ue_bits(12);
    let references = (order + ue_bits(1)).push(false);
    let size = references + ue_bits((width_mbs - 1) as nat) + ue_bits((height_mbs - 1) as nat);
    let frame = size.push(true).push(true).push(cropped);
    let crop = if cropped {
        frame + ue_bits(0) + ue_bits(crop_right) + ue_bits(0) + ue_bits(crop_bottom)
    } else {
        frame
    };
    let tail = vui_fields(framerate, rest);
    lemma_vui_fields(crop.push(true), framerate, rest);
    let after_crop = seq![true] + tail;
    lemma_push_then(crop, true, tail);
    let cut = crop_fields(crop_right, crop_bottom, after_crop);
    let sized = size.push(true).push(true);
    if cropped {
        let c1 = ue_bits(crop_bottom) + after_crop;
        let c2 = ue_bits(0) + c1;
        let c3 = ue_bits(crop_right) + c2;
        lemma_add_then(
            frame + ue_bits(0) + ue_bits(crop_right) + ue_bits(0),
            ue_bits(crop_bottom),
            after_crop,
        );
        lemma_add_then(frame + ue_bits(0) + ue_bits(crop_right), ue_bits(0), c1);
        lemma_add_then(frame + ue_bits(0), ue_bits(crop_right), c2);
        lemma_add_then(frame, ue_bits(0), c3);
        lemma_push_then(sized, true, ue_bits(0) + c3);
    } else {
        lemma_push_then(sized, false, after_crop);
    }
    assert(crop + after_crop == sized + cut);
    lemma_head_fields(width_mbs, height_mbs, cut);
}

/// The bits of a sequence parameter set before those that say how much is cut off.
spec fn sized_bits(width_mbs: nat, height_mbs: nat) -> Seq<bool> {
    let head = Seq::<bool>::empty() + be_bits(77, 8) + be_bits(0, 8) + be_bits(40, 8);
    let format = head + ue_bits(0) + ue_bits(1) + ue_bits(0) + ue_bits(0);
    let scaling = format.push(false).push(false);
    let order = scaling + ue_bits(12) + ue_bits(0) + ue_bits(12);
    let references = (order + ue_bits(1)).push(false);
    let size = references + ue_bits((width_mbs - 1) as nat) + ue_bits((height_mbs - 1) as nat);
    size.push(true).push(true)
}

proof fn lemma_head_fields(width_mbs: nat, height_mbs: nat, cut: Seq<bool>)
    ensures
        sized_bits(width_mbs, height_mbs) + cut == head_fields(width_mbs, height_mbs, cut),
{
    let w = ue_bits((width_mbs - 1) as nat);
    let h = ue_bits((height_mbs - 1) as nat);
    let none = Seq::<bool>::empty();
    let head = none + be_bits(77, 8) + be_bits(0, 8) + be_bits(40, 8);
    let format = head + ue_bits(0) + ue_bits(1) + ue_bits(0) + ue_bits(0);
    let scaling = format.push(false).push(false);
    let order = scaling + ue_bits(12) + ue_bits(0) + ue_bits(12);
    let references = (order + ue_bits(1)).push(false);
    let size = references + w + h;
    let u1 = seq![true] + cut;
    let u2 = seq![true] + u1;
    let u3 = h + u2;
    let t4 = w + u3;
    lemma_push_then(size.push(true), true, cut);
    lemma_push_then(size, true, u1);
    lemma_add_then(references + w, h, u2);
    lemma_add_then(references, w, u3);
    assert(sized_bits(width_mbs, height_mbs) + cut == references + t4);
    let v1 = seq![false] + t4;
    let v2 = ue_bits(1) + v1;
    let v3 = ue_bits(12) + v2;
    let v4 = ue_bits(0) + v3;
    let t3 = ue_bits(12) + v4;
    lemma_push_then(order + ue_bits(1), false, t4);
    lemma_add_then(order, ue_bits(1), v1);
    lemma_add_then(scaling + ue_bits(12) + ue_bits(0), ue_bits(12), v2);
    lemma_add_then(scaling + ue_bits(12), ue_bits(0), v3);
    lemma_add_then(scaling, ue_bits(12), v4);
    assert(references + t4 == scaling + t3);
    let x1 = seq![false] + t3;
    let x2 = seq![false] + x1;
    let x3 = ue_bits(0) + x2;
    let x4 = ue_bits(0) + x3;
    let x5 = ue_bits(1) + x4;
    let t2 = ue_bits(0) + x5;
    lemma_push_then(format.push(false), false, t3);
    lemma_push_then(format, false, x1);
    lemma_add_then(head + ue_bits(0) + ue_bits(1) + ue_bits(0), ue_bits(0), x2);
    lemma_add_then(head + ue_bits(0) + ue_bits(1), ue_bits(0), x3);
    lemma_add_then(head + ue_bits(0), ue_bits(1), x4);
    lemma_add_then(head, ue_bits(0), x5);
    assert(scaling + t3 == head + t2);
    let y1 = be_bits(40, 8) + t2;
    let y2 = be_bits(0, 8) + y1;
    lemma_add_then(none + be_bits(77, 8) + be_bits(0, 8), be_bits(40, 8), t2);
    lemma_add_then(none + be_bits(77, 8), be_bits(0, 8), y1);
    lemma_add_then(none, be_bits(77, 8), y2);
    assert(none + (be_bits(77, 8) + y2) =~= be_bits(77, 8) + y2);
}

/// What a sequence parameter set says is what it was made of, and the information on usability and
/// the closing bits follow.
proof fn lemma_sps_fields_are_read_back(
    width_mbs: nat,
    height_mbs: nat,
    crop_right: nat,
    crop_bottom: nat,
    rest: Seq<bool>,
)
    requires
        width_mbs > 0,
        height_mbs > 0,
    ensures
        ({
            let (sps, left) = read_sps(
                head_fields(
                    width_mbs,
                    height_mbs,
                    crop_fields(crop_right, crop_bottom, seq![true] + rest),
                ),
            );
            &&& left == rest
            &&& sps.profile_idc == 77 && sps.constraint_flags == 0 && sps.level_idc == 40
            &&& sps.seq_parameter_set_id == 0 && sps.chroma_format_idc == 1
            &&& sps.bit_depth_luma_minus8 == 0 && sps.bit_depth_chroma_minus8 == 0
            &&& !sps.qpprime_y_zero_transform_bypass && !sps.seq_scaling_matrix_present
            &&& sps.log2_max_frame_num_minus4 == 12 && sps.pic_order_cnt_type == 0
            &&& sps.log2_max_pic_order_cnt_lsb_minus4 == 12
            &&& sps.max_num_ref_frames == 1 && !sps.gaps_in_frame_num_allowed
            &&& sps.pic_width_in_mbs_minus1 == width_mbs - 1
            &&& sps.pic_height_in_map_units_minus1 == height_mbs - 1
            &&& sps.frame_mbs_only && sps.direct_8x8_inference
            &&& sps.crop.left == 0 && sps.crop.right == crop_right
            &&& sps.crop.top == 0 && sps.crop.bottom == crop_bottom
            &&& sps.vui_parameters_present
        }),
{
    lemma2_to64();
    let after_crop = seq![true] + rest;
    let cut = crop_fields(crop_right, crop_bottom, after_crop);
    let w = (width_mbs - 1) as nat;
    let h = (height_mbs - 1) as nat;
    let u1 = seq![true] + cut;
    let u2 = seq![true] + u1;
    let u3 = ue_bits(h) + u2;
    let t4 = ue_bits(w) + u3;
    let v1 = seq![false] + t4;
    let v2 = ue_bits(1) + v1;
    let v3 = ue_bits(12) + v2;
    let v4 = ue_bits(0) + v3;
    let t3 = ue_bits(12) + v4;
    let x1 = seq![false] + t3;
    let x2 = seq![false] + x1;
    let x3 = ue_bits(0) + x2;
    let x4 = ue_bits(0) + x3;
    let x5 = ue_bits(1) + x4;
    let t2 = ue_bits(0) + x5;
    let y1 = be_bits(40, 8) + t2;
    let y2 = be_bits(0, 8) + y1;
    lemma_read_bits(77, 8, y2);
    lemma_read_bits(0, 8, y1);
    lemma_read_bits(40, 8, t2);
    lemma_read_code(0, x5);
    lemma_read_code(1, x4);
    lemma_read_code(0, x3);
    lemma_read_code(0, x2);
    lemma_read_flag(false, x1);
    lemma_read_flag(false, t3);
    lemma_read_code(12, v4);
    lemma_read_code(0, v3);
    lemma_read_code(12, v2);
    lemma_read_code(1, v1);
    lemma_read_flag(false, t4);
    lemma_read_code(w, u3);
    lemma_read_code(h, u2);
    lemma_read_flag(true, u1);
    lemma_read_flag(true, cut);
    lemma_crop_is_read_back(crop_right, crop_bottom, after_crop);
    lemma_read_flag(true, rest);
}

proof fn lemma_be_bits_of_value(bits: Seq<bool>)
    ensures
        be_bits(bits_value(bits), bits.len()) == bits,
        bits_value(bits) < pow2(bits.len()),
    decreases bits.len(),
{
    if bits.len() == 0 {
        lemma2_to64();
        assert(bits =~= Seq::<bool>::empty());
    } else {
        lemma_be_bits_of_value(bits.drop_last());
        lemma_pow2_unfold(bits.len());
        let value = bits_value(bits);
        assert(value / 2 == bits_value(bits.drop_last()));
        assert(be_bits(value, bits.len()) =~= bits);
    }
}

/// Spelling out undoes packing: bits that fill their bytes are recovered from them.
pub proof fn lemma_bits_of_packed(bits: Seq<bool>)
    requires
        bits.len() % 8 == 0,
    ensures
        bits_of_bytes(pack_bits(bits)) == bits,
    decreases bits.len(),
{
    let bytes = pack_bits(bits);
    if bits.len() == 0 {
        assert(bits =~= Seq::<bool>::empty());
    } else {
        let init = bits.take(bits.len() - 8);
        lemma_bits_of_packed(init);
        let tail = bits.subrange(bits.len() - 8, bits.len() as int);
        let last = bytes.len() - 1;
        assert(8 * last + 8 == bits.len());
        assert(bytes.drop_last() =~= pack_bits(init)) by {
            assert forall|i: int| 0 <= i < last implies bytes[i] == pack_bits(init)[i] by {
                assert(bits.subrange(8 * i, 8 * i + 8) =~= init.subrange(8 * i, 8 * i + 8));
            }
        }
        lemma_be_bits_of_value(tail);
        lemma2_to64();
        assert(bytes.last() == bits_value(tail));
        assert(bits_of_bytes(bytes) =~= init + tail);
        assert(init + tail =~= bits);
    }
}

/// Bits fill bytes in order, the most significant bit of each byte first.
pub proof fn lemma_bits_fill_bytes_from_the_top(bits: Seq<bool>, i: int)
    requires
        bits.len() % 8 == 0,
        0 <= i < bits.len(),
    ensures
        8 * pack_bits(bits).len() == bits.len(),
        bits[i] <==> (pack_bits(bits)[i / 8] as nat / pow2((7 - i % 8) as nat)) % 2 == 1,
{
    let start = 8 * (i / 8);
    let part = bits.subrange(start, start + 8);
    lemma_be_bits_of_value(part);
    lemma2_to64();
    lemma_bits_stand_most_significant_first(bits_value(part), 8, i % 8);
    assert(pack_bits(bits)[i / 8] == bits_value(part));
    assert(part[i % 8] == bits[i]);
}

proof fn lemma_payload_is_closed(bits: Seq<bool>)
    ensures
        with_trailing_bits(bits).len() % 8 == 0,
        exists|closing: Seq<bool>|
            #[trigger] closes_payload(closing) && with_trailing_bits(bits) == bits + closing,
{
    let padding = ((8 - (bits.len() + 1) % 8) % 8) as nat;
    let closing = seq![true] + zero_bits(padding);
    assert(with_trailing_bits(bits) =~= bits + closing);
    assert(closes_payload(closing));
}

/// Whoever reads the payload of a sequence parameter set finds the size in macroblocks, what is cut off
/// on the right and at the bottom, and the rate that it was made for. Nothing is cut off on the left
/// or at the top, and nothing but the closing bits follows.
pub proof fn lemma_sps_is_read_back(
    width_mbs: nat,
    height_mbs: nat,
    crop_right: nat,
    crop_bottom: nat,
    framerate: Framerate,
)
    requires
        width_mbs > 0,
        height_mbs > 0,
    ensures
        ({
            let payload = pack_bits(
                with_trailing_bits(
                    sps_bits(width_mbs, height_mbs, crop_right, crop_bottom, framerate),
                ),
            );
            let (sps, usability) = read_sps(bits_of_bytes(payload));
            let (vui, closing) = read_vui(usability);
            &&& sps.profile_idc == 77 && sps.constraint_flags == 0 && sps.level_idc == 40
            &&& sps.seq_parameter_set_id == 0 && sps.chroma_format_idc == 1
            &&& sps.bit_depth_luma_minus8 == 0 && sps.bit_depth_chroma_minus8 == 0
            &&& !sps.qpprime_y_zero_transform_bypass && !sps.seq_scaling_matrix_present
            &&& sps.log2_max_frame_num_minus4 == 12 && sps.pic_order_cnt_type == 0
            &&& sps.log2_max_pic_order_cnt_lsb_minus4 == 12
            &&& sps.max_num_ref_frames == 1 && !sps.gaps_in_frame_num_allowed
            &&& sps.pic_width_in_mbs_minus1 + 1 == width_mbs
            &&& sps.pic_height_in_map_units_minus1 + 1 == height_mbs
            &&& sps.frame_mbs_only && sps.direct_8x8_inference
            &&& sps.crop.left == 0 && sps.crop.right == crop_right
            &&& sps.crop.top == 0 && sps.crop.bottom == crop_bottom
            &&& sps.vui_parameters_present
            &&& vui.aspect_ratio_info_present && vui.aspect_ratio_idc == 1
            &&& !vui.overscan_info_present && !vui.video_signal_type_present
            &&& !vui.chroma_loc_info_present && vui.timing_info_present
            &&& vui.num_units_in_tick == if framerate.den == 0 {
                1
            } else {
                framerate.den as nat
            }
            &&& framerate.num == 0 ==> vui.time_scale == 2
            &&& 0 < framerate.num < 0x8000_0000 ==> vui.time_scale == 2 * framerate.num
            &&& framerate.num >= 0x8000_0000 ==> vui.time_scale == 0xffff_ffff
            &&& vui.fixed_frame_rate && !vui.nal_hrd_parameters_present
            &&& !vui.vcl_hrd_parameters_present && !vui.pic_struct_present
            &&& !vui.bitstream_restriction
            &&& closes_payload(closing)
        }),
{
    let bits = sps_bits(width_mbs, height_mbs, crop_right, crop_bottom, framerate);
    lemma_payload_is_closed(bits);
    let closing = choose|closing: Seq<bool>|
        #[trigger] closes_payload(closing) && with_trailing_bits(bits) == bits + closing;
    lemma_bits_of_packed(with_trailing_bits(bits));
    lemma_sps_fields(width_mbs, height_mbs, crop_right, crop_bottom, framerate, closing);
    lemma_sps_fields_are_read_back(
        width_mbs,
        height_mbs,
        crop_right,
        crop_bottom,
        vui_fields(framerate, closing),
    );
    lemma_vui_is_read_back(framerate, closing);
}

/// What a picture parameter set says.
pub struct PpsReading {
    pub pic_parameter_set_id: int,
    pub seq_parameter_set_id: int,
    pub entropy_coding_mode: bool,
    pub bottom_field_pic_order_in_frame_present: bool,
    pub num_slice_groups_minus1: int,
    pub num_ref_idx_l0_default_active_minus1: int,
    pub num_ref_idx_l1_default_active_minus1: int,
    pub weighted_pred: bool,
    pub weighted_bipred_idc: nat,
    pub pic_init_qp_minus26: int,
    pub pic_init_qs_minus26: int,
    pub chroma_qp_index_offset: int,
    pub deblocking_filter_control_present: bool,
    pub constrained_intra_pred: bool,
    pub redundant_pic_cnt_present: bool,
}

/// The signed number in the Exp-Golomb code at the front, and the bits after it: codes stand for zero,
/// one, minus one, two, minus two, and so on.
pub open spec fn read_signed(bits: Seq<bool>) -> (int, Seq<bool>) {
    let (code, rest) = read_code(bits);
    (
        if code % 2 == 1 {
            (code + 1) / 2
        } else {
            -(code / 2)
        },
        rest,
    )
}

/// Reads a picture parameter set with one slice group.
pub open spec fn read_pps(bits: Seq<bool>) -> (PpsReading, Seq<bool>) {
    let (pic_parameter_set_id, bits) = read_code(bits);
    let (seq_parameter_set_id, bits) = read_code(bits);
    let (entropy_coding_mode, bits) = read_flag(bits);
    let (bottom_field_pic_order_in_frame_present, bits) = read_flag(bits);
    let (num_slice_groups_minus1, bits) = read_code(bits);
    let (num_ref_idx_l0_default_active_minus1, bits) = read_code(bits);
    let (num_ref_idx_l1_default_active_minus1, bits) = read_code(bits);
    let (weighted_pred, bits) = read_flag(bits);
    let (weighted_bipred_idc, bits) = read_bits(bits, 2);
    let (pic_init_qp_minus26, bits) = read_signed(bits);
    let (pic_init_qs_minus26, bits) = read_signed(bits);
    let (chroma_qp_index_offset, bits) = read_signed(bits);
    let (deblocking_filter_control_present, bits) = read_flag(bits);
    let (constrained_intra_pred, bits) = read_flag(bits);
    let (redundant_pic_cnt_present, bits) = read_flag(bits);
    (
        PpsReading {
            pic_parameter_set_id,
            seq_parameter_set_id,
            entropy_coding_mode,
            bottom_field_pic_order_in_frame_present,
            num_slice_groups_minus1,
            num_ref_idx_l0_default_active_minus1,
            num_ref_idx_l1_default_active_minus1,
            weighted_pred,
            weighted_bipred_idc,
            pic_init_qp_minus26,
            pic_init_qs_minus26,
            chroma_qp_index_offset,
            deblocking_filter_control_present,
            constrained_intra_pred,
            redundant_pic_cnt_present,
        },
        bits,
    )
}

proof fn lemma_read_signed(value: int, rest: Seq<bool>)
    ensures
        read_signed(se_bits(value) + rest) == (value, rest),
{
    lemma_read_code(
        if value > 0 {
            (2 * value - 1) as nat
        } else {
            (-2 * value) as nat
        },
        rest,
    );
}

/// Whoever reads the payload of the picture parameter set finds the first set, for the first sequence
/// parameter set, with one slice group, one reference in each list, no weights, the middle quality, and
/// a deblocking filter that slices control; nothing but the closing bits follows.
pub proof fn lemma_pps_is_read_back()
    ensures
        ({
            let payload = pack_bits(with_trailing_bits(pps_bits()));
            let (pps, closing) = read_pps(bits_of_bytes(payload));
            &&& pps.pic_parameter_set_id == 0 && pps.seq_parameter_set_id == 0
            &&& !pps.entropy_coding_mode && !pps.bottom_field_pic_order_in_frame_present
            &&& pps.num_slice_groups_minus1 == 0
            &&& pps.num_ref_idx_l0_default_active_minus1 == 0
            &&& pps.num_ref_idx_l1_default_active_minus1 == 0
            &&& !pps.weighted_pred && pps.weighted_bipred_idc == 0
            &&& pps.pic_init_qp_minus26 == 0 && pps.pic_init_qs_minus26 == 0
            &&& pps.chroma_qp_index_offset == 0
            &&& pps.deblocking_filter_control_present
            &&& !pps.constrained_intra_pred && !pps.redundant_pic_cnt_present
            &&& closes_payload(closing)
        }),
{
    reveal(pps_bits);
    lemma2_to64();
    let bits = pps_bits();
    lemma_payload_is_closed(bits);
    let closing = choose|closing: Seq<bool>|
        #[trigger] closes_payload(closing) && with_trailing_bits(bits) == bits + closing;
    lemma_bits_of_packed(with_trailing_bits(bits));
    let none = Seq::<bool>::empty();
    let ids = none + ue_bits(0) + ue_bits(0);
    let modes = ids.push(false).push(false);
    let references = modes + ue_bits(0) + ue_bits(0) + ue_bits(0);
    let weights = references.push(false) + be_bits(0, 2);
    let quality = weights + se_bits(0) + se_bits(0) + se_bits(0);
    let a1 = seq![false] + closing;
    let a2 = seq![false] + a1;
    let a3 = seq![true] + a2;
    lemma_push_then(quality.push(true).push(false), false, closing);
    lemma_push_then(quality.push(true), false, a1);
    lemma_push_then(quality, true, a2);
    let b1 = se_bits(0) + a3;
    let b2 = se_bits(0) + b1;
    let b3 = se_bits(0) + b2;
    lemma_add_then(weights + se_bits(0) + se_bits(0), se_bits(0), a3);
    lemma_add_then(weights + se_bits(0), se_bits(0), b1);
    lemma_add_then(weights, se_bits(0), b2);
    let c1 = be_bits(0, 2) + b3;
    let c2 = seq![false] + c1;
    lemma_add_then(references.push(false), be_bits(0, 2), b3);
    lemma_push_then(references, false, c1);
    let d1 = ue_bits(0) + c2;
    let d2 = ue_bits(0) + d1;
    let d3 = ue_bits(0) + d2;
    lemma_add_then(modes + ue_bits(0) + ue_bits(0), ue_bits(0), c2);
    lemma_add_then(modes + ue_bits(0), ue_bits(0), d1);
    lemma_add_then(modes, ue_bits(0), d2);
    let e1 = seq![false] + d3;
    let e2 = seq![false] + e1;
    lemma_push_then(ids.push(false), false, d3);
    lemma_push_then(ids, false, e1);
    let f1 = ue_bits(0) + e2;
    lemma_add_then(none + ue_bits(0), ue_bits(0), e2);
    lemma_add_then(none, ue_bits(0), f1);
    assert(none + (ue_bits(0) + f1) =~= ue_bits(0) + f1);
    assert(bits + closing == ue_bits(0) + f1);
    lemma_read_code(0, f1);
    lemma_read_code(0, e2);
    lemma_read_flag(false, e1);
    lemma_read_flag(false, d3);
    lemma_read_code(0, d2);
    lemma_read_code(0, d1);
    lemma_read_code(0, c2);
    lemma_read_flag(false, c1);
    lemma_read_bits(0, 2, b3);
    lemma_read_signed(0, b2);
    lemma_read_signed(0, b1);
    lemma_read_signed(0, a3);
    lemma_read_flag(true, a2);
    lemma_read_flag(false, a1);
    lemma_read_flag(false, closing);
}

/// The start code and the header of a NAL unit.
pub open spec fn unit_start(header: u8) -> Seq<u8> {
    seq![0u8, 0u8, 0u8, 1u8, header]
}

/// The parameter sets of a stream are a sequence and a picture parameter set, and whoever reads the
/// sequence parameter set finds the size of the pictures and the rate that were asked for: the width
/// and the height that a decoder shows are those asked for, where an odd one is rounded up to whole
/// chroma samples, and twice the rate is the time scale over the units in a tick.
pub proof fn lemma_parameter_sets_tell_size_and_rate(width: u32, height: u32, framerate: Framerate)
    requires
        codable_side(width),
        codable_side(height),
    ensures
        exists|sps: Seq<u8>, pps: Seq<u8>|
            {
                let (read, usability) = read_sps(bits_of_bytes(unescaped(sps)));
                let vui = read_vui(usability).0;
                &&& parameter_sets(width, height, framerate) == #[trigger] (unit_start(0x67) + sps
                    + unit_start(0x68) + pps)
                &&& shown_width(read) == width + width % 2
                &&& shown_height(read) == height + height % 2
                &&& read.crop.left == 0 && read.crop.top == 0
                &&& 0 <= read.crop.right < 8 && 0 <= read.crop.bottom < 8
                &&& 0 < framerate.num < 0x8000_0000 && framerate.den > 0 ==> vui.time_scale
                    * framerate.den == 2 * framerate.num * vui.num_units_in_tick
                &&& read_pps(bits_of_bytes(unescaped(pps))).0.seq_parameter_set_id
                    == read.seq_parameter_set_id
            },
{
    let width_mbs = macroblocks_over(width as int) as nat;
    let height_mbs = macroblocks_over(height as int) as nat;
    let crop_right = crop_units(width as int) as nat;
    let crop_bottom = crop_units(height as int) as nat;
    let payload = pack_bits(
        with_trailing_bits(sps_bits(width_mbs, height_mbs, crop_right, crop_bottom, framerate)),
    );
    let sps = escaped(payload);
    let pps_payload = pack_bits(with_trailing_bits(pps_bits()));
    let pps = escaped(pps_payload);
    lemma_unescape_escaped(payload);
    lemma_unescape_escaped(pps_payload);
    lemma_pps_is_read_back();
    lemma_sps_is_read_back(width_mbs, height_mbs, crop_right, crop_bottom, framerate);
    assert(parameter_sets(width, height, framerate) =~= unit_start(0x67) + sps + unit_start(0x68)
        + pps);
    let (read, usability) = read_sps(bits_of_bytes(unescaped(sps)));
    let vui = read_vui(usability).0;
    assert(shown_width(read) == width + width % 2);
    assert(shown_height(read) == height + height % 2);
    if 0 < framerate.num < 0x8000_0000 && framerate.den > 0 {
        assert(vui.time_scale * framerate.den == 2 * framerate.num * vui.num_units_in_tick)
            by (nonlinear_arith)
            requires
                vui.time_scale == 2 * framerate.num,
                vui.num_units_in_tick == framerate.den,
        ;
    }
}

} // verus!
