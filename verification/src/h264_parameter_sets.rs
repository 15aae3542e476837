//! H.264 sequence and picture parameter sets for the Main profile at level 4.0.

use crate::bits::{be_bits, pack_bits, se_bits, ue_bits, with_trailing_bits, BitWriter};
use crate::media::{Framerate, Resolution};
use crate::shared_bytes::{bytes_contents, bytes_from_vec};
use vstd::prelude::*;

verus! {

pub const H264_PROFILE_MAIN: u8 = 77;

pub const H264_LEVEL_4_0: u8 = 40;

pub const LOG2_MAX_FRAME_NUM_MINUS4: u32 = 12;

pub const LOG2_MAX_PIC_ORDER_CNT_LSB_MINUS4: u32 = 12;

/// The NAL unit header of a sequence parameter set.
pub const SPS_HEADER: u8 = 0x67;

/// The NAL unit header of a picture parameter set.
pub const PPS_HEADER: u8 = 0x68;

/// A picture side that whole macroblocks can cover: not empty, and with room left in 32 bits to
/// round up.
pub open spec fn codable_side(side: u32) -> bool {
    0 < side <= 0xffff_fff0
}

/// The number of macroblocks that cover `side` pixels.
pub open spec fn macroblocks_over(side: int) -> int {
    (side + 15) / 16
}

/// Half the pixels that rounding `side` up to whole macroblocks adds: the cropping offset, which
/// counts in chroma samples.
pub open spec fn crop_units(side: int) -> int {
    (16 * macroblocks_over(side) - side) / 2
}

/// The greater of `value` and one.
pub open spec fn at_least_one(value: u32) -> u32 {
    if value >= 1 {
        value
    } else {
        1
    }
}

/// Twice `value`, cut off at the largest 32-bit number.
pub open spec fn doubled_clamped(value: u32) -> u32 {
    if 2 * value <= u32::MAX {
        (2 * value) as u32
    } else {
        u32::MAX
    }
}

/// The video usability part of a sequence parameter set, appended to `bits`.
pub open spec fn vui_bits(bits: Seq<bool>, framerate: Framerate) -> Seq<bool> {
    // aspect_ratio_info_present_flag, aspect_ratio_idc
    let shape = bits.push(true) + be_bits(1, 8);
    // overscan_info, video_signal_type, chroma_loc_info, timing_info
    let flags = shape.push(false).push(false).push(false).push(true);
    // num_units_in_tick, time_scale
    let timing = flags + be_bits(at_least_one(framerate.den) as nat, 32) + be_bits(
        doubled_clamped(at_least_one(framerate.num)) as nat,
        32,
    );
    // fixed_frame_rate, nal_hrd, vcl_hrd, pic_struct, bitstream_restriction
    timing.push(true).push(false).push(false).push(false).push(false)
}

/// The sequence parameter set payload for a picture of `width_mbs` by `height_mbs` macroblocks.
#[verifier::opaque]
pub open spec fn sps_bits(
    width_mbs: nat,
    height_mbs: nat,
    crop_right: nat,
    crop_bottom: nat,
    framerate: Framerate,
) -> Seq<bool> {
    let cropped = crop_right > 0 || crop_bottom > 0;
    // profile_idc, constraint flags, level_idc
    let head = Seq::<bool>::empty() + be_bits(H264_PROFILE_MAIN as nat, 8) + be_bits(0, 8)
        + be_bits(H264_LEVEL_4_0 as nat, 8);
    // seq_parameter_set_id, chroma_format_idc, bit_depth_luma_minus8, bit_depth_chroma_minus8
    let format = head + ue_bits(0) + ue_bits(1) + ue_bits(0) + ue_bits(0);
    // qpprime_y_zero_transform_bypass_flag, seq_scaling_matrix_present_flag
    let scaling = format.push(false).push(false);
    // log2_max_frame_num_minus4, pic_order_cnt_type, log2_max_pic_order_cnt_lsb_minus4
    let order = scaling + ue_bits(LOG2_MAX_FRAME_NUM_MINUS4 as nat) + ue_bits(0) + ue_bits(
        LOG2_MAX_PIC_ORDER_CNT_LSB_MINUS4 as nat,
    );
    // max_num_ref_frames, gaps_in_frame_num_value_allowed_flag
    let references = (order + ue_bits(1)).push(false);
    // pic_width_in_mbs_minus1, pic_height_in_map_units_minus1
    let size = references + ue_bits((width_mbs - 1) as nat) + ue_bits((height_mbs - 1) as nat);
    // frame_mbs_only_flag, direct_8x8_inference_flag, frame_cropping_flag
    let frame = size.push(true).push(true).push(cropped);
    // frame_crop_left_offset, right, top, bottom
    let crop = if cropped {
        frame + ue_bits(0) + ue_bits(crop_right) + ue_bits(0) + ue_bits(crop_bottom)
    } else {
        frame
    };
    // vui_parameters_present_flag
    vui_bits(crop.push(true), framerate)
}

/// The picture parameter set payload.
#[verifier::opaque]
pub open spec fn pps_bits() -> Seq<bool> {
    // pic_parameter_set_id, seq_parameter_set_id
    let ids = Seq::<bool>::empty() + ue_bits(0) + ue_bits(0);
    // entropy_coding_mode_flag, bottom_field_pic_order_in_frame_present_flag
    let modes = ids.push(false).push(false);
    // num_slice_groups_minus1, num_ref_idx_l0_default_active_minus1, the same for l1
    let references = modes + ue_bits(0) + ue_bits(0) + ue_bits(0);
    // weighted_pred_flag, weighted_bipred_idc
    let weights = references.push(false) + be_bits(0, 2);
    // pic_init_qp_minus26, pic_init_qs_minus26, chroma_qp_index_offset
    let quality = weights + se_bits(0) + se_bits(0) + se_bits(0);
    // deblocking_filter_control_present_flag, constrained_intra_pred_flag,
    // redundant_pic_cnt_present_flag
    quality.push(true).push(false).push(false)
}

/// `rbsp` with an emulation prevention byte wherever it needs one, and the number of zeros the
/// result ends in, counted since the last such byte.
pub open spec fn escape_state(rbsp: Seq<u8>) -> (Seq<u8>, nat)
    decreases rbsp.len(),
{
    if rbsp.len() == 0 {
        (Seq::empty(), 0)
    } else {
        let (out, zeros) = escape_state(rbsp.drop_last());
        let byte = rbsp.last();
        let guarded = zeros >= 2 && byte <= 3;
        (
            if guarded {
                out.push(3).push(byte)
            } else {
                out.push(byte)
            },
            if byte != 0 {
                0
            } else if guarded {
                1
            } else {
                zeros + 1
            },
        )
    }
}

/// `rbsp` with a 3 inserted before every byte up to 3 that follows two zeros.
pub open spec fn escaped(rbsp: Seq<u8>) -> Seq<u8> {
    escape_state(rbsp).0
}

/// `data` with every emulation prevention byte taken out again, and the number of zeros before
/// the next byte, counted since the last one taken out.
pub open spec fn unescape_state(data: Seq<u8>) -> (Seq<u8>, nat)
    decreases data.len(),
{
    if data.len() == 0 {
        (Seq::empty(), 0)
    } else {
        let (out, zeros) = unescape_state(data.drop_last());
        let byte = data.last();
        if zeros >= 2 && byte == 3 {
            (out, 0)
        } else {
            (
                out.push(byte),
                if byte == 0 {
                    zeros + 1
                } else {
                    0
                },
            )
        }
    }
}

/// The payload that `data` carries: `data` without its emulation prevention bytes.
pub open spec fn unescaped(data: Seq<u8>) -> Seq<u8> {
    unescape_state(data).0
}

/// A NAL unit behind a four-byte start code.
pub open spec fn nal_unit(header: u8, rbsp: Seq<u8>) -> Seq<u8> {
    seq![0u8, 0u8, 0u8, 1u8, header] + escaped(rbsp)
}

/// The sequence and the picture parameter set, one after the other, for pictures of `width` by
/// `height` pixels.
pub open spec fn parameter_sets(width: u32, height: u32, framerate: Framerate) -> Seq<u8> {
    let sps = sps_bits(
        macroblocks_over(width as int) as nat,
        macroblocks_over(height as int) as nat,
        crop_units(width as int) as nat,
        crop_units(height as int) as nat,
        framerate,
    );
    nal_unit(SPS_HEADER, pack_bits(with_trailing_bits(sps))) + nal_unit(
        PPS_HEADER,
        pack_bits(with_trailing_bits(pps_bits())),
    )
}

/// The parameter sets that precede a stream of pictures of the given size and rate.
pub fn h264_main_parameter_sets(resolution: Resolution, framerate: Framerate) -> (r: bytes::Bytes)
    requires
        codable_side(resolution.width as u32),
        codable_side(resolution.height as u32),
    ensures
        bytes_contents(r) == parameter_sets(
            resolution.width as u32,
            resolution.height as u32,
            framerate,
        ),
{
    let width: u32 = resolution.width as u32;
    let height: u32 = resolution.height as u32;
    let coded_width: u32 = align_to_macroblock(width);
    let coded_height: u32 = align_to_macroblock(height);
    let width_mbs: u32 = coded_width / 16;
    let height_mbs: u32 = coded_height / 16;
    let crop_right: u32 = (coded_width - width) / 2;
    let crop_bottom: u32 = (coded_height - height) / 2;
    assert(width_mbs == macroblocks_over(width as int));
    assert(height_mbs == macroblocks_over(height as int));
    assert(crop_right == crop_units(width as int));
    assert(crop_bottom == crop_units(height as int));

    let sps = sps_rbsp(width_mbs, height_mbs, crop_right, crop_bottom, framerate);
    let mut out = annexb_nal(SPS_HEADER, sps);
    let mut pps = annexb_nal(PPS_HEADER, pps_rbsp());
    out.append(&mut pps);
    bytes_from_vec(out)
}

/// The payload of the sequence parameter set.
pub fn sps_rbsp(
    width_mbs: u32,
    height_mbs: u32,
    crop_right: u32,
    crop_bottom: u32,
    framerate: Framerate,
) -> (r: Vec<u8>)
    requires
        0 < width_mbs,
        0 < height_mbs,
        crop_right < u32::MAX,
        crop_bottom < u32::MAX,
    ensures
        r@ == pack_bits(
            with_trailing_bits(
                sps_bits(
                    width_mbs as nat,
                    height_mbs as nat,
                    crop_right as nat,
                    crop_bottom as nat,
                    framerate,
                ),
            ),
        ),
{
    proof {
        reveal(sps_bits);
    }
    let mut bits = BitWriter::new();
    bits.bits(H264_PROFILE_MAIN as u32, 8);
    bits.bits(0, 8);
    bits.bits(H264_LEVEL_4_0 as u32, 8);
    bits.ue(0);
    bits.ue(1);
    bits.ue(0);
    bits.ue(0);
    bits.bit(false);
    bits.bit(false);
    bits.ue(LOG2_MAX_FRAME_NUM_MINUS4);
    bits.ue(0);
    bits.ue(LOG2_MAX_PIC_ORDER_CNT_LSB_MINUS4);
    bits.ue(1);
    bits.bit(false);
    bits.ue(width_mbs - 1);
    bits.ue(height_mbs - 1);
    bits.bit(true);
    bits.bit(true);
    bits.bit(crop_right > 0 || crop_bottom > 0);
    if crop_right > 0 || crop_bottom > 0 {
        bits.ue(0);
        bits.ue(crop_right);
        bits.ue(0);
        bits.ue(crop_bottom);
    }
    bits.bit(true);
    write_vui(&mut bits, framerate);
    bits.finish_rbsp()
}

/// Writes the video usability part of a sequence parameter set.
pub fn write_vui(bits: &mut BitWriter, framerate: Framerate)
    requires
        old(bits).wf(),
    ensures
        final(bits).wf(),
        final(bits).written() == vui_bits(old(bits).written(), framerate),
{
    let den: u32 = if framerate.den >= 1 {
        framerate.den
    } else {
        1
    };
    let num: u32 = if framerate.num >= 1 {
        framerate.num
    } else {
        1
    };
    let time_scale: u32 = if num <= u32::MAX / 2 {
        num * 2
    } else {
        u32::MAX
    };
    bits.bit(true);
    bits.bits(1, 8);
    bits.bit(false);
    bits.bit(false);
    bits.bit(false);
    bits.bit(true);
    bits.bits(den, 32);
    bits.bits(time_scale, 32);
    bits.bit(true);
    bits.bit(false);
    bits.bit(false);
    bits.bit(false);
    bits.bit(false);
}

/// The payload of the picture parameter set.
pub fn pps_rbsp() -> (r: Vec<u8>)
    ensures
        r@ == pack_bits(with_trailing_bits(pps_bits())),
{
    proof {
        reveal(pps_bits);
    }
    let mut bits = BitWriter::new();
    bits.ue(0);
    bits.ue(0);
    bits.bit(false);
    bits.bit(false);
    bits.ue(0);
    bits.ue(0);
    bits.ue(0);
    bits.bit(false);
    bits.bits(0, 2);
    bits.se(0);
    bits.se(0);
    bits.se(0);
    bits.bit(true);
    bits.bit(false);
    bits.bit(false);
    bits.finish_rbsp()
}

/// Frames a payload as a NAL unit of an Annex B byte stream.
pub fn annexb_nal(header: u8, rbsp: Vec<u8>) -> (r: Vec<u8>)
    ensures
        r@ == nal_unit(header, rbsp@),
{
    let mut out: Vec<u8> = Vec::new();
    out.push(0);
    out.push(0);
    out.push(0);
    out.push(1);
    out.push(header);
    assert(out@ =~= seq![0u8, 0u8, 0u8, 1u8, header]);
    let mut payload = escape_rbsp(rbsp.as_slice());
    out.append(&mut payload);
    out
}

/// Inserts emulation prevention bytes, so that no start code shows up inside the payload.
pub fn escape_rbsp(rbsp: &[u8]) -> (r: Vec<u8>)
    ensures
        r@ == escaped(rbsp@),
{
    let mut out: Vec<u8> = Vec::with_capacity(rbsp.len());
    let mut zero_count: u8 = 0;
    let mut index: usize = 0;
    while index < rbsp.len()
        invariant
            index <= rbsp@.len(),
            zero_count <= 2,
            escape_state(rbsp@.take(index as int)) == (out@, zero_count as nat),
        decreases rbsp@.len() - index,
    {
        let byte: u8 = rbsp[index];
        proof {
            assert(rbsp@.take(index + 1).drop_last() =~= rbsp@.take(index as int));
        }
        if zero_count >= 2 && byte <= 3 {
            out.push(3);
            zero_count = 0;
        }
        out.push(byte);
        zero_count = if byte == 0 {
            zero_count + 1
        } else {
            0
        };
        index = index + 1;
    }
    assert(rbsp@.take(index as int) =~= rbsp@);
    out
}

/// `value` rounded up to whole macroblocks.
pub fn align_to_macroblock(value: u32) -> (r: u32)
    requires
        value <= 0xffff_fff0,
    ensures
        r == 16 * macroblocks_over(value as int),
{
    (value + 15) / 16 * 16
}

/// What was escaped is read back unchanged.
pub proof fn lemma_unescape_escaped(rbsp: Seq<u8>)
    ensures
        unescaped(escaped(rbsp)) == rbsp,
        unescape_state(escaped(rbsp)).1 == escape_state(rbsp).1,
        escape_state(rbsp).1 <= 2,
    decreases rbsp.len(),
{
    if rbsp.len() > 0 {
        let init = rbsp.drop_last();
        lemma_unescape_escaped(init);
        let (out, zeros) = escape_state(init);
        let byte = rbsp.last();
        if zeros >= 2 && byte <= 3 {
            assert(out.push(3).push(byte).drop_last() =~= out.push(3));
            assert(out.push(3).drop_last() =~= out);
            assert(unescape_state(out.push(3)) == (init, 0nat));
            assert(unescape_state(out.push(3).push(byte)).0 == init.push(byte));
        } else {
            assert(out.push(byte).drop_last() =~= out);
        }
        assert(init.push(byte) =~= rbsp);
    }
}

/// No start code, and no other reserved three-byte pattern, shows up inside an escaped payload:
/// two zeros are never followed by a byte below 3.
pub proof fn lemma_no_start_code_inside(rbsp: Seq<u8>)
    ensures
        forall|i: int|
            0 <= i && i + 2 < escaped(rbsp).len() && #[trigger] escaped(rbsp)[i] == 0 && escaped(
                rbsp,
            )[i + 1] == 0 ==> escaped(rbsp)[i + 2] >= 3,
        trailing_zeros_counted(rbsp),
    decreases rbsp.len(),
{
    if rbsp.len() > 0 {
        let init = rbsp.drop_last();
        lemma_no_start_code_inside(init);
        let (out, zeros) = escape_state(init);
        let byte = rbsp.last();
        let whole = escaped(rbsp);
        assert forall|i: int|
            0 <= i && i + 2 < whole.len() && #[trigger] whole[i] == 0 && whole[i + 1]
                == 0 implies whole[i + 2] >= 3 by {
            if i + 2 < out.len() {
                assert(escaped(init)[i] == 0 && escaped(init)[i + 1] == 0);
                assert(escaped(init)[i + 2] == whole[i + 2]);
            } else if zeros >= 2 && byte <= 3 {
                assert(whole == out.push(3).push(byte));
                if i + 2 == out.len() {
                    assert(whole[i + 2] == 3);
                } else {
                    assert(whole[i + 1] == 3);
                }
            } else {
                assert(whole == out.push(byte));
                assert(i + 2 == out.len());
                assert(out[out.len() - 2] == 0 && out[out.len() - 1] == 0);
            }
        }
    }
}

/// The zeros counted while escaping are the ones the output ends in, as far as two matter.
pub open spec fn trailing_zeros_counted(rbsp: Seq<u8>) -> bool {
    let (out, zeros) = escape_state(rbsp);
    &&& zeros <= 2
    &&& zeros <= out.len()
    &&& (zeros >= 1 <==> out.len() >= 1 && out[out.len() - 1] == 0)
    &&& (zeros >= 2 <==> out.len() >= 2 && out[out.len() - 1] == 0 && out[out.len() - 2] == 0)
}

/// The parameter sets open with the start code and header of a sequence parameter set, and those
/// of a picture parameter set follow.
pub proof fn lemma_parameter_sets_use_start_codes(width: u32, height: u32, framerate: Framerate)
    ensures
        parameter_sets(width, height, framerate).take(5) == seq![0u8, 0u8, 0u8, 1u8, SPS_HEADER],
        exists|i: int|
            5 <= i && i + 5 <= parameter_sets(width, height, framerate).len() && #[trigger]
                parameter_sets(width, height, framerate).subrange(i, i + 5) == seq![
                0u8,
                0u8,
                0u8,
                1u8,
                PPS_HEADER,
            ],
{
    let all = parameter_sets(width, height, framerate);
    let sps = nal_unit(
        SPS_HEADER,
        pack_bits(
            with_trailing_bits(
                sps_bits(
                    macroblocks_over(width as int) as nat,
                    macroblocks_over(height as int) as nat,
                    crop_units(width as int) as nat,
                    crop_units(height as int) as nat,
                    framerate,
                ),
            ),
        ),
    );
    assert(all.take(5) =~= seq![0u8, 0u8, 0u8, 1u8, SPS_HEADER]);
    let i = sps.len() as int;
    assert(all.subrange(i, i + 5) =~= seq![0u8, 0u8, 0u8, 1u8, PPS_HEADER]);
}

/// Rounding up to macroblocks adds fewer than sixteen pixels, and cropping takes back what it
/// added, to the chroma sample.
pub proof fn lemma_crop_restores_side(side: int)
    requires
        side >= 0,
    ensures
        side <= 16 * macroblocks_over(side) < side + 16,
        side <= 16 * macroblocks_over(side) - 2 * crop_units(side) <= side + 1,
{
}

/// Nothing is inserted where nothing is needed: a payload in which no byte up to 3 follows two zeros
/// stays as it is.
pub proof fn lemma_escape_only_where_needed(rbsp: Seq<u8>)
    requires
        forall|i: int|
            0 <= i && i + 2 < rbsp.len() && #[trigger] rbsp[i] == 0 && rbsp[i + 1] == 0 ==> rbsp[i
                + 2] > 3,
    ensures
        escaped(rbsp) == rbsp,
    decreases rbsp.len(),
{
    if rbsp.len() > 0 {
        let init = rbsp.drop_last();
        assert forall|i: int|
            0 <= i && i + 2 < init.len() && #[trigger] init[i] == 0 && init[i + 1]
                == 0 implies init[i + 2] > 3 by {
            assert(rbsp[i] == 0 && rbsp[i + 1] == 0);
        }
        lemma_escape_only_where_needed(init);
        lemma_no_start_code_inside(init);
        let (out, zeros) = escape_state(init);
        if zeros >= 2 {
            assert(rbsp[rbsp.len() - 3] == 0 && rbsp[rbsp.len() - 2] == 0);
        }
        assert(init.push(rbsp.last()) =~= rbsp);
    }
}

/// A byte up to 3 that follows two zeros gets a 3 before it, and no other byte gets anything.
pub proof fn lemma_escape_guards_small_bytes(rbsp: Seq<u8>, byte: u8)
    ensures
        ({
            let out = escaped(rbsp);
            let n = out.len() as int;
            let after_zeros = n >= 2 && out[n - 1] == 0 && out[n - 2] == 0;
            escaped(rbsp.push(byte)) == if after_zeros && byte <= 3 {
                out + seq![3u8, byte]
            } else {
                out + seq![byte]
            }
        }),
{
    lemma_no_start_code_inside(rbsp);
    assert(rbsp.push(byte).drop_last() =~= rbsp);
    let out = escaped(rbsp);
    assert(out.push(3).push(byte) =~= out + seq![3u8, byte]);
    assert(out.push(byte) =~= out + seq![byte]);
}

/// A NAL unit starts with three zeros, a one and its header, and the payload that it carries is the one
/// that it was made of.
pub proof fn lemma_unit_carries_its_payload(header: u8, rbsp: Seq<u8>)
    ensures
        nal_unit(header, rbsp).take(4) == seq![0u8, 0u8, 0u8, 1u8],
        nal_unit(header, rbsp)[4] == header,
        unescaped(nal_unit(header, rbsp).skip(5)) == rbsp,
{
    lemma_unescape_escaped(rbsp);
    assert(nal_unit(header, rbsp).take(4) =~= seq![0u8, 0u8, 0u8, 1u8]);
    assert(nal_unit(header, rbsp).skip(5) =~= escaped(rbsp));
}

} // verus!
