use smelter_media::annexb::{annexb_nalu_types, contains_idr, has_nalu};
use smelter_media::bits::BitWriter;
use smelter_media::h264_parameter_sets::{
    align_to_macroblock, annexb_nal, escape_rbsp, h264_main_parameter_sets, pps_rbsp,
    H264_LEVEL_4_0, H264_PROFILE_MAIN,
};
use smelter_media::media::{Framerate, Resolution};

/// The decoder configuration record (ISO/IEC 14496-15) for parameter sets in a byte stream.
fn avc_decoder_config(annexb: &[u8]) -> Option<Vec<u8>> {
    let mut units: Vec<&[u8]> = Vec::new();
    let mut starts: Vec<usize> = Vec::new();
    for at in 0..annexb.len().saturating_sub(3) {
        if annexb[at..].starts_with(&[0, 0, 0, 1]) {
            starts.push(at);
        }
    }
    for (index, start) in starts.iter().enumerate() {
        let end = starts.get(index + 1).copied().unwrap_or(annexb.len());
        units.push(&annexb[start + 4..end]);
    }
    let sps = units.iter().find(|unit| unit[0] & 0x1f == 7)?;
    let pps = units.iter().find(|unit| unit[0] & 0x1f == 8)?;
    let mut config = vec![1, sps[1], sps[2], sps[3], 0xff, 0xe1];
    config.extend_from_slice(&(sps.len() as u16).to_be_bytes());
    config.extend_from_slice(sps);
    config.push(1);
    config.extend_from_slice(&(pps.len() as u16).to_be_bytes());
    config.extend_from_slice(pps);
    Some(config)
}

#[test]
fn parameter_sets_build_avc_config() {
    let parameter_sets = h264_main_parameter_sets(
        Resolution { width: 1920, height: 1080 },
        Framerate { num: 30, den: 1 },
    );
    let config = avc_decoder_config(&parameter_sets).unwrap();
    assert_eq!(&config[..4], &[1, H264_PROFILE_MAIN, 0, H264_LEVEL_4_0]);
}

#[test]
fn parameter_sets_use_annexb_start_codes() {
    let parameter_sets = h264_main_parameter_sets(
        Resolution { width: 1280, height: 720 },
        Framerate { num: 60, den: 1 },
    );
    assert!(parameter_sets.starts_with(&[0, 0, 0, 1, 0x67]));
    assert!(parameter_sets.windows(5).any(|window| window == [0, 0, 0, 1, 0x68]));
}

#[test]
fn parameter_sets_of_full_hd_are_exact() {
    let parameter_sets = h264_main_parameter_sets(
        Resolution { width: 1920, height: 1080 },
        Framerate { num: 30, den: 1 },
    );
    assert_eq!(
        parameter_sets.as_ref(),
        &[
            0x00, 0x00, 0x00, 0x01, 0x67, 0x4d, 0x00, 0x28, 0xac, 0x1b, 0x1a, 0x80, 0x78, 0x02,
            0x27, 0xe5, 0xc0, 0x44, 0x00, 0x00, 0x03, 0x00, 0x04, 0x00, 0x00, 0x03, 0x00, 0xf2,
            0x10, 0x00, 0x00, 0x00, 0x01, 0x68, 0xce, 0x3c, 0x80,
        ]
    );
}

#[test]
fn picture_parameter_set_payload_is_exact() {
    assert_eq!(pps_rbsp(), vec![0xce, 0x3c, 0x80]);
}

#[test]
fn bits_are_written_most_significant_first() {
    let mut writer = BitWriter::new();
    writer.bit(true);
    writer.bits(0b010, 3);
    writer.ue(0);
    writer.ue(3);
    writer.se(-1);
    assert_eq!(writer.finish_rbsp(), vec![0b1010_1001, 0b0001_1100]);
}

#[test]
fn signed_codes_alternate() {
    // 0, 1, -1, 2, -2 become 0, 1, 2, 3, 4
    let mut writer = BitWriter::new();
    for value in [0, 1, -1, 2, -2] {
        writer.se(value);
    }
    let mut expected = BitWriter::new();
    for code in 0..5 {
        expected.ue(code);
    }
    assert_eq!(writer.finish_rbsp(), expected.finish_rbsp());
}

#[test]
fn escaping_breaks_up_start_codes() {
    assert_eq!(escape_rbsp(&[0, 0, 1]), vec![0, 0, 3, 1]);
    assert_eq!(escape_rbsp(&[0, 0, 0, 0, 3]), vec![0, 0, 3, 0, 0, 3, 3]);
    assert_eq!(escape_rbsp(&[0, 0, 4]), vec![0, 0, 4]);
    assert_eq!(escape_rbsp(&[]), Vec::<u8>::new());
}

#[test]
fn escaped_data_can_be_restored() {
    let data = vec![0, 0, 0, 1, 0, 0, 2, 7, 0, 0, 3, 0, 0];
    let escaped = escape_rbsp(&data);
    let mut restored = Vec::new();
    let mut zeros = 0;
    for byte in escaped.iter().copied() {
        if zeros >= 2 && byte == 3 {
            zeros = 0;
            continue;
        }
        zeros = if byte == 0 { zeros + 1 } else { 0 };
        restored.push(byte);
    }
    assert_eq!(restored, data);
    assert!(!escaped.windows(3).any(|window| window[..2] == [0, 0] && window[2] < 3));
}

#[test]
fn sides_are_rounded_up_to_macroblocks() {
    assert_eq!(align_to_macroblock(1), 16);
    assert_eq!(align_to_macroblock(16), 16);
    assert_eq!(align_to_macroblock(1080), 1088);
}

#[test]
fn written_units_are_found_by_type() {
    let mut data = annexb_nal(0x67, vec![1, 2, 3]);
    data.extend(annexb_nal(0x68, vec![9]));
    data.extend([0, 0, 1, 0x65, 5]);
    assert_eq!(annexb_nalu_types(&data), vec![7, 8, 5]);
    assert!(contains_idr(&data));
    assert!(!contains_idr(&annexb_nal(0x61, vec![1])));
}

#[test]
fn a_start_code_at_the_end_starts_nothing() {
    assert!(!has_nalu(&[]));
    assert!(!has_nalu(&[0, 0, 1]));
    assert!(!has_nalu(&[0, 0, 2, 1, 1]));
    assert!(has_nalu(&[0, 0, 1, 9]));
    assert!(has_nalu(&[7, 0, 0, 0, 1, 9]));
    assert!(!has_nalu(&[9, 0, 0, 1]));
    assert_eq!(annexb_nalu_types(&[0, 0, 0, 1]), Vec::<u8>::new());
}
