use ash::vk::native;
use smelter_media::audio::{
    into_stereo, AudioChannels, AudioSamples, InputAudioSamples, InputProcessor, ResamplerSetup,
};
use smelter_media::h265_parameters::{
    new_encode_vps, vk_to_h265_level_idc, VulkanDecoderError, LEVEL_6_1,
};
use smelter_media::opus_head::{opus_head, opus_pre_skip};
use smelter_media::output_writer::{DrainPolicy, OutputWriter, WriterEvent};
use smelter_media::pipeline_options::{
    default_buffer_duration, download_dir_name, random_download_dir_name,
};
use smelter_media::plugin::{compile_src, prepare_source, wrap_source};
use smelter_media::time::Duration;

#[test]
fn opus_head_is_exact() {
    assert_eq!(
        opus_head(AudioChannels::Stereo, 48_000, 312).as_ref(),
        &[
            b'O', b'p', b'u', b's', b'H', b'e', b'a', b'd', 1, 2, 0x38, 0x01, 0x80, 0xbb, 0, 0, 0,
            0, 0,
        ]
    );
    let mono = opus_head(AudioChannels::Mono, 0x0403_0201, 0x0605);
    assert_eq!(&mono[8..], &[1, 1, 5, 6, 1, 2, 3, 4, 0, 0, 0]);
}

#[test]
fn pre_skip_counts_in_the_rate_of_opus() {
    assert_eq!(opus_pre_skip(312, 48_000), 312);
    assert_eq!(opus_pre_skip(104, 16_000), 312);
    assert_eq!(opus_pre_skip(52, 8_000), 312);
}

fn batch(samples: AudioSamples<i16>, rate: u32, millis: u64) -> InputAudioSamples<i16> {
    InputAudioSamples { samples, start_pts: Duration::from_millis(millis), sample_rate: rate }
}

#[test]
fn a_resampler_is_made_when_the_samples_change() {
    let mut processor = InputProcessor::new(48_000);
    assert!(!processor.has_resampler());
    assert_eq!(processor.mixing_sample_rate(), 48_000);
    let setup = processor.write_batch(&batch(AudioSamples::Mono(vec![1]), 44_100, 3));
    assert_eq!(
        setup,
        Some(ResamplerSetup {
            input_sample_rate: 44_100,
            output_sample_rate: 48_000,
            channels: AudioChannels::Mono,
            start_pts: Duration::from_millis(3),
        })
    );
    assert!(processor.has_resampler());
    assert_eq!(processor.write_batch(&batch(AudioSamples::Mono(vec![]), 44_100, 9)), None);
    let stereo = processor.write_batch(&batch(AudioSamples::Stereo(vec![(1, 2)]), 44_100, 10));
    assert_eq!(stereo.unwrap().channels, AudioChannels::Stereo);
    let faster = processor.write_batch(&batch(AudioSamples::Stereo(vec![(1, 2)]), 48_000, 11));
    assert_eq!(faster.unwrap().input_sample_rate, 48_000);
}

#[test]
fn one_channel_is_heard_on_both_sides() {
    assert_eq!(into_stereo(AudioSamples::Mono(vec![0.5, -1.0])), vec![(0.5, 0.5), (-1.0, -1.0)]);
    assert_eq!(into_stereo(AudioSamples::Stereo(vec![(1, 2)])), vec![(1, 2)]);
}

#[test]
fn levels_have_the_numbers_of_the_stream() {
    for (level, expected) in [
        (native::StdVideoH265LevelIdc_STD_VIDEO_H265_LEVEL_IDC_1_0, 30),
        (native::StdVideoH265LevelIdc_STD_VIDEO_H265_LEVEL_IDC_2_0, 60),
        (native::StdVideoH265LevelIdc_STD_VIDEO_H265_LEVEL_IDC_2_1, 63),
        (native::StdVideoH265LevelIdc_STD_VIDEO_H265_LEVEL_IDC_3_0, 90),
        (native::StdVideoH265LevelIdc_STD_VIDEO_H265_LEVEL_IDC_3_1, 93),
        (native::StdVideoH265LevelIdc_STD_VIDEO_H265_LEVEL_IDC_4_0, 120),
        (native::StdVideoH265LevelIdc_STD_VIDEO_H265_LEVEL_IDC_4_1, 123),
        (native::StdVideoH265LevelIdc_STD_VIDEO_H265_LEVEL_IDC_5_0, 150),
        (native::StdVideoH265LevelIdc_STD_VIDEO_H265_LEVEL_IDC_5_1, 153),
        (native::StdVideoH265LevelIdc_STD_VIDEO_H265_LEVEL_IDC_5_2, 156),
        (native::StdVideoH265LevelIdc_STD_VIDEO_H265_LEVEL_IDC_6_0, 180),
        (native::StdVideoH265LevelIdc_STD_VIDEO_H265_LEVEL_IDC_6_1, 183),
        (native::StdVideoH265LevelIdc_STD_VIDEO_H265_LEVEL_IDC_6_2, 186),
    ] {
        assert_eq!(vk_to_h265_level_idc(level).ok().unwrap(), expected);
    }
    match vk_to_h265_level_idc(13) {
        Err(VulkanDecoderError::InvalidInputData(message)) => {
            assert_eq!(message, "unknown StdVideoH265LevelIdc: 13")
        }
        Ok(level) => panic!("unexpected {level}"),
    }
    assert_eq!(LEVEL_6_1, native::StdVideoH265LevelIdc_STD_VIDEO_H265_LEVEL_IDC_6_1);
}

#[test]
fn encoded_streams_have_one_layer_and_no_reordering() {
    let vps = new_encode_vps(1, 4);
    assert_eq!((vps.id, vps.max_sub_layers_minus1), (0, 0));
    assert_eq!((vps.num_units_in_tick, vps.time_scale), (0, 0));
    assert_eq!(vps.num_ticks_poc_diff_one_minus1, 0);
    assert!(vps.temporal_id_nesting && vps.sub_layer_ordering_info_present);
    assert_eq!(vps.profile_tier_level.general_level_idc, 11);
    assert_eq!(vps.profile_tier_level.general_profile_idc, 1);
    assert_eq!(vps.dec_pic_buf_mgr.max_dec_pic_buffering_minus1, [4, 0, 0, 0, 0, 0, 0]);
    assert_eq!(vps.dec_pic_buf_mgr.max_latency_increase_plus1, [1, 0, 0, 0, 0, 0, 0]);
    assert_eq!(vps.dec_pic_buf_mgr.max_num_reorder_pics, [0; 7]);
}

#[test]
fn the_output_is_done_when_the_channel_closes() {
    let mut writer = OutputWriter::new(DrainPolicy::UntilClosed);
    assert_eq!(writer.step(WriterEvent::Data(1)).write, Some(1));
    assert!(!writer.step(WriterEvent::VideoEOS).write_trailer);
    assert_eq!(writer.step(WriterEvent::Data(2)).write, Some(2));
    let step = writer.step(WriterEvent::AudioEOS);
    assert!(step.write_trailer && !step.done);
    // what arrives after the trailer is dropped
    let step = writer.step(WriterEvent::Data(3));
    assert_eq!((step.write, step.write_trailer, step.done), (None, false, false));
    assert!(!writer.step(WriterEvent::AudioEOS).write_trailer);
    assert!(writer.step(WriterEvent::Closed).done);
}

#[test]
fn leaving_with_the_trailer_is_done_too_early() {
    let mut writer = OutputWriter::new(DrainPolicy::UntilTrailer);
    assert!(!writer.step(WriterEvent::AudioEOS).done);
    let step = writer.step(WriterEvent::VideoEOS);
    assert!(step.write_trailer && step.done);
}

#[test]
fn scripts_report_what_they_throw() {
    assert_eq!(
        wrap_source("run();"),
        "try {\nrun();\n} catch(e) { console.error(e.message + '\\n' + (e.stack || '')); }"
    );
    assert_eq!(prepare_source(b"run();".to_vec()).unwrap(), wrap_source("run();"));
}

#[test]
fn scripts_have_to_be_text() {
    let expected = String::from_utf8(vec![0x66, 0xff]).unwrap_err().to_string();
    assert_eq!(prepare_source(vec![0x66, 0xff]).unwrap_err(), expected);
    assert_eq!(compile_src(vec![0x66, 0xff]).unwrap_err(), expected);
}

#[test]
fn scripts_are_not_compiled_without_a_runtime() {
    let error = compile_src(b"run();".to_vec()).unwrap_err();
    assert!(error.contains("not initialized"), "{error}");
}

#[test]
fn download_directories_are_numbered() {
    assert_eq!(download_dir_name(0), "smelter-0");
    assert_eq!(download_dir_name(u64::MAX), "smelter-18446744073709551615");
    let one = random_download_dir_name();
    let other = random_download_dir_name();
    assert!(one.strip_prefix("smelter-").unwrap().parse::<u64>().is_ok());
    assert_ne!(one, other);
}

#[test]
fn the_default_buffer_is_eighty_milliseconds() {
    assert_eq!(default_buffer_duration(), Duration::from_millis(80));
}
