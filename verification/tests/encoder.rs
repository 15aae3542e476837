use smelter_media::annexb::annexb_nalu_types;
use smelter_media::avc_config::{
    avc_decoder_headers, clamp_gop_size, frames_per_second, join_parameter_sets, plan_chunk,
    plan_encoder, sequence_header, CodedMetadata, H264BitstreamFormat,
};
use smelter_media::encode_run::{EncodeCall, EncodeRun, EncodeStep};
use smelter_media::h264_encoder::{
    collect_coded_data, h264_encode_entrypoint, Crop, Entrypoint, H264Encoder, H264EncoderConfig,
    IntelVaapiH264Encoder, RECONSTRUCTED_SURFACE_ALLOCATION_BATCH, SLICE_TYPE_I, SLICE_TYPE_P,
};
use smelter_media::media::{Framerate, Resolution};
use smelter_media::time::Duration;
use smelter_media::va_status::check_va_status;

fn ms(millis: u64) -> Duration {
    Duration::from_millis(millis)
}

fn config(gop_size: u16) -> H264EncoderConfig {
    H264EncoderConfig {
        resolution: Resolution { width: 1920, height: 1080 },
        bitrate: 500_000,
        gop_size,
        framerate: Framerate { num: 30, den: 1 },
        max_pending_frames: 2,
    }
}

/// Takes a surface as whoever talks to the hardware does: a batch is allocated where none is free.
fn surface(encoder: &mut IntelVaapiH264Encoder) -> u32 {
    match encoder.take_reconstructed_surface() {
        Some(surface) => surface,
        None => encoder
            .add_surfaces(RECONSTRUCTED_SURFACE_ALLOCATION_BATCH as u32)
            .expect("surfaces were created"),
    }
}

fn submit(encoder: &mut IntelVaapiH264Encoder, pts: u64, force: bool) -> (u32, bool) {
    let reconstructed = surface(encoder);
    let plan = encoder.plan_submit(reconstructed, force);
    encoder.submitted(reconstructed, ms(pts), plan.is_keyframe);
    (reconstructed, plan.is_keyframe)
}

#[test]
fn keyframes_come_first_on_demand_and_per_group() {
    let mut encoder = IntelVaapiH264Encoder::new(config(3));
    let mut kinds = Vec::new();
    for index in 0..8 {
        kinds.push(submit(&mut encoder, index, index == 5).1);
        encoder.complete_oldest().unwrap();
    }
    assert_eq!(kinds, vec![true, false, false, true, false, true, false, false]);
}

#[test]
fn a_group_has_at_least_one_picture() {
    let mut encoder = IntelVaapiH264Encoder::new(config(0));
    assert_eq!(encoder.config().gop_size, 1);
    assert!(submit(&mut encoder, 0, false).1);
    assert!(submit(&mut encoder, 1, false).1);
}

#[test]
fn surfaces_are_numbered_in_batches() {
    let mut encoder = IntelVaapiH264Encoder::new(config(30));
    assert_eq!(encoder.take_reconstructed_surface(), None);
    assert_eq!(encoder.add_surfaces(4).unwrap(), 3);
    assert_eq!(encoder.take_reconstructed_surface(), Some(2));
    assert_eq!(encoder.take_reconstructed_surface(), Some(1));
    assert_eq!(encoder.take_reconstructed_surface(), Some(0));
    assert_eq!(encoder.take_reconstructed_surface(), None);
    assert_eq!(encoder.add_surfaces(4).unwrap(), 7);
    assert_eq!(
        encoder.add_surfaces(0).unwrap_err(),
        "VA-API returned no reconstructed surface"
    );
}

#[test]
fn a_surface_is_reused_only_when_nobody_uses_it() {
    let mut encoder = IntelVaapiH264Encoder::new(config(30));
    let (first, _) = submit(&mut encoder, 0, false);
    let (second, _) = submit(&mut encoder, 1, false);
    let (third, forced) = submit(&mut encoder, 2, true);
    assert!(forced);
    // the second is still being written, the first is still being read
    let (fourth, _) = submit(&mut encoder, 3, false);
    let used = [first, second, third, fourth];
    for one in 0..4 {
        for other in 0..one {
            assert_ne!(used[one], used[other]);
        }
    }
    assert!(encoder.over_limit());
    assert!(encoder.producer_is_pending(second));
    assert_eq!(encoder.complete_oldest().unwrap().pts, ms(0));
    assert_eq!(encoder.take_reconstructed_surface(), None);
    // the second picture is done: what it read, and what it wrote and nobody reads, is free
    assert_eq!(encoder.complete_oldest().unwrap().pts, ms(1));
    assert!(!encoder.producer_is_pending(second));
    let mut free = vec![
        encoder.take_reconstructed_surface().unwrap(),
        encoder.take_reconstructed_surface().unwrap(),
    ];
    free.sort();
    let mut expected = vec![first, second];
    expected.sort();
    assert_eq!(free, expected);
    assert_eq!(encoder.take_reconstructed_surface(), None);
}

#[test]
fn pictures_complete_in_order() {
    let mut encoder = IntelVaapiH264Encoder::new(config(30));
    assert_eq!(
        encoder.complete_oldest().unwrap_err(),
        "VA-API encoder has no pending frame"
    );
    submit(&mut encoder, 0, false);
    submit(&mut encoder, 1, false);
    assert_eq!(encoder.pending_frames(), 2);
    assert!(!encoder.over_limit());
    assert_eq!(encoder.oldest().unwrap().pts, ms(0));
    assert!(encoder.drop_oldest().unwrap().is_keyframe);
    assert!(!encoder.complete_oldest().unwrap().is_keyframe);
    assert!(encoder.drop_oldest().is_none());
}

#[test]
fn parameters_describe_the_stream_and_the_picture() {
    let mut encoder = IntelVaapiH264Encoder::new(config(30));
    let first = surface(&mut encoder);
    let plan = encoder.plan_submit(first, false);
    assert!(plan.is_keyframe && plan.picture.is_idr);
    assert_eq!(plan.sequence.picture_width_in_mbs, 120);
    assert_eq!(plan.sequence.picture_height_in_mbs, 68);
    assert_eq!(plan.sequence.crop, Some(Crop { right: 0, bottom: 4 }));
    assert_eq!((plan.sequence.num_units_in_tick, plan.sequence.time_scale), (1, 60));
    assert_eq!(plan.slice.macroblock_count, 8160);
    assert_eq!((plan.slice.slice_type, plan.slice.idr_pic_id), (SLICE_TYPE_I, 0));
    assert_eq!(plan.coded_buffer_size, 3_110_400);
    assert_eq!(plan.frames_per_second, 30);
    assert_eq!(plan.rate_control.bits_per_second, 500_000);
    assert_eq!((plan.rate_control.min_qp, plan.rate_control.max_qp), (10, 51));
    assert_eq!((plan.rate_control.window_size_ms, plan.rate_control.initial_qp), (1_500, 26));
    assert_eq!((plan.sequence.chroma_format_idc, plan.sequence.aspect_ratio_idc), (1, 1));
    assert!(plan.sequence.frame_mbs_only && plan.sequence.fixed_frame_rate);
    assert!(plan.picture.is_reference && plan.picture.deblocking_filter_control);
    assert_eq!((plan.slice.alpha_c0_offset_div2, plan.slice.beta_offset_div2), (2, 2));
    assert!(plan.picture.reference.is_none());
    encoder.submitted(first, ms(0), true);
    let second = surface(&mut encoder);
    let plan = encoder.plan_submit(second, false);
    let reference = plan.picture.reference.unwrap();
    assert_eq!((reference.surface, reference.frame_num, reference.poc), (first, 0, 0));
    assert_eq!((plan.picture.frame_num, plan.picture.current.poc), (1, 2));
    assert_eq!((plan.slice.slice_type, plan.slice.idr_pic_id), (SLICE_TYPE_P, 1));
    assert!(plan.slice.override_reference_count);
}

#[test]
fn picture_numbers_start_over() {
    let mut encoder = IntelVaapiH264Encoder::new(config(u16::MAX));
    for index in 0..65_536u64 {
        submit(&mut encoder, index, index == 0);
        encoder.complete_oldest().unwrap();
    }
    // a keyframe after the longest group
    assert_eq!(encoder.frame_num_for(false), 1);
    assert_eq!(encoder.poc_for(false), 2);
    assert_eq!((encoder.frame_num_for(true), encoder.poc_for(true)), (0, 0));
}

#[test]
fn room_for_a_picture_follows_rate_and_size() {
    let small = H264EncoderConfig {
        resolution: Resolution { width: 64, height: 64 },
        bitrate: 8_000_000,
        ..config(30)
    };
    assert_eq!(IntelVaapiH264Encoder::new(small).coded_buffer_size(), 2_000_000);
    let slow = H264EncoderConfig { bitrate: 1, ..small };
    assert_eq!(IntelVaapiH264Encoder::new(slow).coded_buffer_size(), 1_500_000);
    assert_eq!(IntelVaapiH264Encoder::new(slow).crop_offsets(), (0, 0));
    assert!(IntelVaapiH264Encoder::new(slow).sequence_parameter().crop.is_none());
}

#[test]
fn coded_data_gets_parameter_sets_and_long_start_codes() {
    let sets = bytes::Bytes::from_static(&[9, 9]);
    let short = vec![vec![0], vec![0, 1, 0x65]];
    assert_eq!(
        collect_coded_data(&sets, &short, true).unwrap().as_ref(),
        &[9, 9, 0, 0, 0, 1, 0x65]
    );
    assert_eq!(
        collect_coded_data(&sets, &short, false).unwrap().as_ref(),
        &[0, 0, 0, 1, 0x65]
    );
    let long = vec![vec![0, 0, 0, 1, 0x61]];
    assert_eq!(
        collect_coded_data(&sets, &long, false).unwrap().as_ref(),
        &[0, 0, 0, 1, 0x61]
    );
    assert_eq!(
        collect_coded_data(&sets, &vec![vec![]], true).unwrap_err(),
        "VA-API encoder returned empty coded data"
    );
}

#[test]
fn encoder_frames_start_with_parameter_sets() {
    let mut encoder = H264Encoder::new(config(30));
    assert_eq!(
        encoder.complete_oldest(Ok(vec![])).unwrap_err(),
        "VA-API encoder has no pending frame"
    );
    for pts in 0..4 {
        submit(encoder.decisions(), pts, false);
    }
    let frame = encoder.complete_oldest(Ok(vec![vec![0, 0, 1, 0x65, 1]])).unwrap();
    assert!(frame.is_keyframe);
    assert_eq!(frame.pts, ms(0));
    assert_eq!(annexb_nalu_types(&frame.data), vec![7, 8, 5]);
    assert!(frame.data.starts_with(encoder.parameter_sets()));
    let frame = encoder.complete_oldest(Ok(vec![vec![0, 0, 0, 1, 0x61, 1]])).unwrap();
    assert_eq!((frame.is_keyframe, frame.pts), (false, ms(1)));
    assert_eq!(annexb_nalu_types(&frame.data), vec![1]);
    assert_eq!(
        encoder.complete_oldest(Ok(vec![])).unwrap_err(),
        "VA-API encoder returned empty coded data"
    );
    assert_eq!(
        encoder.complete_oldest(Err("lost".to_string())).unwrap_err(),
        "lost"
    );
    assert_eq!(encoder.decisions().pending_frames(), 0);
}

/// Runs a call as whoever talks to the hardware does, and says in which order pictures left.
fn run(encoder: &mut IntelVaapiH264Encoder, call: EncodeCall, pts: u64, ready: usize) -> Vec<u64> {
    let mut left = Vec::new();
    let mut submitted = 0;
    let mut run = EncodeRun::new(call);
    loop {
        let oldest_ready = run.asks_for_oldest(encoder) && left.len() < ready;
        match run.next(encoder, oldest_ready) {
            EncodeStep::CompleteOldest => {
                let done = encoder.complete_oldest().unwrap();
                left.push(done.pts.as_millis() as u64);
            }
            EncodeStep::Submit => {
                submit(encoder, pts, false);
                submitted += 1;
            }
            EncodeStep::Return => break,
        }
    }
    assert_eq!(submitted, if call == EncodeCall::Encode { 1 } else { 0 });
    assert_eq!(run.next(encoder, true), EncodeStep::Return);
    left
}

#[test]
fn pictures_leave_when_ready_or_when_too_many_are_pending() {
    let mut encoder = IntelVaapiH264Encoder::new(config(30));
    assert_eq!(run(&mut encoder, EncodeCall::Encode, 0, 0), vec![]);
    assert_eq!(run(&mut encoder, EncodeCall::Encode, 1, 0), vec![]);
    assert_eq!(run(&mut encoder, EncodeCall::Encode, 2, 0), vec![0]);
    assert_eq!(encoder.pending_frames(), 2);
    assert_eq!(run(&mut encoder, EncodeCall::Encode, 3, 2), vec![1, 2]);
    assert_eq!(encoder.pending_frames(), 1);
    assert_eq!(run(&mut encoder, EncodeCall::Encode, 4, 0), vec![]);
    assert_eq!(run(&mut encoder, EncodeCall::Flush, 5, 1), vec![3, 4]);
    assert_eq!(encoder.pending_frames(), 0);
    assert_eq!(run(&mut encoder, EncodeCall::Flush, 5, 0), vec![]);
}

#[test]
fn failed_calls_are_described() {
    assert_eq!(check_va_status("vaInitialize", 0, "success"), Ok(()));
    assert_eq!(
        check_va_status("vaInitialize", 18, "invalid parameter").unwrap_err(),
        "vaInitialize failed: invalid parameter (18)"
    );
    assert_eq!(
        check_va_status("vaTerminate", i32::MIN, "?").unwrap_err(),
        "vaTerminate failed: ? (-2147483648)"
    );
}

#[test]
fn low_power_encoding_is_preferred() {
    assert_eq!(h264_encode_entrypoint(&[Entrypoint::Other, Entrypoint::EncSlice, Entrypoint::EncSliceLP]).ok(), Some(Entrypoint::EncSliceLP));
    assert_eq!(h264_encode_entrypoint(&[Entrypoint::EncSlice, Entrypoint::Other]).ok(), Some(Entrypoint::EncSlice));
    assert_eq!(
        h264_encode_entrypoint(&[Entrypoint::Other]).err().unwrap(),
        "VA-API H264 encode entrypoint is unavailable"
    );
}

#[test]
fn group_sizes_fit_into_sixteen_bits() {
    assert_eq!(clamp_gop_size(0), 1);
    assert_eq!(clamp_gop_size(250), 250);
    assert_eq!(clamp_gop_size(1 << 40), u16::MAX);
}

#[test]
fn frame_rates_are_rounded_down() {
    assert_eq!(frames_per_second(Framerate { num: 30_000, den: 1_001 }), 29);
    assert_eq!(frames_per_second(Framerate { num: 30, den: 0 }), 30);
}

#[test]
fn encoders_are_configured_for_the_stream() {
    let plan = plan_encoder(
        Resolution { width: 1280, height: 720 },
        Framerate { num: 60, den: 1 },
        0,
        None,
        7,
    );
    assert_eq!((plan.width, plan.height, plan.gop_size), (1280, 720, 1));
    assert_eq!((plan.profile, plan.level), (77, 40));
    assert_eq!((plan.bitrate, plan.framerate), (7, 60));
    let plan = plan_encoder(
        Resolution { width: 1280, height: 720 },
        Framerate { num: 60, den: 1 },
        100,
        Some(9),
        7,
    );
    assert_eq!((plan.bitrate, plan.gop_size), (9, 100));
}

#[test]
fn decoder_headers_hold_both_parameter_sets() {
    let headers = avc_decoder_headers(
        Resolution { width: 1920, height: 1080 },
        Framerate { num: 30, den: 1 },
        60,
    )
    .unwrap();
    assert!(headers.starts_with(&[0, 0, 0, 1, 0x67, 77, 0, 40]));
    assert_eq!(annexb_nalu_types(&headers), vec![7, 8]);
    assert!(headers.windows(5).any(|window| window == [0, 0, 0, 1, 0x68]));
}

#[test]
fn decoder_headers_depend_on_the_stream() {
    let at = |width, num, gop| {
        avc_decoder_headers(Resolution { width, height: 1080 }, Framerate { num, den: 1 }, gop)
            .unwrap()
    };
    let base = at(1920, 30, 60);
    assert_ne!(base, at(1280, 30, 60));
    assert_ne!(base, at(1920, 60, 60));
    assert_ne!(base, at(1920, 30, 300));
    assert_eq!(base, at(1920, 30, 60));
}

#[test]
fn sequence_headers_follow_from_the_options() {
    let header =
        sequence_header(Resolution { width: 640, height: 480 }, Framerate { num: 0, den: 1 }, 16);
    assert_eq!((header.max_frame_num, header.max_pic_order_cnt_lsb), (16, 32));
    assert_eq!((header.width, header.height, header.time_scale), (640, 480, 2));
}

#[test]
fn both_parameter_sets_are_needed() {
    assert_eq!(join_parameter_sets(Some(vec![1]), Some(vec![2])), Some(vec![1, 2]));
    assert_eq!(join_parameter_sets(None, Some(vec![2])), None);
    assert_eq!(join_parameter_sets(Some(vec![1]), None), None);
}

#[test]
fn chunks_are_not_earlier_than_asked_for() {
    let metadata = CodedMetadata { timestamp: 5_000, force_keyframe: false };
    let idr = [0, 0, 1, 0x65];
    let slice = [0, 0, 1, 0x61];
    let plan = plan_chunk(metadata, &idr, ms(3), H264BitstreamFormat::Avcc);
    assert_eq!((plan.pts, plan.is_keyframe, plan.to_avcc), (ms(5), true, true));
    let plan = plan_chunk(metadata, &slice, ms(8), H264BitstreamFormat::AnnexB);
    assert_eq!((plan.pts, plan.is_keyframe, plan.to_avcc), (ms(8), false, false));
    let forced = CodedMetadata { timestamp: 0, force_keyframe: true };
    assert!(plan_chunk(forced, &slice, ms(0), H264BitstreamFormat::AnnexB).is_keyframe);
}

/// Encodes pictures with the given wishes for keyframes, flushes, and says what came back.
fn session(gop_size: u16, forced: &[bool]) -> Vec<(u64, bool, bool)> {
    let mut encoder = H264Encoder::new(config(gop_size));
    let sets = encoder.parameter_sets().to_vec();
    let mut returned = Vec::new();
    let calls = forced.iter().map(|force| Some(*force)).chain([None]);
    for (at, force) in calls.enumerate() {
        let call = if force.is_some() { EncodeCall::Encode } else { EncodeCall::Flush };
        let mut run = EncodeRun::new(call);
        loop {
            let ready = run.asks_for_oldest(encoder.decisions()) && at % 3 == 0;
            match run.next(encoder.decisions(), ready) {
                EncodeStep::CompleteOldest => {
                    let done = encoder.complete_oldest(Ok(vec![vec![0, 0, 0, 1, 9]])).unwrap();
                    let pts = done.pts.as_millis() as u64;
                    returned.push((pts, done.is_keyframe, done.data.starts_with(&sets)));
                }
                EncodeStep::Submit => {
                    submit(encoder.decisions(), at as u64, force == Some(true));
                }
                EncodeStep::Return => break,
            }
        }
    }
    returned
}

#[test]
fn as_many_pictures_leave_as_went_in() {
    assert_eq!(session(30, &[true, false]), vec![(0, true, true), (1, false, false)]);
    let returned = session(30, &[false; 120]);
    let expected: Vec<_> = (0..120).map(|at| (at, at % 30 == 0, at % 30 == 0)).collect();
    assert_eq!(returned, expected);
    let forced = [false, false, true, false, false, false, false];
    let kinds: Vec<_> = session(3, &forced).iter().map(|picture| picture.1).collect();
    assert_eq!(kinds, vec![true, false, true, false, false, true, false]);
}
