use smelter_media::media::{Extent, VideoFramerate, VideoResolution};
use smelter_media::shared_pts::SharedPts;
use smelter_media::text::{decimal, join};
use smelter_media::time::{duration_micros, Duration, MAX_NANOS};
use smelter_media::track_offset::TrackOffset;

fn ms(millis: u64) -> Duration {
    Duration::from_millis(millis)
}

#[test]
fn durations_convert_between_units() {
    assert_eq!(Duration::from_secs(2).as_millis(), 2000);
    assert_eq!(Duration::from_micros(1500).as_nanos(), 1_500_000);
    assert_eq!(Duration::from_nanos(1_999).as_micros(), 1);
    assert_eq!(Duration::zero().nanos, 0);
}

#[test]
fn duration_arithmetic_saturates_or_fails() {
    assert_eq!(ms(3).saturating_sub(ms(5)), Duration::zero());
    assert_eq!(ms(5).saturating_sub(ms(3)), ms(2));
    assert_eq!(ms(3).abs_diff(ms(5)), ms(2));
    assert_eq!(ms(3).longer(ms(5)), ms(5));
    assert_eq!(ms(3).shorter(ms(5)), ms(3));
    assert_eq!(ms(3).plus(ms(5)), ms(8));
    assert_eq!(ms(1).checked_add(Duration { nanos: MAX_NANOS }), None);
    assert_eq!(ms(1).checked_add(ms(2)), Some(ms(3)));
}

#[test]
fn longest_duration_is_that_of_the_standard_library() {
    assert_eq!(std::time::Duration::MAX.as_nanos(), MAX_NANOS);
}

#[test]
fn microseconds_are_cut_off() {
    assert_eq!(duration_micros(ms(33)), 33_000);
    assert_eq!(duration_micros(Duration { nanos: u128::MAX }), u64::MAX);
}

#[test]
fn frame_rates_are_never_zero() {
    assert!(VideoFramerate::new(0, 1).is_none());
    assert!(VideoFramerate::new(30, 0).is_none());
    let framerate = VideoFramerate::new(30_000, 1_001).unwrap();
    assert_eq!((framerate.num(), framerate.den()), (30_000, 1_001));
}

#[test]
fn a_picture_is_one_layer_of_a_texture() {
    assert_eq!(
        VideoResolution { width: 640, height: 480 }.extent_2d(),
        Extent { width: 640, height: 480, depth_or_array_layers: 1 }
    );
}

#[test]
fn numbers_are_written_in_decimal() {
    assert_eq!(decimal(0), "0");
    assert_eq!(decimal(1_234_567_890), "1234567890");
    assert_eq!(decimal(u64::MAX), u64::MAX.to_string());
    assert_eq!(join(&["a".to_string(), "b".to_string(), "c".to_string()], "--"), "a--b--c");
}

#[test]
fn shared_slots_are_set_once() {
    let mut shared = SharedPts::new();
    let slot = shared.add_slot(None);
    assert_eq!(shared.get(slot), None);
    assert_eq!(shared.get_or_init(slot, ms(7)), ms(7));
    assert_eq!(shared.get_or_init(slot, ms(9)), ms(7));
    shared.set(slot, ms(11));
    assert_eq!(shared.get(slot), Some(ms(11)));
}

#[test]
fn later_moments_keep_their_distance_from_the_start() {
    let mut shared = SharedPts::new();
    let start = TrackOffset::unsettled(&mut shared);
    let end = start.after(ms(100));
    assert_eq!(start.get(&shared), None);
    assert_eq!(end.get(&shared), None);
    assert_eq!(end.get_or_init(ms(130), &mut shared), ms(130));
    assert_eq!(start.get(&shared), Some(ms(30)));
    start.map_add(ms(5), &mut shared);
    assert_eq!(end.get(&shared), Some(ms(135)));
    assert_eq!(start.get_or_init(ms(0), &mut shared), ms(35));
}

#[test]
fn a_track_does_not_start_before_zero() {
    let mut shared = SharedPts::new();
    let end = TrackOffset::unsettled(&mut shared).after(ms(100));
    assert_eq!(end.get_or_init(ms(40), &mut shared), ms(100));
}

#[test]
fn an_unsettled_start_is_not_moved() {
    let mut shared = SharedPts::new();
    let start = TrackOffset::unsettled(&mut shared);
    start.map_add(ms(5), &mut shared);
    assert_eq!(start.get(&shared), None);
    let settled = TrackOffset::new(ms(8), &mut shared);
    assert_eq!(settled.get(&shared), Some(ms(8)));
}
