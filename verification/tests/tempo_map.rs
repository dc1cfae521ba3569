use rhythm_core::tempo::{instant_order, position_for_time, BpmCommand, POSITION_SPAN};
use rhythm_core::timed::Timed;
use std::cmp::Ordering;

fn point(time: i64, bpm: i32, position: i64) -> Timed<BpmCommand> {
    Timed { time, inner: BpmCommand { bpm, position } }
}

/// 200 beats per minute from time zero on.
fn steady() -> Vec<Timed<BpmCommand>> {
    vec![point(0, 200_000, 0)]
}

/// 120 beats per minute for two seconds, then 60, then a halt after five.
fn changing() -> Vec<Timed<BpmCommand>> {
    vec![
        point(0, 120_000, 0),
        point(2_000_000, 60_000, 240_000_000_000),
        point(5_000_000, 0, 420_000_000_000),
    ]
}

#[test]
fn position_is_elapsed_time_multiplied_by_tempo() {
    assert_eq!(position_for_time(&steady(), 0), 0);
    assert_eq!(position_for_time(&steady(), 1_500_000), 300_000_000_000);
    // One beat is sixty billion units: 1.5 s at 200 bpm are five beats.
    assert_eq!(position_for_time(&steady(), 1_500_000) / 60_000_000_000, 5);
}

#[test]
fn position_starts_from_the_governing_point() {
    let map = changing();
    assert_eq!(position_for_time(&map, 1_000_000), 120_000_000_000);
    assert_eq!(position_for_time(&map, 3_000_000), 240_000_000_000 + 60_000_000_000);
    assert_eq!(position_for_time(&map, 9_000_000), 420_000_000_000);
}

#[test]
fn a_point_governs_its_own_time() {
    let map = vec![point(0, 100_000, 0), point(1_000_000, 300_000, 7)];
    assert_eq!(position_for_time(&map, 999_999), 99_999_900_000);
    assert_eq!(position_for_time(&map, 1_000_000), 7);
    assert_eq!(position_for_time(&map, 1_000_001), 7 + 300_000);
}

#[test]
fn the_last_of_several_points_at_one_time_governs() {
    let map = vec![point(0, 100_000, 0), point(10, 1, 1_000_000), point(10, 5, 1_000_000)];
    assert_eq!(position_for_time(&map, 12), 1_000_000 + 2 * 5);
}

#[test]
fn a_time_before_all_points_is_governed_by_the_first() {
    let map = vec![point(1_000_000, 60_000, 500), point(2_000_000, 120_000, 60_000_000_500)];
    assert_eq!(position_for_time(&map, 0), 500 - 60_000_000_000);
    assert_eq!(position_for_time(&map, -1_000_000), 500 - 120_000_000_000);
}

#[test]
fn position_never_decreases_when_no_tempo_is_negative() {
    let map = changing();
    let mut last = position_for_time(&map, -3_000_000);
    let mut time = -3_000_000;
    while time <= 8_000_000 {
        let here = position_for_time(&map, time);
        assert!(last <= here);
        last = here;
        time += 125_000;
    }
}

#[test]
fn within_a_segment_the_position_advances_by_time_multiplied_by_tempo() {
    let map = changing();
    let (t1, t2) = (2_250_000, 4_750_000);
    assert_eq!(
        position_for_time(&map, t2) - position_for_time(&map, t1),
        (t2 - t1) as i128 * 60_000
    );
}

#[test]
fn a_negative_tempo_runs_backwards() {
    let map = vec![point(0, -90_000, 10)];
    assert_eq!(position_for_time(&map, 1_000), 10 - 90_000_000);
}

#[test]
fn the_extremes_stay_within_the_span() {
    let map = vec![point(i64::MIN, i32::MIN, i64::MIN)];
    let far = position_for_time(&map, i64::MAX);
    assert_eq!(far, i64::MIN as i128 + (u64::MAX as i128) * (i32::MIN as i128));
    assert!(-POSITION_SPAN <= far && far <= POSITION_SPAN);
    let map = vec![point(i64::MIN, i32::MAX, i64::MAX)];
    let far = position_for_time(&map, i64::MAX);
    assert!(-POSITION_SPAN <= far && far <= POSITION_SPAN);
}

#[test]
fn instant_order_puts_the_instant_itself_in_front() {
    assert_eq!(instant_order(4, 5), Ordering::Less);
    assert_eq!(instant_order(5, 5), Ordering::Less);
    assert_eq!(instant_order(6, 5), Ordering::Greater);
}
