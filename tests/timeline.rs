use prpr::timeline::{lerp_value, Keyframe, Timeline, Tween};

fn kf(time: i64, value: i64, tween: Tween) -> Keyframe {
    Keyframe { time, value, tween }
}

fn at(t: &mut Timeline, time: i64) -> i64 {
    t.set_time(time);
    t.now()
}

#[test]
fn before_first_and_after_last_keyframe() {
    let mut t = Timeline::new(vec![kf(100, 5, Tween::Linear), kf(200, 15, Tween::Linear)]);
    assert_eq!(at(&mut t, 0), 5);
    assert_eq!(at(&mut t, -1000), 5);
    assert_eq!(at(&mut t, 200), 15);
    assert_eq!(at(&mut t, 10_000), 15);
}

#[test]
fn hold_segment_keeps_its_value_on_half_open_interval() {
    let mut t = Timeline::new(vec![kf(0, 7, Tween::Hold), kf(10, 20, Tween::Linear)]);
    for time in 0..10 {
        assert_eq!(at(&mut t, time), 7);
    }
    assert_eq!(at(&mut t, 10), 20);
}

#[test]
fn linear_segment_endpoints_and_midpoint() {
    let mut t = Timeline::new(vec![kf(0, 100, Tween::Linear), kf(1000, 300, Tween::Hold)]);
    assert_eq!(at(&mut t, 0), 100);
    assert_eq!(at(&mut t, 500), 200);
    assert_eq!(at(&mut t, 1000), 300);
    assert_eq!(at(&mut t, 250), 150);
}

#[test]
fn linear_segment_decreasing_rounds_towards_start() {
    assert_eq!(lerp_value(10, 0, 0, 3, 1), 7);
    assert_eq!(lerp_value(0, 10, 0, 3, 1), 3);
    assert_eq!(lerp_value(0, 10, 0, 3, 5), 10);
    assert_eq!(lerp_value(0, 10, 0, 3, -5), 0);
}

#[test]
fn sequential_queries_match_fresh_evaluation() {
    let kfs = vec![
        kf(0, 0, Tween::Linear),
        kf(100, 1000, Tween::Hold),
        kf(200, 50, Tween::Linear),
        kf(400, 250, Tween::Linear),
    ];
    let mut walked = Timeline::new(kfs.clone());
    for time in [0i64, 50, 150, 250, 300, 399, 500] {
        let a = at(&mut walked, time);
        let mut fresh = Timeline::new(kfs.clone());
        assert_eq!(a, at(&mut fresh, time));
    }
}

#[test]
fn backward_query_rescans_from_start() {
    let mut t = Timeline::new(vec![kf(0, 0, Tween::Hold), kf(100, 1, Tween::Hold), kf(200, 2, Tween::Hold)]);
    assert_eq!(at(&mut t, 250), 2);
    assert_eq!(at(&mut t, 50), 0);
    assert_eq!(at(&mut t, 150), 1);
}

#[test]
fn empty_timeline_has_no_value() {
    let t = Timeline::empty();
    assert_eq!(t.now_opt(), None);
    assert_eq!(t.now(), 0);
    assert_eq!(Timeline::fixed(9).now_opt(), Some(9));
}
