use launch_monitor_research::ball_detector::BallDetection;
use launch_monitor_research::pipeline::{
    filter_flight_detections, filter_radius_outliers, filter_static_start, pair_detections,
    select_launch_pairs, DetectionPair, FrameDetection, LaunchInputError,
};

fn ball(cx: u64, cy: u64, span: u32) -> BallDetection {
    BallDetection { weighted_x: cx * 100, weighted_y: cy * 100, total_weight: 100, x_span: span, y_span: span }
}

fn pair(frame: u32, cx: u64, span: u32) -> DetectionPair<f64> {
    DetectionPair { frame_index: frame, timestamp: frame as f64 / 240.0, left: ball(cx, 50, span), right: ball(cx, 60, span) }
}

fn seen(frame: u32, cx: u64) -> FrameDetection<f64> {
    FrameDetection { frame_index: frame, timestamp: frame as f64 / 240.0, detection: ball(cx, 50, 10) }
}

fn frames_of(v: &[DetectionPair<f64>]) -> Vec<u32> {
    v.iter().map(|p| p.frame_index).collect()
}

#[test]
fn pairs_join_frames_seen_by_both_cameras() {
    let cam0 = vec![seen(1, 10), seen(2, 20), seen(3, 30), seen(5, 50)];
    let cam1 = vec![seen(2, 21), seen(3, 31), seen(3, 99), seen(4, 41), seen(5, 51)];
    let pairs = pair_detections(&cam0, &cam1);
    assert_eq!(frames_of(&pairs), vec![2, 3, 5]);
    assert_eq!(pairs[0].left.weighted_x, 2000);
    assert_eq!(pairs[0].right.weighted_x, 2100);
    // The first right-camera detection of a frame is the one used.
    assert_eq!(pairs[1].right.weighted_x, 3100);
    assert_eq!(pairs[2].timestamp, 5.0 / 240.0);
}

#[test]
fn flight_is_longest_run_without_gaps() {
    let v = vec![pair(0, 1, 10), pair(1, 2, 10), pair(10, 3, 10), pair(11, 4, 10), pair(13, 5, 10), pair(16, 6, 10), pair(30, 7, 10)];
    let kept = filter_flight_detections(v);
    assert_eq!(frames_of(&kept), vec![10, 11, 13, 16]);
}

#[test]
fn flight_prefers_earliest_of_equal_runs() {
    let v = vec![pair(0, 1, 10), pair(1, 2, 10), pair(20, 3, 10), pair(21, 4, 10)];
    assert_eq!(frames_of(&filter_flight_detections(v)), vec![0, 1]);
}

#[test]
fn flight_gap_of_four_breaks_the_run() {
    let v = vec![pair(0, 1, 10), pair(4, 2, 10), pair(5, 3, 10)];
    assert_eq!(frames_of(&filter_flight_detections(v)), vec![4, 5]);
    let v = vec![pair(0, 1, 10), pair(3, 2, 10), pair(9, 3, 10)];
    assert_eq!(frames_of(&filter_flight_detections(v)), vec![0, 3]);
}

#[test]
fn flight_keeps_single_pair_and_empty() {
    assert_eq!(frames_of(&filter_flight_detections(vec![pair(7, 1, 10)])), vec![7]);
    assert!(filter_flight_detections(Vec::<DetectionPair<f64>>::new()).is_empty());
}

#[test]
fn flight_filter_is_idempotent() {
    let v = vec![pair(0, 1, 10), pair(8, 2, 10), pair(9, 3, 10), pair(10, 4, 10)];
    let once = filter_flight_detections(v);
    let twice = filter_flight_detections(once.clone());
    assert_eq!(frames_of(&once), frames_of(&twice));
}

#[test]
fn static_start_is_dropped() {
    let v = vec![pair(0, 100, 10), pair(1, 101, 10), pair(2, 103, 10), pair(3, 104, 10), pair(4, 110, 10)];
    // Moves of 1 and 3 pixels are not more than 3; 4 is.
    assert_eq!(frames_of(&filter_static_start(v)), vec![3, 4]);
}

#[test]
fn static_start_keeps_short_or_never_moving_sequences() {
    let v = vec![pair(0, 100, 10), pair(1, 100, 10)];
    assert_eq!(frames_of(&filter_static_start(v)), vec![0, 1]);
    let v = vec![pair(0, 100, 10), pair(1, 101, 10), pair(2, 102, 10)];
    assert_eq!(frames_of(&filter_static_start(v)), vec![0, 1, 2]);
    let v = vec![pair(0, 100, 10), pair(1, 150, 10), pair(2, 200, 10)];
    assert_eq!(frames_of(&filter_static_start(v)), vec![1, 2]);
}

#[test]
fn static_start_uses_exact_centres() {
    // Centre 10/3 against 1/3: a move of exactly 3 pixels does not count.
    let first = BallDetection { weighted_x: 1, weighted_y: 0, total_weight: 3, x_span: 1, y_span: 1 };
    let exact = BallDetection { weighted_x: 10, weighted_y: 0, total_weight: 3, x_span: 1, y_span: 1 };
    let beyond = BallDetection { weighted_x: 11, weighted_y: 0, total_weight: 3, x_span: 1, y_span: 1 };
    let mk = |f: u32, d: BallDetection| DetectionPair { frame_index: f, timestamp: 0.0, left: d, right: d };
    let v = vec![mk(0, first), mk(1, exact), mk(2, beyond), mk(3, beyond)];
    assert_eq!(frames_of(&filter_static_start(v)), vec![2, 3]);
}

#[test]
fn oversized_balls_are_dropped() {
    // Diameters (span + 4): 14 everywhere but one pair with span 40 (diameter 44).
    let v = vec![pair(0, 1, 10), pair(1, 2, 10), pair(2, 3, 40), pair(3, 4, 10)];
    assert_eq!(frames_of(&filter_radius_outliers(v)), vec![0, 1, 3]);
}

#[test]
fn radius_limit_is_two_and_a_half_medians() {
    // Median diameter 14: 2 * 35 = 70 = 5 * 14 is kept, 36 is dropped.
    let v = vec![pair(0, 1, 10), pair(1, 2, 10), pair(2, 3, 31), pair(3, 4, 10)];
    assert_eq!(frames_of(&filter_radius_outliers(v)), vec![0, 1, 2, 3]);
    let v = vec![pair(0, 1, 10), pair(1, 2, 10), pair(2, 3, 32), pair(3, 4, 10)];
    assert_eq!(frames_of(&filter_radius_outliers(v)), vec![0, 1, 3]);
}

#[test]
fn radius_filter_needs_three_pairs() {
    let v = vec![pair(0, 1, 10), pair(1, 2, 200)];
    assert_eq!(frames_of(&filter_radius_outliers(v)), vec![0, 1]);
}

#[test]
fn median_is_upper_middle() {
    // Diameters 4, 4 | 6, 6 | 104, 104: six values, index 3 of the sorted list is 6.
    let v = vec![pair(0, 1, 0), pair(1, 2, 2), pair(2, 3, 100)];
    // 2 * 104 > 5 * 6 drops the last pair; 2 * 6 <= 30 keeps the others.
    assert_eq!(frames_of(&filter_radius_outliers(v)), vec![0, 1]);
}

#[test]
fn selection_reports_missing_detections() {
    let cam0 = vec![seen(1, 10)];
    let cam1 = vec![seen(1, 10), seen(2, 20)];
    assert_eq!(select_launch_pairs(&cam0, &cam1).err(), Some(LaunchInputError::NotEnoughDetections));
    assert_eq!(select_launch_pairs(&cam1, &cam0).err(), Some(LaunchInputError::NotEnoughDetections));
}

#[test]
fn selection_reports_too_few_matches() {
    let cam0 = vec![seen(1, 10), seen(2, 20)];
    let cam1 = vec![seen(2, 20), seen(3, 30)];
    assert_eq!(select_launch_pairs(&cam0, &cam1).err(), Some(LaunchInputError::NotEnoughMatched));
}

#[test]
fn selection_runs_all_filters() {
    let cam0 = vec![seen(0, 100), seen(1, 100), seen(2, 150), seen(3, 200), seen(4, 250), seen(20, 300)];
    let cam1 = cam0.clone();
    let r = select_launch_pairs(&cam0, &cam1).ok().unwrap();
    assert_eq!(frames_of(&r), vec![2, 3, 4]);
}

#[test]
fn exact_move_of_three_keeps_all_pairs() {
    // 25/3 - 16/3 is exactly 3, which floating-point division rounds above 3.
    let mk = |f: u32, wx: u64| {
        let d = BallDetection { weighted_x: wx, weighted_y: 0, total_weight: 3, x_span: 1, y_span: 1 };
        DetectionPair { frame_index: f, timestamp: 0.0, left: d, right: d }
    };
    let v = vec![mk(0, 16), mk(1, 25), mk(2, 25)];
    assert_eq!(frames_of(&filter_static_start(v)), vec![0, 1, 2]);
}

#[test]
fn launch_input_error_messages() {
    assert_eq!(LaunchInputError::NotEnoughDetections.message(), "Not enough ball detections");
    assert_eq!(
        LaunchInputError::NotEnoughMatched.message(),
        "Not enough matched detections for triangulation"
    );
}
