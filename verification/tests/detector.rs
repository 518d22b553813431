use launch_monitor_research::ball_detector::{BallDetection, BallDetector, DetectionError};
use launch_monitor_research::frame::{crop, invert_image, subtract_background, GrayFrame};

fn blank(width: u32, height: u32) -> GrayFrame {
    GrayFrame::new(width, height)
}

fn with_block(mut f: GrayFrame, x0: u32, y0: u32, size: u32, value: u8) -> GrayFrame {
    for y in y0..y0 + size {
        for x in x0..x0 + size {
            f.pixels[(y * f.width + x) as usize] = value;
        }
    }
    f
}

#[test]
fn from_raw_checks_length() {
    assert!(GrayFrame::from_raw(3, 2, vec![0; 6]).is_some());
    assert!(GrayFrame::from_raw(3, 2, vec![0; 5]).is_none());
    let f = GrayFrame::from_raw(2, 2, vec![1, 2, 3, 4]).unwrap();
    assert_eq!(f.get_pixel(1, 0), 2);
    assert_eq!(f.get_pixel(0, 1), 3);
}

#[test]
fn new_frame_is_black() {
    let f = blank(4, 3);
    assert_eq!(f.pixels.len(), 12);
    assert!(f.pixels.iter().all(|&p| p == 0));
}

#[test]
fn background_subtraction_clamps_at_zero() {
    let frame = GrayFrame::from_raw(3, 1, vec![50, 10, 255]).unwrap();
    let bg = GrayFrame::from_raw(3, 1, vec![20, 20, 0]).unwrap();
    let diff = subtract_background(&frame, &bg);
    assert_eq!(diff.pixels, vec![30, 0, 255]);
    assert_eq!((diff.width, diff.height), (3, 1));
}

#[test]
fn background_larger_than_frame_is_read_at_same_coordinates() {
    let frame = GrayFrame::from_raw(2, 2, vec![10, 20, 30, 40]).unwrap();
    let bg = GrayFrame::from_raw(3, 2, vec![1, 2, 3, 4, 5, 6]).unwrap();
    let diff = subtract_background(&frame, &bg);
    assert_eq!(diff.pixels, vec![9, 18, 26, 35]);
}

#[test]
fn invert_twice_is_identity() {
    let f = GrayFrame::from_raw(2, 2, vec![0, 7, 128, 255]).unwrap();
    let inv = invert_image(&f);
    assert_eq!(inv.pixels, vec![255, 248, 127, 0]);
    assert_eq!(invert_image(&inv).pixels, f.pixels);
}

#[test]
fn detects_bright_block_with_exact_moments() {
    let f = with_block(blank(100, 100), 50, 40, 3, 200);
    let det = BallDetector::new(30, 5);
    let d = det.detect(&f).unwrap();
    assert_eq!(
        d,
        BallDetection { weighted_x: 91800, weighted_y: 73800, total_weight: 1800, x_span: 2, y_span: 2 }
    );
    assert_eq!(d.weighted_x / d.total_weight, 51);
    assert_eq!(d.weighted_y / d.total_weight, 41);
    assert_eq!(d.radius_doubled(), 6);
}

#[test]
fn dim_frame_is_not_found() {
    let f = with_block(blank(100, 100), 50, 40, 3, 20);
    let det = BallDetector::new(30, 5);
    assert_eq!(det.detect(&f), Err(DetectionError::NotFound));
}

#[test]
fn too_few_bright_pixels_is_not_found() {
    let f = with_block(blank(100, 100), 50, 40, 2, 200);
    let det = BallDetector::new(30, 5);
    assert_eq!(det.detect(&f), Err(DetectionError::NotFound));
    let det = BallDetector::new(30, 4);
    assert!(det.detect(&f).is_ok());
}

#[test]
fn pixels_below_a_third_of_the_peak_are_ignored() {
    let mut f = with_block(blank(100, 100), 50, 40, 3, 200);
    // The local threshold is 200 / 3 = 66: a 65 is ignored, a 66 counted.
    f.pixels[(40 * 100 + 60) as usize] = 65;
    let d = BallDetector::new(30, 5).detect(&f).unwrap();
    assert_eq!(d.total_weight, 1800);
    f.pixels[(40 * 100 + 60) as usize] = 66;
    let d = BallDetector::new(30, 5).detect(&f).unwrap();
    assert_eq!(d.total_weight, 1866);
    assert_eq!(d.x_span, 10);
}

#[test]
fn ball_near_edge_is_clipped() {
    let f = with_block(blank(100, 100), 2, 40, 3, 200);
    let det = BallDetector::new(30, 5);
    assert_eq!(det.detect(&f), Err(DetectionError::Clipped));
    let f = with_block(blank(100, 100), 50, 95, 3, 200);
    assert_eq!(det.detect(&f), Err(DetectionError::Clipped));
}

#[test]
fn margin_is_twelve_pixels() {
    // centre x = 13: 13 - 12 >= 0 passes.
    let f = with_block(blank(100, 100), 12, 40, 3, 200);
    assert!(BallDetector::new(30, 5).detect(&f).is_ok());
    // centre x = 11: 11 - 12 < 0 is clipped.
    let f = with_block(blank(100, 100), 10, 40, 3, 200);
    assert_eq!(BallDetector::new(30, 5).detect(&f), Err(DetectionError::Clipped));
    // centre x = 87: 87 + 12 = 99 < 100 passes; centre 88 is clipped.
    let f = with_block(blank(100, 100), 86, 40, 3, 200);
    assert!(BallDetector::new(30, 5).detect(&f).is_ok());
    let f = with_block(blank(100, 100), 87, 40, 3, 200);
    assert_eq!(BallDetector::new(30, 5).detect(&f), Err(DetectionError::Clipped));
}

#[test]
fn first_brightest_pixel_is_the_peak() {
    // Two equal blobs: the one met first in row order wins.
    let f = with_block(with_block(blank(200, 100), 150, 50, 3, 200), 30, 60, 3, 200);
    let d = BallDetector::new(30, 5).detect(&f).unwrap();
    assert_eq!(d.weighted_x / d.total_weight, 151);
    assert_eq!(d.weighted_y / d.total_weight, 51);
}

#[test]
fn window_excludes_far_pixels() {
    // A second bright pixel 40 columns away lies outside the 36-pixel window.
    let mut f = with_block(blank(200, 100), 50, 40, 3, 200);
    f.pixels[(41 * 200 + 91) as usize] = 150;
    let d = BallDetector::new(30, 5).detect(&f).unwrap();
    assert_eq!(d.total_weight, 1800);
}

#[test]
fn background_set_and_used() {
    let bg = with_block(blank(100, 100), 20, 20, 5, 250);
    let frame = with_block(bg.duplicate(), 80, 80, 3, 200);
    let mut det = BallDetector::new(30, 5);
    assert!(!det.has_background());
    assert!(det.get_diff_image(&frame, true).is_none());
    // Without a background the brighter static spot wins.
    let d = det.detect_with_background(&frame, true).unwrap();
    assert_eq!(d.weighted_x / d.total_weight, 22);
    det.set_background(&bg, &bg);
    assert!(det.has_background());
    let d = det.detect_with_background(&frame, true).unwrap();
    assert_eq!(d.weighted_x / d.total_weight, 81);
    let diff = det.get_diff_image(&frame, false).unwrap();
    assert_eq!(diff.get_pixel(22, 22), 0);
    assert_eq!(diff.get_pixel(81, 81), 200);
}

#[test]
fn static_scene_against_its_background_is_not_found() {
    let f = with_block(blank(100, 100), 50, 40, 3, 200);
    let mut det = BallDetector::new(30, 5);
    det.set_background(&f, &f);
    assert_eq!(det.detect_with_background(&f, true), Err(DetectionError::NotFound));
    assert_eq!(det.detect_with_background(&f, false), Err(DetectionError::NotFound));
}

#[test]
fn temporal_minimum_background_removes_moving_ball() {
    let f0 = with_block(blank(100, 100), 20, 50, 3, 200);
    let f1 = with_block(blank(100, 100), 50, 50, 3, 200);
    let f2 = with_block(blank(100, 100), 80, 50, 3, 200);
    let frames = vec![
        (f0.duplicate(), f0.duplicate()),
        (f1.duplicate(), f1.duplicate()),
        (f2.duplicate(), f2.duplicate()),
    ];
    let mut det = BallDetector::new(15, 5);
    det.set_background_from_min(&frames);
    assert!(det.has_background());
    let diff = det.get_diff_image(&f1, true).unwrap();
    assert!(diff.pixels.iter().zip(f1.pixels.iter()).all(|(a, b)| a == b));
    let d = det.detect_with_background(&f1, true).unwrap();
    assert_eq!(d.weighted_x / d.total_weight, 51);
}

#[test]
fn temporal_minimum_takes_darkest_value() {
    let a = GrayFrame::from_raw(2, 1, vec![10, 200]).unwrap();
    let b = GrayFrame::from_raw(2, 1, vec![50, 100]).unwrap();
    let c = GrayFrame::from_raw(2, 1, vec![30, 150]).unwrap();
    let frames = vec![(a.duplicate(), b.duplicate()), (b.duplicate(), c.duplicate()), (c.duplicate(), a.duplicate())];
    let mut det = BallDetector::new(1, 1);
    det.set_background_from_min(&frames);
    let probe = GrayFrame::from_raw(2, 1, vec![255, 255]).unwrap();
    assert_eq!(det.get_diff_image(&probe, true).unwrap().pixels, vec![245, 155]);
    assert_eq!(det.get_diff_image(&probe, false).unwrap().pixels, vec![245, 155]);
}

#[test]
fn empty_sequence_keeps_previous_background() {
    let mut det = BallDetector::new(30, 5);
    det.set_background_from_min(&[]);
    assert!(!det.has_background());
    let bg = blank(4, 4);
    det.set_background(&bg, &bg);
    det.set_background_from_min(&[]);
    assert!(det.has_background());
}

#[test]
fn default_detector_uses_threshold_thirty() {
    let det = BallDetector::default();
    let f = with_block(blank(100, 100), 50, 40, 4, 29);
    assert_eq!(det.detect(&f), Err(DetectionError::NotFound));
    let f = with_block(blank(100, 100), 50, 40, 4, 30);
    assert!(det.detect(&f).is_ok());
}

#[test]
fn zero_threshold_on_black_frame_has_no_centre() {
    // Every pixel counts with weight 0: the detection has zero weight.
    let f = blank(100, 100);
    let d = BallDetector::new(0, 1).detect(&f).unwrap();
    assert_eq!(d.total_weight, 0);
    assert_eq!(d.weighted_x, 0);
}

#[test]
fn crop_copies_the_block() {
    let f = GrayFrame::from_raw(4, 3, (0..12).collect()).unwrap();
    let c = crop(&f, 1, 1, 2, 2);
    assert_eq!((c.width, c.height), (2, 2));
    assert_eq!(c.pixels, vec![5, 6, 9, 10]);
    let whole = crop(&f, 0, 0, 4, 3);
    assert_eq!(whole.pixels, f.pixels);
    let empty = crop(&f, 4, 3, 0, 0);
    assert!(empty.pixels.is_empty());
}
