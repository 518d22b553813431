use image::GrayImage;
use launch_monitor_research::calibration::{
    choose_board_corners, collect_board_candidates, contrast_range, merge_corners,
    try_visualize_corners, visualize_corners, BoardCorners, CornerCluster, MIN_BOARD_CORNERS,
};
use launch_monitor_research::frame::GrayFrame;

fn checkerboard(width: u32, height: u32, square: u32) -> GrayFrame {
    let mut pixels = Vec::new();
    for y in 0..height {
        for x in 0..width {
            let on = ((x / square) + (y / square)) % 2 == 0;
            pixels.push(if on { 230 } else { 20 });
        }
    }
    GrayFrame::from_raw(width, height, pixels).unwrap()
}

fn fast(img: &GrayImage, t: u8) -> Vec<(u32, u32)> {
    imageproc::corners::corners_fast9(img, t).iter().map(|c| (c.x, c.y)).collect()
}

fn invert(img: &GrayImage) -> GrayImage {
    let mut out = img.clone();
    for p in out.pixels_mut() {
        p.0[0] = 255 - p.0[0];
    }
    out
}

#[test]
fn candidates_match_fast_on_image_negative_and_upsampled_copy() {
    let f = checkerboard(64, 48, 8);
    let img = GrayImage::from_raw(64, 48, f.pixels.clone()).unwrap();
    let mut expected = Vec::new();
    let inv = invert(&img);
    for t in [5u8, 10, 20, 30] {
        expected.extend(fast(&img, t));
        expected.extend(fast(&inv, t));
    }
    let up = image::imageops::resize(&img, 128, 96, image::imageops::FilterType::Triangle);
    let up_inv = invert(&up);
    for t in [5u8, 10, 20, 30] {
        expected.extend(fast(&up, t).into_iter().map(|(x, y)| (x / 2, y / 2)));
        expected.extend(fast(&up_inv, t).into_iter().map(|(x, y)| (x / 2, y / 2)));
    }
    let got = collect_board_candidates(&f);
    assert!(!got.is_empty());
    assert_eq!(got, expected);
}

#[test]
fn blank_image_has_no_candidates() {
    let f = GrayFrame::new(40, 30);
    assert!(collect_board_candidates(&f).is_empty());
}

#[test]
fn corners_are_marked_white() {
    let mut pixels = Vec::new();
    for y in 0..48u32 {
        for x in 0..64u32 {
            let inside = (20..44).contains(&x) && (14..34).contains(&y);
            pixels.push(if inside { 200 } else { 10 });
        }
    }
    let f = GrayFrame::from_raw(64, 48, pixels).unwrap();
    let img = GrayImage::from_raw(64, 48, f.pixels.clone()).unwrap();
    assert!(!fast(&img, 30).is_empty());
    let marked = visualize_corners(&f);
    assert_eq!((marked.width, marked.height), (64, 48));
    assert_ne!(marked.pixels, f.pixels);
    let changed: Vec<usize> = (0..f.pixels.len()).filter(|&i| marked.pixels[i] != f.pixels[i]).collect();
    assert!(changed.iter().all(|&i| marked.pixels[i] == 255));
    let mut expected = f.pixels.clone();
    for (x, y) in fast(&img, 30) {
        for (dx, dy) in [(0i64, -1i64), (-1, 0), (0, 0), (1, 0), (0, 1)] {
            let (px, py) = (x as i64 + dx, y as i64 + dy);
            if (0..64).contains(&px) && (0..48).contains(&py) {
                expected[(py * 64 + px) as usize] = 255;
            }
        }
    }
    assert_eq!(marked.pixels, expected);
}

fn cluster(sum_x: u64, sum_y: u64, count: u64, cell_x: i32, cell_y: i32) -> CornerCluster {
    CornerCluster { sum_x, sum_y, count, cell_x, cell_y }
}

#[test]
fn contrast_range_is_darkest_and_brightest() {
    let f = GrayFrame::from_raw(3, 1, vec![10, 200, 50]).unwrap();
    assert_eq!(contrast_range(&f), Some((10, 200)));
}

#[test]
fn flat_image_is_not_stretched() {
    let f = GrayFrame::from_raw(2, 1, vec![100, 105]).unwrap();
    assert_eq!(contrast_range(&f), None);
    let g = GrayFrame::from_raw(2, 1, vec![100, 106]).unwrap();
    assert_eq!(contrast_range(&g), Some((100, 106)));
}

#[test]
fn nearby_candidates_merge_into_one_cluster() {
    let points = vec![(10, 10), (11, 10), (30, 30), (12, 11)];
    let merged = merge_corners(&points, 3);
    assert_eq!(merged, vec![cluster(33, 31, 3, 3, 3), cluster(30, 30, 1, 10, 10)]);
    let total: u64 = merged.iter().map(|c| c.count).sum();
    assert_eq!(total, points.len() as u64);
}

#[test]
fn zero_radius_merges_only_equal_candidates() {
    let merged = merge_corners(&vec![(5, 5), (5, 5), (6, 5)], 0);
    assert_eq!(merged, vec![cluster(10, 10, 2, 5, 5), cluster(6, 5, 1, 6, 5)]);
}

#[test]
fn no_candidates_no_clusters() {
    assert!(merge_corners(&Vec::new(), 3).is_empty());
}

#[test]
fn candidate_beyond_radius_founds_new_cluster() {
    // (14, 10) is 3.5 pixels from the centre (10.5, 10) of the first cluster.
    let merged = merge_corners(&vec![(10, 10), (11, 10), (14, 10)], 3);
    assert_eq!(merged, vec![cluster(21, 20, 2, 3, 3), cluster(14, 10, 1, 4, 3)]);
}

#[test]
fn coordinates_past_i32_take_wrapped_cells() {
    // 0x8000_0005 reads as -2147483643 in i32; divided by 3 toward zero.
    let x = 0x8000_0005u32;
    let merged = merge_corners(&vec![(x, 0), (x, 1)], 3);
    assert_eq!(merged, vec![cluster(2 * x as u64, 1, 2, -715_827_881, 0)]);
}

#[test]
fn radius_past_i32_gives_negative_cells() {
    // A radius of u32::MAX reads as a cell side of -1.
    let merged = merge_corners(&vec![(1, 1), (2, 2)], u32::MAX);
    assert_eq!(merged, vec![cluster(3, 3, 2, -1, -1)]);
}

#[test]
fn checked_marking_agrees_on_ordinary_images() {
    let f = checkerboard(64, 48, 8);
    let marked = try_visualize_corners(&f).unwrap();
    assert_eq!(marked.pixels, visualize_corners(&f).pixels);
}

#[test]
fn board_corner_choice() {
    assert_eq!(MIN_BOARD_CORNERS, 46);
    assert_eq!(choose_board_corners(46, 0), BoardCorners::Scored);
    assert_eq!(choose_board_corners(45, 46), BoardCorners::Merged);
    assert_eq!(choose_board_corners(45, 45), BoardCorners::TooFew);
    assert_eq!(choose_board_corners(0, 100), BoardCorners::Merged);
}

#[test]
fn merge_compares_distances_exactly() {
    // The cluster's centre ends up exactly 3 from (14, 10); a floating-point
    // mean rounds that distance up and would found a second cluster.
    let points = vec![(12, 8), (11, 8), (12, 9), (11, 8), (12, 8), (14, 10)];
    let merged = merge_corners(&points, 3);
    assert_eq!(merged.len(), 1);
    assert_eq!(merged[0].count, 6);
}
