use launch_monitor_research::spin::{cluster_points, PointCluster};

fn cluster(sum_x: u64, sum_y: u64, count: u64) -> PointCluster {
    PointCluster { sum_x, sum_y, count }
}

#[test]
fn close_pixels_form_one_feature() {
    let r = cluster_points(&vec![(0, 0), (1, 0), (5, 5)], 2);
    assert_eq!(r, vec![cluster(1, 0, 2), cluster(5, 5, 1)]);
}

#[test]
fn distance_is_measured_to_the_first_pixel() {
    // (4, 0) is 2 from (2, 0) but 4 from the cluster's first pixel (0, 0).
    let r = cluster_points(&vec![(0, 0), (2, 0), (4, 0)], 5);
    assert_eq!(r, vec![cluster(2, 0, 2), cluster(4, 0, 1)]);
}

#[test]
fn taken_pixels_lead_no_cluster() {
    let r = cluster_points(&vec![(0, 0), (10, 0), (1, 0), (11, 0)], 4);
    assert_eq!(r, vec![cluster(1, 0, 2), cluster(21, 0, 2)]);
}

#[test]
fn zero_limit_keeps_every_pixel_apart() {
    let r = cluster_points(&vec![(3, 3), (3, 3)], 0);
    assert_eq!(r, vec![cluster(3, 3, 1), cluster(3, 3, 1)]);
}

#[test]
fn limit_is_strict() {
    assert_eq!(cluster_points(&vec![(0, 0), (3, 0)], 9), vec![cluster(0, 0, 1), cluster(3, 0, 1)]);
    assert_eq!(cluster_points(&vec![(0, 0), (3, 0)], 10), vec![cluster(3, 0, 2)]);
}

#[test]
fn no_pixels_no_features() {
    assert!(cluster_points(&Vec::new(), 9).is_empty());
}

#[test]
fn every_pixel_counted_once() {
    let pts: Vec<(u32, u32)> = (0..40u32).map(|i| ((i * 7) % 13, (i * 5) % 11)).collect();
    let r = cluster_points(&pts, 6);
    let total: u64 = r.iter().map(|c| c.count).sum();
    assert_eq!(total, pts.len() as u64);
    let sx: u64 = r.iter().map(|c| c.sum_x).sum();
    assert_eq!(sx, pts.iter().map(|p| p.0 as u64).sum::<u64>());
}
