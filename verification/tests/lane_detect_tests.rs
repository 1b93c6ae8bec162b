use adas_pilot::geometry::Line;
use adas_pilot::lane_detect::{apply_roi, detect_lanes, is_point_in_polygon, isqrt, point_in_roi};

fn line(x1: i64, y1: i64, x2: i64, y2: i64) -> Line {
    Line { x1, y1, x2, y2 }
}

const TRAP: [(u32, u32); 4] = [(0, 100), (100, 100), (60, 60), (40, 60)];

#[test]
fn point_inside_trapezoid_is_accepted() {
    assert!(is_point_in_polygon((50, 80), &TRAP));
    assert!(is_point_in_polygon((50, 100), &TRAP));
    assert!(is_point_in_polygon((0, 100), &TRAP));
    assert!(is_point_in_polygon((50, 60), &TRAP));
}

#[test]
fn point_outside_trapezoid_is_rejected() {
    assert!(!is_point_in_polygon((10, 61), &TRAP));
    assert!(!is_point_in_polygon((50, 50), &TRAP));
    assert!(!is_point_in_polygon((50, 101), &TRAP));
    assert!(!is_point_in_polygon((95, 62), &TRAP));
}

#[test]
fn degenerate_trapezoid_contains_nothing() {
    let flat: [(u32, u32); 4] = [(0, 60), (100, 60), (60, 60), (40, 60)];
    assert!(!is_point_in_polygon((50, 60), &flat));
}

#[test]
fn region_of_interest_is_widest_at_the_bottom() {
    assert!(point_in_roi(500, 800, 1000, 1000));
    assert!(point_in_roi(50, 999, 1000, 1000));
    assert!(!point_in_roi(50, 650, 1000, 1000));
    assert!(!point_in_roi(500, 200, 1000, 1000));
}

#[test]
fn roi_mask_keeps_road_surface_and_zeroes_the_rest() {
    let pixels = vec![7u8; 100];
    let out = apply_roi(&pixels, 10, 10);
    assert_eq!(out.len(), 100);
    // Bottom-center survives; the top band and the bottom-left corner
    // outside the trapezoid are zeroed.
    assert_eq!(out[9 * 10 + 5], 7);
    assert_eq!(out[0], 0);
    assert_eq!(out[9 * 10 + 0], 0);
    assert_eq!(out[3 * 10 + 5], 0);
}

#[test]
fn isqrt_matches_exact_squares_and_rounds_down() {
    assert_eq!(isqrt(0), 0);
    assert_eq!(isqrt(1), 1);
    assert_eq!(isqrt(2), 1);
    assert_eq!(isqrt(49), 7);
    assert_eq!(isqrt(50), 7);
    assert_eq!(isqrt(63), 7);
    assert_eq!(isqrt(64), 8);
    assert_eq!(isqrt(1u64 << 50), 1 << 25);
}

#[test]
fn single_candidates_come_back_left_then_right() {
    let left = line(300, 900, 450, 700);
    let right = line(550, 700, 700, 900);
    let out = detect_lanes(vec![right, left], 1000, 1000);
    assert_eq!(out, vec![left, right]);
}

#[test]
fn segment_outside_roi_is_discarded() {
    let out = detect_lanes(vec![line(10, 650, 100, 850)], 1000, 1000);
    assert_eq!(out.len(), 0);
}

#[test]
fn near_horizontal_and_vertical_segments_are_discarded() {
    let horizontal = line(300, 900, 500, 920);
    let vertical = line(500, 700, 500, 900);
    let out = detect_lanes(vec![horizontal, vertical], 1000, 1000);
    assert_eq!(out.len(), 0);
}

#[test]
fn equal_weight_segments_average_per_coordinate() {
    let a = line(300, 900, 400, 800);
    let b = line(320, 880, 420, 780);
    let out = detect_lanes(vec![a, b], 1000, 1000);
    assert_eq!(out, vec![line(310, 890, 410, 790)]);
}

#[test]
fn no_segments_mean_no_lines() {
    let out = detect_lanes(vec![], 1000, 1000);
    assert_eq!(out.len(), 0);
}
