use adas_pilot::geometry::{BBox, Line};
use adas_pilot::lane_manager::LaneManager;

fn line(x1: i64, y1: i64, x2: i64, y2: i64) -> Line {
    Line { x1, y1, x2, y2 }
}

fn bbox(x: i64, y: i64, w: i64, h: i64) -> BBox {
    BBox { x, y, w, h }
}

#[test]
fn first_frame_adopts_raw_line_and_repeat_is_stable() {
    let mut m = LaneManager::new(500, false);
    let raw = line(100, 720, 400, 360);
    let (left, right) = m.update_lines(vec![raw], 1000);
    assert_eq!(left, Some(raw));
    assert_eq!(right, None);
    let (left2, right2) = m.update_lines(vec![raw], 1000);
    assert_eq!(left2, Some(raw));
    assert_eq!(right2, None);
}

#[test]
fn empty_input_keeps_state_forever() {
    let mut m = LaneManager::new(300, false);
    let raw = line(100, 720, 400, 360);
    let (left, _) = m.update_lines(vec![raw], 1000);
    assert_eq!(left, Some(raw));
    for _ in 0..5 {
        let (l, r) = m.update_lines(vec![], 1000);
        assert_eq!(l, Some(raw));
        assert_eq!(r, None);
    }
}

#[test]
fn fresh_manager_returns_no_lines_on_empty_input() {
    let mut m = LaneManager::new(500, true);
    let (l, r) = m.update_lines(vec![], 1000);
    assert_eq!(l, None);
    assert_eq!(r, None);
}

#[test]
fn lines_partition_by_midpoint() {
    let mut m = LaneManager::new(1000, false);
    let left_raw = line(200, 720, 300, 360);
    let right_raw = line(800, 720, 700, 360);
    let (l, r) = m.update_lines(vec![left_raw, right_raw], 1000);
    assert_eq!(l, Some(left_raw));
    assert_eq!(r, Some(right_raw));
}

#[test]
fn average_lines_takes_per_coordinate_mean() {
    let lines = vec![line(0, 0, 10, 10), line(4, 2, 6, 8)];
    assert_eq!(
        LaneManager::average_lines(&lines),
        Some(line(2, 1, 8, 9))
    );
    assert_eq!(LaneManager::average_lines(&vec![]), None);
}

#[test]
fn smoothing_blends_halfway_at_five_hundred() {
    let mut m = LaneManager::new(500, false);
    let first = line(0, 0, 0, 0);
    m.update_lines(vec![first], 1000);
    let second = line(10, 10, 10, 10);
    let (l, _) = m.update_lines(vec![second], 1000);
    assert_eq!(l, Some(line(5, 5, 5, 5)));
}

#[test]
fn alpha_one_thousand_adopts_raw_line_outright() {
    let mut m = LaneManager::new(1000, false);
    m.update_lines(vec![line(0, 0, 0, 0)], 1000);
    let (l, _) = m.update_lines(vec![line(10, 20, 30, 40)], 1000);
    assert_eq!(l, Some(line(10, 20, 30, 40)));
}

#[test]
fn alpha_zero_never_moves() {
    let mut m = LaneManager::new(0, false);
    m.update_lines(vec![line(1, 2, 3, 4)], 1000);
    let (l, _) = m.update_lines(vec![line(100, 200, 300, 400)], 1000);
    assert_eq!(l, Some(line(1, 2, 3, 4)));
}

#[test]
fn repeated_updates_approach_the_raw_line_monotonically() {
    let mut m = LaneManager::new(300, false);
    let start = line(0, 720, 0, 360);
    let raw = line(1000, 720, 500, 360);
    m.update_lines(vec![start], 4000);
    let mut dist_x1 = (start.x1 - raw.x1).abs();
    let mut dist_x2 = (start.x2 - raw.x2).abs();
    for _ in 0..20 {
        let (l, _) = m.update_lines(vec![raw], 4000);
        let cur = l.unwrap();
        let dx1 = (cur.x1 - raw.x1).abs();
        let dx2 = (cur.x2 - raw.x2).abs();
        assert!(dx1 <= dist_x1);
        assert!(dx2 <= dist_x2);
        assert!(cur.y1 == 720 && cur.y2 == 360);
        dist_x1 = dx1;
        dist_x2 = dx2;
    }
    assert!(dist_x1 < (start.x1 - raw.x1).abs());
}

#[test]
fn several_lines_on_one_side_are_averaged_before_blending() {
    let mut m = LaneManager::new(500, false);
    m.update_lines(vec![line(0, 0, 0, 0)], 1000);
    let (l, _) = m.update_lines(
        vec![line(10, 10, 10, 10), line(20, 20, 20, 20)],
        1000,
    );
    assert_eq!(l, Some(line(7, 7, 7, 7)));
}

#[test]
fn get_x_on_line_interpolates_and_falls_back_when_horizontal() {
    assert_eq!(LaneManager::get_x_on_line(line(0, 0, 10, 10), 5), 5);
    assert_eq!(LaneManager::get_x_on_line(line(200, 720, 300, 360), 600), 233);
    assert_eq!(LaneManager::get_x_on_line(line(42, 7, 99, 7), 123), 42);
}

#[test]
fn unknown_lane_passes_all_detections_unmarked() {
    let m = LaneManager::new(500, false);
    let dets = vec![bbox(0, 0, 10, 10), bbox(500, 500, 50, 50)];
    let out = m.filter_objects(dets.clone());
    assert_eq!(out.len(), 2);
    for (o, d) in out.iter().zip(dets.iter()) {
        assert_eq!(o.bbox, *d);
        assert!(!o.is_in_ego_lane);
    }
}

#[test]
fn detection_between_boundaries_is_in_ego_lane() {
    let mut m = LaneManager::new(500, false);
    m.update_lines(
        vec![line(200, 720, 300, 360), line(800, 720, 700, 360)],
        1000,
    );
    let out = m.filter_objects(vec![bbox(450, 500, 100, 100)]);
    assert_eq!(out.len(), 1);
    assert!(out[0].is_in_ego_lane);
}

#[test]
fn two_way_road_drops_far_left_detection() {
    let mut m = LaneManager::new(500, true);
    m.update_lines(
        vec![line(200, 720, 300, 360), line(800, 720, 700, 360)],
        1000,
    );
    let out = m.filter_objects(vec![bbox(0, 500, 20, 50), bbox(450, 500, 100, 100)]);
    assert_eq!(out.len(), 1);
    assert_eq!(out[0].bbox, bbox(450, 500, 100, 100));
    assert!(out[0].is_in_ego_lane);
}

#[test]
fn highway_keeps_far_left_detection_outside_ego_lane() {
    let mut m = LaneManager::new(500, false);
    m.update_lines(
        vec![line(200, 720, 300, 360), line(800, 720, 700, 360)],
        1000,
    );
    let out = m.filter_objects(vec![bbox(0, 500, 20, 50)]);
    assert_eq!(out.len(), 1);
    assert!(!out[0].is_in_ego_lane);
}
