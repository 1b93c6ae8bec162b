use adas_pilot::geometry::BBox;
use adas_pilot::object_proc::ObjectTracker;

fn bbox(x: i64, y: i64, w: i64, h: i64) -> BBox {
    BBox { x, y, w, h }
}

#[test]
fn first_detection_spawns_track_zero_with_pinhole_distance() {
    let mut t = ObjectTracker::new();
    let out = t.process_frame(vec![bbox(0, 0, 100, 100)], 1000);
    assert_eq!(out.len(), 1);
    assert_eq!(out[0].id, 0);
    assert_eq!(out[0].distance_mm, 12_600);
    assert_eq!(out[0].speed_mm_s, 0);
    assert_eq!(out[0].collision_time_ms, 99_000);
    assert_eq!(out[0].lost_frames, 0);
}

#[test]
fn nearby_detection_keeps_id_and_reports_sentinel_when_not_closing() {
    let mut t = ObjectTracker::new();
    t.process_frame(vec![bbox(0, 0, 100, 100)], 1000);
    let out = t.process_frame(vec![bbox(5, 5, 100, 100)], 1000);
    assert_eq!(out.len(), 1);
    assert_eq!(out[0].id, 0);
    assert_eq!(out[0].speed_mm_s, 0);
    assert_eq!(out[0].collision_time_ms, 99_000);
}

#[test]
fn far_detection_never_matches_and_unmatched_track_is_dropped() {
    let mut t = ObjectTracker::new();
    t.process_frame(vec![bbox(0, 0, 100, 100)], 1000);
    let out = t.process_frame(vec![bbox(1000, 1000, 100, 100)], 1000);
    assert_eq!(out.len(), 1);
    assert_eq!(out[0].id, 1);
    assert_eq!(out[0].speed_mm_s, 0);
    assert_eq!(out[0].collision_time_ms, 99_000);
    // The old track is gone: the same near-origin box starts over.
    let out2 = t.process_frame(vec![bbox(0, 0, 100, 100)], 1000);
    assert_eq!(out2.len(), 1);
    assert_eq!(out2[0].id, 2);
}

#[test]
fn closing_track_reports_speed_and_collision_time() {
    let mut t = ObjectTracker::new();
    t.process_frame(vec![bbox(0, 0, 100, 100)], 1000);
    let out = t.process_frame(vec![bbox(0, 0, 200, 100)], 1000);
    assert_eq!(out.len(), 1);
    assert_eq!(out[0].id, 0);
    assert_eq!(out[0].distance_mm, 6_300);
    assert_eq!(out[0].speed_mm_s, 6_300);
    assert_eq!(out[0].collision_time_ms, 1_000);
}

#[test]
fn receding_track_reports_sentinel_not_negative_time() {
    let mut t = ObjectTracker::new();
    t.process_frame(vec![bbox(0, 0, 100, 100)], 1000);
    let out = t.process_frame(vec![bbox(0, 0, 50, 100)], 1000);
    assert_eq!(out.len(), 1);
    assert_eq!(out[0].id, 0);
    assert_eq!(out[0].distance_mm, 25_200);
    assert!(out[0].speed_mm_s < 0);
    assert_eq!(out[0].collision_time_ms, 99_000);
}

#[test]
fn degenerate_width_uses_far_distance_fallback() {
    let mut t = ObjectTracker::new();
    let out = t.process_frame(vec![bbox(0, 0, 1, 50)], 1000);
    assert_eq!(out[0].distance_mm, 100_000);
    assert_eq!(ObjectTracker::calc_distance(1), 100_000);
    assert_eq!(ObjectTracker::calc_distance(0), 100_000);
    assert_eq!(ObjectTracker::calc_distance(100), 12_600);
}

#[test]
fn each_track_matched_at_most_once_per_frame() {
    let mut t = ObjectTracker::new();
    t.process_frame(vec![bbox(0, 0, 100, 100)], 1000);
    let out = t.process_frame(
        vec![bbox(10, 10, 100, 100), bbox(5, 5, 100, 100)],
        1000,
    );
    assert_eq!(out.len(), 2);
    assert_eq!(out[0].id, 0);
    assert_eq!(out[1].id, 1);
}

#[test]
fn detection_matches_nearest_track() {
    let mut t = ObjectTracker::new();
    t.process_frame(vec![bbox(0, 0, 100, 100), bbox(30, 0, 100, 100)], 1000);
    let out = t.process_frame(vec![bbox(30, 0, 100, 100)], 1000);
    assert_eq!(out.len(), 1);
    assert_eq!(out[0].id, 1);
}

#[test]
fn equidistant_tracks_give_the_earlier_one_the_match() {
    let mut t = ObjectTracker::new();
    t.process_frame(vec![bbox(0, 0, 100, 100), bbox(60, 0, 100, 100)], 1000);
    let out = t.process_frame(vec![bbox(30, 0, 100, 100)], 1000);
    assert_eq!(out.len(), 1);
    assert_eq!(out[0].id, 0);
}

#[test]
fn ids_stay_unique_and_never_restart_across_frames() {
    let mut t = ObjectTracker::new();
    let mut seen: Vec<usize> = Vec::new();
    for k in 0..5 {
        // Each frame: one detection far from everything seen before.
        let out = t.process_frame(vec![bbox(10_000 * k, 0, 100, 100)], 1000);
        assert_eq!(out.len(), 1);
        let id = out[0].id;
        assert!(!seen.contains(&id));
        for s in &seen {
            assert!(id > *s);
        }
        seen.push(id);
    }
}

#[test]
fn empty_frame_clears_the_table() {
    let mut t = ObjectTracker::new();
    t.process_frame(vec![bbox(0, 0, 100, 100)], 1000);
    let out = t.process_frame(vec![], 1000);
    assert_eq!(out.len(), 0);
    // The old track was dropped, so the next detection gets a new id.
    let out2 = t.process_frame(vec![bbox(0, 0, 100, 100)], 1000);
    assert_eq!(out2[0].id, 1);
}
