use adas_pilot::traffic_light::{detect_traffic_light, Frame, LightStatus};

/// A 30-row, 100-column frame: the scanned top third is 10 rows of 100
/// pixels, so the majority threshold is 10 pixels.
fn frame_with(pixels: &[(usize, usize, u8, u8, u8)]) -> Frame {
    let height: usize = 30;
    let width: usize = 100;
    let mut data = vec![0u8; height * width * 3];
    for &(y, x, r, g, b) in pixels {
        let base = (y * width + x) * 3;
        data[base] = r;
        data[base + 1] = g;
        data[base + 2] = b;
    }
    Frame::new(height, width, data).unwrap()
}

fn paint(n: usize, row: usize, r: u8, g: u8, b: u8) -> Vec<(usize, usize, u8, u8, u8)> {
    (0..n).map(|i| (row + i / 100, i % 100, r, g, b)).collect()
}

#[test]
fn malformed_buffer_is_rejected() {
    assert!(Frame::new(30, 100, vec![0u8; 30 * 100 * 3 - 1]).is_none());
    assert!(Frame::new(30, 100, vec![0u8; 30 * 100 * 3]).is_some());
    assert!(Frame::new(100_000, 100, vec![0u8; 3]).is_none());
}

#[test]
fn dark_frame_shows_no_light() {
    let f = frame_with(&[]);
    assert!(matches!(detect_traffic_light(&f), LightStatus::NoLight));
}

#[test]
fn enough_red_pixels_win() {
    let f = frame_with(&paint(11, 0, 255, 0, 0));
    assert!(matches!(detect_traffic_light(&f), LightStatus::Red));
}

#[test]
fn red_at_the_threshold_is_not_enough() {
    let f = frame_with(&paint(10, 0, 255, 0, 0));
    assert!(matches!(detect_traffic_light(&f), LightStatus::NoLight));
}

#[test]
fn yellow_hue_band_is_recognized() {
    let f = frame_with(&paint(11, 0, 255, 120, 0));
    assert!(matches!(detect_traffic_light(&f), LightStatus::Yellow));
}

#[test]
fn green_hue_band_is_recognized() {
    let f = frame_with(&paint(11, 0, 128, 255, 0));
    assert!(matches!(detect_traffic_light(&f), LightStatus::Green));
}

#[test]
fn tied_colors_cancel_out() {
    let mut px = paint(11, 0, 255, 0, 0);
    px.extend(paint(11, 5, 255, 120, 0));
    let f = frame_with(&px);
    assert!(matches!(detect_traffic_light(&f), LightStatus::NoLight));
}

#[test]
fn majority_color_beats_a_smaller_one() {
    let mut px = paint(12, 0, 255, 0, 0);
    px.extend(paint(11, 5, 255, 120, 0));
    let f = frame_with(&px);
    assert!(matches!(detect_traffic_light(&f), LightStatus::Red));
}

#[test]
fn pixels_below_the_top_third_are_ignored() {
    let f = frame_with(&paint(50, 20, 255, 0, 0));
    assert!(matches!(detect_traffic_light(&f), LightStatus::NoLight));
}

#[test]
fn dim_pixels_count_for_no_color() {
    // Bright enough in no channel: skipped before hue bucketing.
    let f = frame_with(&paint(50, 0, 149, 0, 0));
    assert!(matches!(detect_traffic_light(&f), LightStatus::NoLight));
}

#[test]
fn washed_out_pixels_count_for_no_color() {
    // Bright but with chroma under 20: skipped.
    let f = frame_with(&paint(50, 0, 200, 195, 190));
    assert!(matches!(detect_traffic_light(&f), LightStatus::NoLight));
}
