//! Stateless traffic-light color classification over the upper third of
//! a frame.
//!
//! Each bright-enough pixel is bucketed by exact hue comparisons (the
//! standard RGB-to-hue formula, cross-multiplied so no division is ever
//! rounded) into red, yellow, or green; a color wins when its pixel
//! count exceeds a fixed fraction of the scanned area and the counts of
//! the other two colors.
use vstd::prelude::*;

verus! {

/// The discrete signal state of a frame.
#[derive(Clone, Copy, PartialEq, Eq, Structural, Debug)]
pub enum LightStatus {
    Green,
    Yellow,
    Red,
    NoLight,
}

/// A frame: row-major pixels, three 8-bit channels per pixel in the
/// order red, green, blue.
pub struct Frame {
    pub data: Vec<u8>,
    pub height: usize,
    pub width: usize,
}

impl Frame {
    pub open spec fn wf(self) -> bool {
        &&& self.data@.len() == self.height * self.width * 3
        &&& self.height <= 0x10000
        &&& self.width <= 0x10000
    }

    /// Channel `c` of the pixel at row `y`, column `x`.
    pub open spec fn at(self, y: int, x: int, c: int) -> u8 {
        self.data@[(y * self.width + x) * 3 + c]
    }

    /// Validates a frame's shape: the buffer must hold exactly
    /// `height * width * 3` bytes, and the dimensions must be within the
    /// supported range.  A malformed shape is rejected before any
    /// processing.
    pub fn new(height: usize, width: usize, data: Vec<u8>) -> (r: Option<Frame>)
        ensures
            (height <= 0x10000 && width <= 0x10000 && data@.len() == height * width * 3) <==> (
            r matches Option::Some(f) && f.height == height && f.width == width && f.data@ == data@
                && f.wf()),
    {
        if height > 0x10000 || width > 0x10000 {
            return Option::None;
        }
        proof {
            assert(height * width * 3 <= 0x10000 * 0x10000 * 3) by (nonlinear_arith)
                requires
                    0 <= height <= 0x10000,
                    0 <= width <= 0x10000,
            ;
        }
        let expected: u64 = (height as u64) * (width as u64) * 3;
        if data.len() as u64 == expected {
            Option::Some(Frame { data, height, width })
        } else {
            Option::None
        }
    }
}

/// Hue bucket of one pixel.  Dark pixels (all channels under 150) and
/// washed-out pixels (chroma under 20) count for no color.  Otherwise
/// the standard hue formula is evaluated as the exact rational
/// `num / delta` in degrees and bucketed: red at 15 degrees or below or
/// 345 and above, yellow in (15, 35], green in (40, 90].
pub open spec fn pixel_class(r: u8, g: u8, b: u8) -> LightStatus {
    if r < 150 && g < 150 && b < 150 {
        LightStatus::NoLight
    } else {
        let ri = r as int;
        let gi = g as int;
        let bi = b as int;
        let mx = if ri >= gi && ri >= bi {
            ri
        } else if gi >= bi {
            gi
        } else {
            bi
        };
        let mn = if ri <= gi && ri <= bi {
            ri
        } else if gi <= bi {
            gi
        } else {
            bi
        };
        let delta = mx - mn;
        if mx == 0 || delta < 20 {
            LightStatus::NoLight
        } else {
            let num = if mx == ri {
                let n0 = 60 * (gi - bi);
                if n0 < 0 {
                    n0 + 360 * delta
                } else {
                    n0
                }
            } else if mx == gi {
                120 * delta + 60 * (bi - ri)
            } else {
                240 * delta + 60 * (ri - gi)
            };
            if num <= 15 * delta || num >= 345 * delta {
                LightStatus::Red
            } else if num <= 35 * delta {
                LightStatus::Yellow
            } else if 40 * delta < num && num <= 90 * delta {
                LightStatus::Green
            } else {
                LightStatus::NoLight
            }
        }
    }
}

/// How many of the first `x_end` pixels of row `y` fall in bucket `c`.
pub open spec fn row_count(f: Frame, y: int, x_end: int, c: LightStatus) -> nat
    decreases x_end,
{
    if x_end <= 0 {
        0
    } else {
        row_count(f, y, x_end - 1, c) + (if pixel_class(
            f.at(y, x_end - 1, 0),
            f.at(y, x_end - 1, 1),
            f.at(y, x_end - 1, 2),
        ) == c {
            1nat
        } else {
            0nat
        })
    }
}

/// How many pixels of the first `y_end` full rows fall in bucket `c`.
pub open spec fn area_count(f: Frame, y_end: int, c: LightStatus) -> nat
    decreases y_end,
{
    if y_end <= 0 {
        0
    } else {
        area_count(f, y_end - 1, c) + row_count(f, y_end - 1, f.width as int, c)
    }
}

/// The majority vote: a color must beat the area threshold and both
/// other colors, tested red first, then yellow, then green.
pub open spec fn spec_decide(red: int, yellow: int, green: int, threshold: int) -> LightStatus {
    if red > threshold && red > green && red > yellow {
        LightStatus::Red
    } else if yellow > threshold && yellow > red && yellow > green {
        LightStatus::Yellow
    } else if green > threshold && green > red && green > yellow {
        LightStatus::Green
    } else {
        LightStatus::NoLight
    }
}

/// The classification of a whole frame: bucket counts over the top
/// third, thresholded at one percent of the scanned area.
pub open spec fn spec_detect_traffic_light(f: Frame) -> LightStatus {
    let roi_h = (f.height as int) / 3;
    let thr = (roi_h * f.width) / 100;
    spec_decide(
        area_count(f, roi_h, LightStatus::Red) as int,
        area_count(f, roi_h, LightStatus::Yellow) as int,
        area_count(f, roi_h, LightStatus::Green) as int,
        thr,
    )
}

pub proof fn lemma_row_count_bound(f: Frame, y: int, x_end: int, c: LightStatus)
    requires
        x_end >= 0,
    ensures
        row_count(f, y, x_end, c) <= x_end,
    decreases x_end,
{
    if x_end > 0 {
        lemma_row_count_bound(f, y, x_end - 1, c);
    }
}

pub proof fn lemma_area_count_bound(f: Frame, y_end: int, c: LightStatus)
    requires
        y_end >= 0,
    ensures
        area_count(f, y_end, c) <= y_end * (f.width as int),
    decreases y_end,
{
    if y_end > 0 {
        lemma_area_count_bound(f, y_end - 1, c);
        lemma_row_count_bound(f, y_end - 1, f.width as int, c);
        assert((y_end - 1) * (f.width as int) + f.width == y_end * (f.width as int))
            by (nonlinear_arith);
    } else {
        assert(0int * (f.width as int) == 0) by (nonlinear_arith);
    }
}

/// Executable hue bucketing of one pixel.
fn classify_pixel(r: u8, g: u8, b: u8) -> (res: LightStatus)
    ensures
        res == pixel_class(r, g, b),
{
    if r < 150 && g < 150 && b < 150 {
        return LightStatus::NoLight;
    }
    let ri = r as i64;
    let gi = g as i64;
    let bi = b as i64;
    let mx = if ri >= gi && ri >= bi {
        ri
    } else if gi >= bi {
        gi
    } else {
        bi
    };
    let mn = if ri <= gi && ri <= bi {
        ri
    } else if gi <= bi {
        gi
    } else {
        bi
    };
    let delta = mx - mn;
    if mx == 0 || delta < 20 {
        return LightStatus::NoLight;
    }
    let num = if mx == ri {
        let n0 = 60 * (gi - bi);
        if n0 < 0 {
            n0 + 360 * delta
        } else {
            n0
        }
    } else if mx == gi {
        120 * delta + 60 * (bi - ri)
    } else {
        240 * delta + 60 * (ri - gi)
    };
    if num <= 15 * delta || num >= 345 * delta {
        LightStatus::Red
    } else if num <= 35 * delta {
        LightStatus::Yellow
    } else if 40 * delta < num && num <= 90 * delta {
        LightStatus::Green
    } else {
        LightStatus::NoLight
    }
}

/// Scan the top third of the frame, count the pixels falling in each
/// color bucket, and return the majority vote.
pub fn detect_traffic_light(frame: &Frame) -> (r: LightStatus)
    requires
        frame.wf(),
    ensures
        r == spec_detect_traffic_light(*frame),
{
    let h = frame.height;
    let w = frame.width;
    let n = frame.data.len();
    let roi_h = h / 3;
    proof {
        vstd::arithmetic::div_mod::lemma_div_nonincreasing(h as int, 3);
        vstd::arithmetic::div_mod::lemma_div_pos_is_pos(h as int, 3);
        vstd::arithmetic::div_mod::lemma_div_is_ordered(h as int, 0x10000, 3);
        assert(0x10000int / 3 == 21845) by {
            vstd::arithmetic::div_mod::lemma_fundamental_div_mod_converse(0x10000, 3, 21845, 1);
        }
        assert(roi_h * w <= 21845 * 0x10000) by (nonlinear_arith)
            requires
                0 <= roi_h <= 21845,
                0 <= w <= 0x10000,
        ;
    }
    let mut red: usize = 0;
    let mut yellow: usize = 0;
    let mut green: usize = 0;
    let mut y: usize = 0;
    while y < roi_h
        invariant
            0 <= y <= roi_h,
            roi_h == (frame.height as int) / 3,
            roi_h <= 21845,
            h == frame.height,
            w == frame.width,
            n == frame.data@.len(),
            frame.wf(),
            red == area_count(*frame, y as int, LightStatus::Red),
            yellow == area_count(*frame, y as int, LightStatus::Yellow),
            green == area_count(*frame, y as int, LightStatus::Green),
        decreases roi_h - y,
    {
        proof {
            lemma_area_count_bound(*frame, y as int, LightStatus::Red);
            lemma_area_count_bound(*frame, y as int, LightStatus::Yellow);
            lemma_area_count_bound(*frame, y as int, LightStatus::Green);
            assert(y * (w as int) <= 21845 * 0x10000) by (nonlinear_arith)
                requires
                    0 <= y <= 21845,
                    0 <= w <= 0x10000,
            ;
        }
        let mut x: usize = 0;
        while x < w
            invariant
                0 <= x <= w,
                0 <= y < roi_h,
                roi_h == (frame.height as int) / 3,
                roi_h <= 21845,
                h == frame.height,
                w == frame.width,
                n == frame.data@.len(),
                frame.wf(),
                red == area_count(*frame, y as int, LightStatus::Red) + row_count(
                    *frame,
                    y as int,
                    x as int,
                    LightStatus::Red,
                ),
                yellow == area_count(*frame, y as int, LightStatus::Yellow) + row_count(
                    *frame,
                    y as int,
                    x as int,
                    LightStatus::Yellow,
                ),
                green == area_count(*frame, y as int, LightStatus::Green) + row_count(
                    *frame,
                    y as int,
                    x as int,
                    LightStatus::Green,
                ),
            decreases w - x,
        {
            proof {
                lemma_area_count_bound(*frame, y as int, LightStatus::Red);
                lemma_area_count_bound(*frame, y as int, LightStatus::Yellow);
                lemma_area_count_bound(*frame, y as int, LightStatus::Green);
                lemma_row_count_bound(*frame, y as int, x as int, LightStatus::Red);
                lemma_row_count_bound(*frame, y as int, x as int, LightStatus::Yellow);
                lemma_row_count_bound(*frame, y as int, x as int, LightStatus::Green);
                assert(y * (w as int) + x <= 21845 * 0x10000 + 0x10000) by (nonlinear_arith)
                    requires
                        0 <= y <= 21845,
                        0 <= x <= w <= 0x10000,
                ;
                assert(3 * (y as int) < h) by {
                    vstd::arithmetic::div_mod::lemma_fundamental_div_mod(h as int, 3);
                    assert(y < roi_h);
                }
                assert((y * w + x) * 3 + 2 < h * w * 3) by (nonlinear_arith)
                    requires
                        0 <= x < w,
                        0 <= y,
                        3 * y < h,
                ;
            }
            let base = (y * w + x) * 3;
            let pr = frame.data[base];
            let pg = frame.data[base + 1];
            let pb = frame.data[base + 2];
            let cls = classify_pixel(pr, pg, pb);
            match cls {
                LightStatus::Red => {
                    red = red + 1;
                },
                LightStatus::Yellow => {
                    yellow = yellow + 1;
                },
                LightStatus::Green => {
                    green = green + 1;
                },
                LightStatus::NoLight => {
                },
            }
            x = x + 1;
        }
        y = y + 1;
    }
    let threshold = (roi_h * w) / 100;
    if red > threshold && red > green && red > yellow {
        return LightStatus::Red;
    }
    if yellow > threshold && yellow > red && yellow > green {
        return LightStatus::Yellow;
    }
    if green > threshold && green > red && green > yellow {
        return LightStatus::Green;
    }
    LightStatus::NoLight
}

} // verus!
