//! Shared geometric data: line segments, bounding boxes, and the exact
//! integer arithmetic (truncating division) the pipeline is stated over.
//!
//! All coordinates are integer pixels.  Values are kept within
//! `COORD_MAX` so that every product and sum in the pipeline fits in an
//! `i64` without overflow.
use vstd::prelude::*;

verus! {

/// Bound on pixel coordinates; keeps all intermediate arithmetic inside `i64`.
pub const COORD_MAX: i64 = 16_777_216;

/// A line segment `(x1, y1) -> (x2, y2)` in pixel coordinates.
/// The two endpoints carry no inherent orientation.
#[derive(Clone, Copy, PartialEq, Eq, Structural, Debug)]
pub struct Line {
    pub x1: i64,
    pub y1: i64,
    pub x2: i64,
    pub y2: i64,
}

/// An axis-aligned bounding box: top-left corner plus width and height, in pixels.
#[derive(Clone, Copy, PartialEq, Eq, Structural, Debug)]
pub struct BBox {
    pub x: i64,
    pub y: i64,
    pub w: i64,
    pub h: i64,
}

pub open spec fn coord_ok(c: int) -> bool {
    -COORD_MAX <= c <= COORD_MAX
}

impl Line {
    pub open spec fn wf(self) -> bool {
        coord_ok(self.x1 as int) && coord_ok(self.y1 as int) && coord_ok(self.x2 as int)
            && coord_ok(self.y2 as int)
    }
}

impl BBox {
    pub open spec fn wf(self) -> bool {
        coord_ok(self.x as int) && coord_ok(self.y as int) && coord_ok(self.w as int)
            && coord_ok(self.h as int)
    }
}

pub open spec fn abs_int(a: int) -> int {
    if a >= 0 {
        a
    } else {
        -a
    }
}

/// Truncating (round-toward-zero) division, the meaning of `/` on `i64`,
/// stated over the Euclidean `/` of specifications.
pub open spec fn tdiv(a: int, b: int) -> int {
    if (a >= 0) == (b >= 0) {
        abs_int(a) / abs_int(b)
    } else {
        -(abs_int(a) / abs_int(b))
    }
}

/// The magnitude of a truncating quotient never exceeds the magnitude of
/// the dividend, and its sign follows the signs of the operands.
pub proof fn lemma_tdiv_bounds(a: int, b: int)
    requires
        b != 0,
    ensures
        abs_int(tdiv(a, b)) <= abs_int(a),
        a >= 0 && b > 0 ==> 0 <= tdiv(a, b) <= a,
        a <= 0 && b > 0 ==> a <= tdiv(a, b) <= 0,
{
    vstd::arithmetic::div_mod::lemma_div_nonincreasing(abs_int(a), abs_int(b));
    vstd::arithmetic::div_mod::lemma_div_pos_is_pos(abs_int(a), abs_int(b));
}

/// Executable truncating division, the behaviour of `/` on `i64`: the
/// division is carried out on the magnitudes and the sign reattached.
pub fn div_i64(a: i64, b: i64) -> (r: i64)
    requires
        b != 0,
        a > i64::MIN,
        b > i64::MIN,
    ensures
        r == tdiv(a as int, b as int),
{
    if b > 0 {
        if a >= 0 {
            a / b
        } else {
            -((-a) / b)
        }
    } else {
        if a >= 0 {
            -(a / (-b))
        } else {
            (-a) / (-b)
        }
    }
}

} // verus!
