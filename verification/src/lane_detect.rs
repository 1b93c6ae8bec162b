//! Segment-level lane geometry: a trapezoidal region of interest,
//! slope classification of raw segments into left and right candidates,
//! and a length-weighted average producing at most one line per side.
//!
//! Membership in the trapezoid is decided exactly, by cross-multiplied
//! rational comparisons; segment length enters the averaging through an
//! exact integer square root.
use vstd::prelude::*;

use crate::geometry::{abs_int, coord_ok, div_i64, tdiv, Line, COORD_MAX};
use crate::lane_manager::{sum_of, lemma_tdiv_magnitude};

verus! {

/// Whether `p` lies in the quadrilateral with bottom-left `bl`,
/// bottom-right `br`, top-right `tr`, top-left `tl` (y grows downward).
/// The left and right edges are interpolated between the top and bottom
/// rows and compared exactly: `p.0` is within the row's edge span.
/// A quadrilateral with no vertical extent contains nothing.
pub open spec fn spec_point_in_polygon(
    p: (int, int),
    bl: (int, int),
    br: (int, int),
    tr: (int, int),
    tl: (int, int),
) -> bool {
    if p.1 < tr.1 || p.1 > bl.1 {
        false
    } else {
        let span = bl.1 - tl.1;
        if span <= 0 {
            false
        } else {
            let dy = p.1 - tl.1;
            p.0 * span >= tl.0 * span + (bl.0 - tl.0) * dy && p.0 * span <= tr.0 * span + (br.0
                - tr.0) * dy
        }
    }
}

/// Exact trapezoid membership test.  Vertices are bottom-left,
/// bottom-right, top-right, top-left, in that order.
pub fn is_point_in_polygon(point: (u32, u32), vertices: &[(u32, u32); 4]) -> (r: bool)
    requires
        vertices[3].1 <= vertices[2].1,
        vertices[3].1 <= vertices[0].1,
        forall|i: int| 0 <= i < 4 ==> (#[trigger] vertices[i]).0 <= COORD_MAX,
        forall|i: int| 0 <= i < 4 ==> (#[trigger] vertices[i]).1 <= COORD_MAX,
        point.0 <= COORD_MAX,
        point.1 <= COORD_MAX,
    ensures
        r == spec_point_in_polygon(
            (point.0 as int, point.1 as int),
            (vertices[0].0 as int, vertices[0].1 as int),
            (vertices[1].0 as int, vertices[1].1 as int),
            (vertices[2].0 as int, vertices[2].1 as int),
            (vertices[3].0 as int, vertices[3].1 as int),
        ),
{
    let px = point.0 as i64;
    let py = point.1 as i64;
    let blx = vertices[0].0 as i64;
    let bly = vertices[0].1 as i64;
    let brx = vertices[1].0 as i64;
    let trx = vertices[2].0 as i64;
    let try_ = vertices[2].1 as i64;
    let tlx = vertices[3].0 as i64;
    let tly = vertices[3].1 as i64;
    if py < try_ || py > bly {
        return false;
    }
    let span = bly - tly;
    if span == 0 {
        return false;
    }
    let dy = py - tly;
    proof {
        lemma_mul_bound(px as int, span as int);
        lemma_mul_bound(tlx as int, span as int);
        lemma_mul_bound(blx - tlx, dy as int);
        lemma_mul_bound(trx as int, span as int);
        lemma_mul_bound(brx - trx, dy as int);
    }
    px * span >= tlx * span + (blx - tlx) * dy && px * span <= trx * span + (brx - trx) * dy
}

/// `|a * b| <= 4 * COORD_MAX * COORD_MAX` for factors within twice the
/// coordinate bound.
pub proof fn lemma_mul_bound(a: int, b: int)
    requires
        -2 * COORD_MAX <= a <= 2 * COORD_MAX,
        -2 * COORD_MAX <= b <= 2 * COORD_MAX,
    ensures
        -4 * COORD_MAX * COORD_MAX <= a * b <= 4 * COORD_MAX * COORD_MAX,
{
    assert(-4 * COORD_MAX * COORD_MAX <= a * b <= 4 * COORD_MAX * COORD_MAX) by (nonlinear_arith)
        requires
            -2 * COORD_MAX <= a <= 2 * COORD_MAX,
            -2 * COORD_MAX <= b <= 2 * COORD_MAX,
    ;
}

/// The region of interest for a `w` by `h` frame: the trapezoid with
/// the full bottom row and a top row at 3/5 of the height spanning the
/// middle fifth, so it is widest at the image bottom and discards more
/// area near the top.
pub open spec fn spec_in_roi(px: int, py: int, w: int, h: int) -> bool {
    spec_point_in_polygon(
        (px, py),
        (0, h),
        (w, h),
        ((3 * w) / 5, (3 * h) / 5),
        ((2 * w) / 5, (3 * h) / 5),
    )
}

/// Executable region-of-interest membership for a point with possibly
/// signed coordinates.
pub fn point_in_roi(px: i64, py: i64, w: i64, h: i64) -> (r: bool)
    requires
        coord_ok(px as int),
        coord_ok(py as int),
        0 <= w <= COORD_MAX,
        0 <= h <= COORD_MAX,
    ensures
        r == spec_in_roi(px as int, py as int, w as int, h as int),
{
    let ty = (3 * h) / 5;
    let tlx = (2 * w) / 5;
    let trx = (3 * w) / 5;
    proof {
        vstd::arithmetic::div_mod::lemma_div_pos_is_pos(3 * h as int, 5);
        vstd::arithmetic::div_mod::lemma_div_pos_is_pos(3 * w as int, 5);
        vstd::arithmetic::div_mod::lemma_div_nonincreasing(3 * h as int, 5);
        vstd::arithmetic::div_mod::lemma_div_nonincreasing(3 * w as int, 5);
    }
    if py < ty || py > h {
        return false;
    }
    let span = h - ty;
    if span == 0 {
        return false;
    }
    let dy = py - ty;
    proof {
        lemma_mul_bound(px as int, span as int);
        lemma_mul_bound(tlx as int, span as int);
        lemma_mul_bound(0 - tlx as int, dy as int);
        lemma_mul_bound(trx as int, span as int);
        lemma_mul_bound(w - trx as int, dy as int);
    }
    px * span >= tlx * span + (0 - tlx) * dy && px * span <= trx * span + (w - trx) * dy
}

/// What masking to the region of interest leaves of a pixel row-major
/// grayscale buffer: pixels inside the trapezoid survive, the rest are
/// zeroed.
pub fn apply_roi(pixels: &Vec<u8>, width: u32, height: u32) -> (r: Vec<u8>)
    requires
        width <= 0x10000,
        height <= 0x10000,
        pixels@.len() == width * height,
    ensures
        r@.len() == pixels@.len(),
        forall|k: int|
            0 <= k < r@.len() ==> r@[k] == (if spec_in_roi(
                k % (width as int),
                k / (width as int),
                width as int,
                height as int,
            ) {
                pixels@[k]
            } else {
                0u8
            }),
{
    let mut out: Vec<u8> = Vec::new();
    let mut k: usize = 0;
    let n = pixels.len();
    while k < n
        invariant
            0 <= k <= n,
            n == pixels@.len(),
            pixels@.len() == width * height,
            width <= 0x10000,
            height <= 0x10000,
            out@.len() == k,
            forall|m: int|
                0 <= m < k ==> out@[m] == (if spec_in_roi(
                    m % (width as int),
                    m / (width as int),
                    width as int,
                    height as int,
                ) {
                    pixels@[m]
                } else {
                    0u8
                }),
        decreases n - k,
    {
        proof {
            assert(width > 0) by (nonlinear_arith)
                requires
                    k < width * height,
                    k >= 0,
                    width >= 0,
            ;
        }
        let x = k % (width as usize);
        let y = k / (width as usize);
        proof {
            vstd::arithmetic::div_mod::lemma_fundamental_div_mod(k as int, width as int);
            vstd::arithmetic::div_mod::lemma_mod_bound(k as int, width as int);
            vstd::arithmetic::div_mod::lemma_div_pos_is_pos(k as int, width as int);
            assert(y < height) by (nonlinear_arith)
                requires
                    k == (width as int) * (y as int) + (x as int),
                    k < width * height,
                    width > 0,
                    0 <= x,
                    y >= 0,
            ;
        }
        let inside = point_in_roi(x as i64, y as i64, width as i64, height as i64);
        if inside {
            out.push(pixels[k]);
        } else {
            out.push(0u8);
        }
        k = k + 1;
    }
    out
}

/// The integer square root: the largest `r` with `r * r <= n`.
pub open spec fn spec_isqrt(n: nat) -> nat
    decreases n,
{
    if n == 0 {
        0
    } else {
        let r = spec_isqrt((n - 1) as nat);
        if (r + 1) * (r + 1) <= n {
            r + 1
        } else {
            r
        }
    }
}

pub proof fn lemma_isqrt_bounds(n: nat)
    ensures
        spec_isqrt(n) * spec_isqrt(n) <= n,
        n < (spec_isqrt(n) + 1) * (spec_isqrt(n) + 1),
    decreases n,
{
    if n == 0 {
        assert(spec_isqrt(0) == 0);
        assert((0int + 1) * (0int + 1) == 1) by (nonlinear_arith);
    } else {
        lemma_isqrt_bounds((n - 1) as nat);
        let r = spec_isqrt((n - 1) as nat);
        if (r + 1) * (r + 1) <= n {
            assert(spec_isqrt(n) == r + 1);
            assert(n < (r + 1 + 1) * (r + 1 + 1)) by (nonlinear_arith)
                requires
                    n - 1 < (r + 1) * (r + 1),
                    r >= 0,
            ;
        } else {
            assert(spec_isqrt(n) == r);
            assert(r * r <= n);
        }
    }
}

pub proof fn lemma_isqrt_unique(n: nat, r: nat)
    requires
        r * r <= n,
        n < (r + 1) * (r + 1),
    ensures
        r == spec_isqrt(n),
{
    lemma_isqrt_bounds(n);
    let s = spec_isqrt(n);
    if r < s {
        assert(false) by (nonlinear_arith)
            requires
                r < s,
                s * s <= n,
                n < (r + 1) * (r + 1),
        ;
    }
    if s < r {
        assert(false) by (nonlinear_arith)
            requires
                s < r,
                r * r <= n,
                n < (s + 1) * (s + 1),
        ;
    }
}

/// Executable integer square root, by binary search.
pub fn isqrt(n: u64) -> (r: u64)
    requires
        n <= 0x4000_0000_0000_0000,
    ensures
        r as nat == spec_isqrt(n as nat),
        r * r <= n,
{
    let mut lo: u64 = 0;
    let mut hi: u64 = 0x8000_0000;
    proof {
        assert((0x8000_0000u64 + 1) * (0x8000_0000u64 + 1) > 0x4000_0000_0000_0000)
            by (nonlinear_arith);
    }
    while lo < hi
        invariant
            0 <= lo <= hi <= 0x8000_0000,
            lo * lo <= n,
            n < (hi + 1) * (hi + 1),
        decreases hi - lo,
    {
        let mid = lo + (hi - lo + 1) / 2;
        proof {
            assert(1 <= (hi - lo + 1) / 2 <= hi - lo) by {
                vstd::arithmetic::div_mod::lemma_div_is_ordered(2, hi - lo + 1, 2);
                vstd::arithmetic::div_mod::lemma_div_is_ordered(
                    hi - lo + 1,
                    2 * (hi - lo),
                    2,
                );
                vstd::arithmetic::div_mod::lemma_div_by_self(2);
                vstd::arithmetic::div_mod::lemma_div_multiples_vanish(hi - lo, 2);
            }
            assert(mid * mid <= 0x4000_0000_0000_0000) by (nonlinear_arith)
                requires
                    0 <= mid <= 0x8000_0000,
            ;
        }
        if mid * mid <= n {
            lo = mid;
        } else {
            hi = mid - 1;
        }
    }
    proof {
        lemma_isqrt_unique(n as nat, lo as nat);
    }
    lo
}

/// Squared Euclidean length of a segment.
pub open spec fn seg_len_sq(l: Line) -> int {
    (l.x2 - l.x1) * (l.x2 - l.x1) + (l.y2 - l.y1) * (l.y2 - l.y1)
}

/// Averaging weight of a segment: its Euclidean length, rounded down,
/// floored at one so a degenerate segment still counts once.
pub open spec fn spec_weight(l: Line) -> int {
    let s = spec_isqrt(seg_len_sq(l) as nat) as int;
    if s < 1 {
        1
    } else {
        s
    }
}

pub proof fn lemma_weight_range(l: Line)
    requires
        l.wf(),
    ensures
        1 <= spec_weight(l) <= 0x400_0000,
        0 <= seg_len_sq(l) <= 0x8_0000_0000_0000,
{
    assert(0 <= seg_len_sq(l) <= 0x8_0000_0000_0000) by (nonlinear_arith)
        requires
            -2 * COORD_MAX <= l.x2 - l.x1 <= 2 * COORD_MAX,
            -2 * COORD_MAX <= l.y2 - l.y1 <= 2 * COORD_MAX,
            seg_len_sq(l) == (l.x2 - l.x1) * (l.x2 - l.x1) + (l.y2 - l.y1) * (l.y2 - l.y1),
    ;
    lemma_isqrt_bounds(seg_len_sq(l) as nat);
    let s = spec_isqrt(seg_len_sq(l) as nat);
    assert(s <= 0x400_0000) by (nonlinear_arith)
        requires
            s * s <= 0x8_0000_0000_0000,
            s >= 0,
    ;
}

/// Executable averaging weight.
fn seg_weight(l: Line) -> (r: i64)
    requires
        l.wf(),
    ensures
        r == spec_weight(l),
        1 <= r <= 0x400_0000,
{
    proof {
        lemma_weight_range(l);
        assert(0 <= (l.x2 - l.x1) * (l.x2 - l.x1) <= 0x4_0000_0000_0000 && 0 <= (l.y2 - l.y1)
            * (l.y2 - l.y1) <= 0x4_0000_0000_0000) by (nonlinear_arith)
            requires
                -2 * COORD_MAX <= l.x2 - l.x1 <= 2 * COORD_MAX,
                -2 * COORD_MAX <= l.y2 - l.y1 <= 2 * COORD_MAX,
        ;
    }
    let dx = l.x2 - l.x1;
    let dy = l.y2 - l.y1;
    let ls = dx * dx + dy * dy;
    let s = isqrt(ls as u64);
    if s < 1 {
        1
    } else {
        s as i64
    }
}

/// A segment is a candidate when both endpoints lie in the region of
/// interest and its slope is meaningful: not vertical (undefined slope)
/// and with magnitude at least 3/10, discarding horizon artifacts.
pub open spec fn spec_slope_ok(l: Line) -> bool {
    let dx = l.x2 - l.x1;
    let dy = l.y2 - l.y1;
    dx != 0 && 10 * abs_int(dy) >= 3 * abs_int(dx)
}

/// Left candidates fall with negative slope (y grows downward); the
/// rest are right candidates.
pub open spec fn spec_is_left_seg(l: Line) -> bool {
    let dx = l.x2 - l.x1;
    let dy = l.y2 - l.y1;
    (dx > 0) != (dy > 0)
}

pub open spec fn spec_candidate(l: Line, w: int, h: int, left: bool) -> bool {
    spec_in_roi(l.x1 as int, l.y1 as int, w, h) && spec_in_roi(l.x2 as int, l.y2 as int, w, h)
        && spec_slope_ok(l) && spec_is_left_seg(l) == left
}

/// The candidate segments of one side, in input order.
pub open spec fn candidates(segs: Seq<Line>, w: int, h: int, left: bool) -> Seq<Line>
    decreases segs.len(),
{
    if segs.len() == 0 {
        Seq::empty()
    } else {
        let rest = candidates(segs.drop_last(), w, h, left);
        if spec_candidate(segs.last(), w, h, left) {
            rest.push(segs.last())
        } else {
            rest
        }
    }
}

pub proof fn lemma_candidates_wf(segs: Seq<Line>, w: int, h: int, left: bool)
    requires
        forall|i: int| 0 <= i < segs.len() ==> (#[trigger] segs[i]).wf(),
    ensures
        candidates(segs, w, h, left).len() <= segs.len(),
        forall|i: int|
            0 <= i < candidates(segs, w, h, left).len() ==> (#[trigger] candidates(
                segs,
                w,
                h,
                left,
            )[i]).wf(),
    decreases segs.len(),
{
    if segs.len() > 0 {
        assert(forall|i: int| 0 <= i < segs.drop_last().len() ==> (#[trigger] segs.drop_last()[i]).wf());
        lemma_candidates_wf(segs.drop_last(), w, h, left);
        let rest = candidates(segs.drop_last(), w, h, left);
        let r = candidates(segs, w, h, left);
        if spec_candidate(segs.last(), w, h, left) {
            assert(segs.last() == segs[segs.len() - 1]);
            assert forall|i: int| 0 <= i < r.len() implies (#[trigger] r[i]).wf() by {
                if i < rest.len() {
                    assert(r[i] == rest[i]);
                } else {
                    assert(r[i] == segs.last());
                }
            }
        }
    }
}

/// The weight closure and the four weighted-coordinate closures.
pub open spec fn f_w() -> spec_fn(Line) -> int {
    |l: Line| spec_weight(l)
}

pub open spec fn f_wx1() -> spec_fn(Line) -> int {
    |l: Line| spec_weight(l) * (l.x1 as int)
}

pub open spec fn f_wy1() -> spec_fn(Line) -> int {
    |l: Line| spec_weight(l) * (l.y1 as int)
}

pub open spec fn f_wx2() -> spec_fn(Line) -> int {
    |l: Line| spec_weight(l) * (l.x2 as int)
}

pub open spec fn f_wy2() -> spec_fn(Line) -> int {
    |l: Line| spec_weight(l) * (l.y2 as int)
}

/// The length-weighted per-coordinate average of a non-empty side.
pub open spec fn spec_weighted_average(s: Seq<Line>) -> Line {
    let tw = sum_of(s, f_w());
    Line {
        x1: tdiv(sum_of(s, f_wx1()), tw) as i64,
        y1: tdiv(sum_of(s, f_wy1()), tw) as i64,
        x2: tdiv(sum_of(s, f_wx2()), tw) as i64,
        y2: tdiv(sum_of(s, f_wy2()), tw) as i64,
    }
}


/// One step of the weighted-sum bound: adding a weighted coordinate
/// keeps the sum within the grown total weight times the bound.
proof fn lemma_wsum_step(tw0: int, w: int, acc: int, c: int)
    requires
        tw0 >= 0,
        w >= 1,
        abs_int(acc) <= tw0 * COORD_MAX,
        -COORD_MAX <= c <= COORD_MAX,
    ensures
        abs_int(acc + w * c) <= (tw0 + w) * COORD_MAX,
{
    assert(-(w * COORD_MAX) <= w * c <= w * COORD_MAX) by (nonlinear_arith)
        requires
            w >= 1,
            -COORD_MAX <= c <= COORD_MAX,
    ;
    assert((tw0 + w) * COORD_MAX == tw0 * COORD_MAX + w * COORD_MAX) by (nonlinear_arith);
}

/// Executable length-weighted average of a non-empty side.
fn weighted_average(lines: &Vec<Line>) -> (r: Line)
    requires
        forall|i: int| 0 <= i < lines@.len() ==> (#[trigger] lines@[i]).wf(),
        0 < lines@.len() <= 4096,
    ensures
        r == spec_weighted_average(lines@),
        r.wf(),
{
    let mut tw: i64 = 0;
    let mut sx1: i64 = 0;
    let mut sy1: i64 = 0;
    let mut sx2: i64 = 0;
    let mut sy2: i64 = 0;
    let mut i: usize = 0;
    while i < lines.len()
        invariant
            0 <= i <= lines@.len(),
            lines@.len() <= 4096,
            forall|k: int| 0 <= k < lines@.len() ==> (#[trigger] lines@[k]).wf(),
            tw == sum_of(lines@.take(i as int), f_w()),
            sx1 == sum_of(lines@.take(i as int), f_wx1()),
            sy1 == sum_of(lines@.take(i as int), f_wy1()),
            sx2 == sum_of(lines@.take(i as int), f_wx2()),
            sy2 == sum_of(lines@.take(i as int), f_wy2()),
            i <= tw <= i * 0x400_0000,
            abs_int(sx1 as int) <= tw * COORD_MAX,
            abs_int(sy1 as int) <= tw * COORD_MAX,
            abs_int(sx2 as int) <= tw * COORD_MAX,
            abs_int(sy2 as int) <= tw * COORD_MAX,
        decreases lines@.len() - i,
    {
        let l = lines[i];
        let w = seg_weight(l);
        proof {
            assert(lines@.take(i + 1).drop_last() =~= lines@.take(i as int));
            assert(lines@.take(i + 1).last() == lines@[i as int]);
            assert((i + 1) * 0x400_0000 == i * 0x400_0000 + 0x400_0000) by (nonlinear_arith);
            assert(i * 0x400_0000 <= 4096 * 0x400_0000) by (nonlinear_arith)
                requires
                    0 <= i <= 4096,
            ;
            assert(tw * COORD_MAX <= (4096 * 0x400_0000) * COORD_MAX) by (nonlinear_arith)
                requires
                    0 <= tw <= 4096 * 0x400_0000,
            ;
            lemma_wsum_step(tw as int, w as int, sx1 as int, l.x1 as int);
            lemma_wsum_step(tw as int, w as int, sy1 as int, l.y1 as int);
            lemma_wsum_step(tw as int, w as int, sx2 as int, l.x2 as int);
            lemma_wsum_step(tw as int, w as int, sy2 as int, l.y2 as int);
            assert((tw + w) * COORD_MAX <= (4096 * 0x400_0000) * COORD_MAX) by (nonlinear_arith)
                requires
                    0 <= tw + w <= 4096 * 0x400_0000,
            ;
            assert(-(w as int) * COORD_MAX <= w * l.x1 <= w * COORD_MAX) by (nonlinear_arith)
                requires
                    1 <= w <= 0x400_0000,
                    -COORD_MAX <= l.x1 <= COORD_MAX,
            ;
            assert(-(w as int) * COORD_MAX <= w * l.y1 <= w * COORD_MAX) by (nonlinear_arith)
                requires
                    1 <= w <= 0x400_0000,
                    -COORD_MAX <= l.y1 <= COORD_MAX,
            ;
            assert(-(w as int) * COORD_MAX <= w * l.x2 <= w * COORD_MAX) by (nonlinear_arith)
                requires
                    1 <= w <= 0x400_0000,
                    -COORD_MAX <= l.x2 <= COORD_MAX,
            ;
            assert(-(w as int) * COORD_MAX <= w * l.y2 <= w * COORD_MAX) by (nonlinear_arith)
                requires
                    1 <= w <= 0x400_0000,
                    -COORD_MAX <= l.y2 <= COORD_MAX,
            ;
            assert((w as int) * COORD_MAX <= 0x400_0000 * (COORD_MAX as int)) by (nonlinear_arith)
                requires
                    1 <= w <= 0x400_0000,
            ;
        }
        tw = tw + w;
        sx1 = sx1 + w * l.x1;
        sy1 = sy1 + w * l.y1;
        sx2 = sx2 + w * l.x2;
        sy2 = sy2 + w * l.y2;
        i = i + 1;
    }
    proof {
        assert(lines@.take(lines@.len() as int) =~= lines@);
        lemma_tdiv_magnitude(sx1 as int, tw as int, COORD_MAX as int);
        lemma_tdiv_magnitude(sy1 as int, tw as int, COORD_MAX as int);
        lemma_tdiv_magnitude(sx2 as int, tw as int, COORD_MAX as int);
        lemma_tdiv_magnitude(sy2 as int, tw as int, COORD_MAX as int);
    }
    Line {
        x1: div_i64(sx1, tw),
        y1: div_i64(sy1, tw),
        x2: div_i64(sx2, tw),
        y2: div_i64(sy2, tw),
    }
}

/// What lane detection returns for a frame's segments: the weighted
/// average of the left candidates (if any), then of the right
/// candidates (if any).
pub open spec fn spec_detect_lanes(segs: Seq<Line>, w: int, h: int) -> Seq<Line> {
    let lefts = candidates(segs, w, h, true);
    let rights = candidates(segs, w, h, false);
    let left_part: Seq<Line> = if lefts.len() > 0 {
        seq![spec_weighted_average(lefts)]
    } else {
        Seq::empty()
    };
    let right_part: Seq<Line> = if rights.len() > 0 {
        seq![spec_weighted_average(rights)]
    } else {
        Seq::empty()
    };
    left_part + right_part
}

/// Segment-level lane detection for one frame: segments are restricted
/// to the trapezoidal region of interest, classified by slope into left
/// and right candidates, and averaged per side with length weights.
/// At most one left line (first) and one right line are returned; a
/// side with no candidate is simply omitted.
pub fn detect_lanes(segments: Vec<Line>, width: i64, height: i64) -> (r: Vec<Line>)
    requires
        forall|i: int| 0 <= i < segments@.len() ==> (#[trigger] segments@[i]).wf(),
        segments@.len() <= 4096,
        0 <= width <= COORD_MAX,
        0 <= height <= COORD_MAX,
    ensures
        r@ == spec_detect_lanes(segments@, width as int, height as int),
        r@.len() <= 2,
        forall|i: int| 0 <= i < r@.len() ==> (#[trigger] r@[i]).wf(),
{
    let mut lefts: Vec<Line> = Vec::new();
    let mut rights: Vec<Line> = Vec::new();
    let mut i: usize = 0;
    while i < segments.len()
        invariant
            0 <= i <= segments@.len(),
            segments@.len() <= 4096,
            forall|k: int| 0 <= k < segments@.len() ==> (#[trigger] segments@[k]).wf(),
            0 <= width <= COORD_MAX,
            0 <= height <= COORD_MAX,
            lefts@ == candidates(segments@.take(i as int), width as int, height as int, true),
            rights@ == candidates(segments@.take(i as int), width as int, height as int, false),
        decreases segments@.len() - i,
    {
        let l = segments[i];
        proof {
            assert(segments@.take(i + 1).drop_last() =~= segments@.take(i as int));
            assert(segments@.take(i + 1).last() == segments@[i as int]);
        }
        let in_roi = point_in_roi(l.x1, l.y1, width, height) && point_in_roi(
            l.x2,
            l.y2,
            width,
            height,
        );
        if in_roi {
            let dx = l.x2 - l.x1;
            let dy = l.y2 - l.y1;
            let adx = if dx < 0 {
                -dx
            } else {
                dx
            };
            let ady = if dy < 0 {
                -dy
            } else {
                dy
            };
            if dx != 0 && 10 * ady >= 3 * adx {
                if (dx > 0) != (dy > 0) {
                    lefts.push(l);
                } else {
                    rights.push(l);
                }
            }
        }
        i = i + 1;
    }
    proof {
        assert(segments@.take(segments@.len() as int) =~= segments@);
        lemma_candidates_wf(segments@, width as int, height as int, true);
        lemma_candidates_wf(segments@, width as int, height as int, false);
    }
    let mut out: Vec<Line> = Vec::new();
    if lefts.len() > 0 {
        out.push(weighted_average(&lefts));
    }
    if rights.len() > 0 {
        out.push(weighted_average(&rights));
    }
    proof {
        assert(out@ =~= spec_detect_lanes(segments@, width as int, height as int));
    }
    out
}

} // verus!
