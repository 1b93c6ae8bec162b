//! Temporal smoothing of the ego lane boundaries and ego-lane gating of
//! object detections.
//!
//! The manager keeps one smoothed line per boundary (left, right).  Each
//! frame, the raw lines are partitioned by the midpoint of their x span,
//! averaged per side, and blended into the previous smoothed line with an
//! exponential factor `alpha` given in thousandths (`0..=1000`).  A side
//! that receives no raw line this frame keeps last frame's smoothed value.
use vstd::prelude::*;

use crate::geometry::{abs_int, coord_ok, div_i64, tdiv, Line, BBox, COORD_MAX};

verus! {

/// Road-type policy for the lane-relevance filter.
#[derive(Clone, Copy, PartialEq, Eq, Structural, Debug)]
pub enum RoadType {
    Highway,
    Twoway,
}

/// A detection annotated with its ego-lane classification.
#[derive(Clone, Copy, PartialEq, Eq, Structural, Debug)]
pub struct LaneObject {
    pub bbox: BBox,
    pub is_in_ego_lane: bool,
}

/// Smoothed lane state.  `smoothing_milli` is the blend factor in
/// thousandths: `1000` adopts the new line outright, `0` keeps the old.
pub struct LaneManager {
    pub prev_left: Option<Line>,
    pub prev_right: Option<Line>,
    pub smoothing_milli: i64,
    pub road_type: RoadType,
}

/// Sum of `f` over the elements of `s`.
pub open spec fn sum_of(s: Seq<Line>, f: spec_fn(Line) -> int) -> int
    decreases s.len(),
{
    if s.len() == 0 {
        0
    } else {
        sum_of(s.drop_last(), f) + f(s.last())
    }
}

/// The unweighted per-coordinate mean of a non-empty set of lines,
/// with the truncating division of the implementation.
pub open spec fn spec_average(s: Seq<Line>) -> Line {
    let n = s.len() as int;
    Line {
        x1: tdiv(sum_of(s, |l: Line| l.x1 as int), n) as i64,
        y1: tdiv(sum_of(s, |l: Line| l.y1 as int), n) as i64,
        x2: tdiv(sum_of(s, |l: Line| l.x2 as int), n) as i64,
        y2: tdiv(sum_of(s, |l: Line| l.y2 as int), n) as i64,
    }
}

/// `|tdiv(a, b)| <= c` whenever `|a| <= b * c`.
pub proof fn lemma_tdiv_magnitude(a: int, b: int, c: int)
    requires
        b > 0,
        c >= 0,
        abs_int(a) <= b * c,
    ensures
        abs_int(tdiv(a, b)) <= c,
{
    vstd::arithmetic::div_mod::lemma_div_is_ordered(abs_int(a), b * c, b);
    vstd::arithmetic::div_mod::lemma_div_multiples_vanish(c, b);
    vstd::arithmetic::div_mod::lemma_div_pos_is_pos(abs_int(a), b);
}

/// One coordinate of the exponential blend
/// `alpha * new + (1000 - alpha) * prev`, in thousandths, rounded toward
/// `prev`.
pub open spec fn smooth_coord(alpha: int, new: int, prev: int) -> int {
    if prev >= new {
        prev - alpha * (prev - new) / 1000
    } else {
        prev + alpha * (new - prev) / 1000
    }
}

/// The blended coordinate lies between the raw value and the previous
/// one; it is exact at the fixed point and at the extreme factors.
pub proof fn lemma_smooth_coord_between(alpha: int, new: int, prev: int)
    requires
        0 <= alpha <= 1000,
    ensures
        prev >= new ==> new <= smooth_coord(alpha, new, prev) <= prev,
        prev <= new ==> prev <= smooth_coord(alpha, new, prev) <= new,
        prev == new ==> smooth_coord(alpha, new, prev) == new,
        alpha == 1000 ==> smooth_coord(alpha, new, prev) == new,
        alpha == 0 ==> smooth_coord(alpha, new, prev) == prev,
        prev > new && alpha * (prev - new) >= 1000 ==> smooth_coord(alpha, new, prev) < prev,
        prev < new && alpha * (new - prev) >= 1000 ==> smooth_coord(alpha, new, prev) > prev,
{
    let d = if prev >= new { prev - new } else { new - prev };
    assert(alpha * d <= 1000 * d) by (nonlinear_arith)
        requires
            0 <= alpha <= 1000,
            d >= 0,
    ;
    assert(alpha * d >= 0) by (nonlinear_arith)
        requires
            alpha >= 0,
            d >= 0,
    ;
    assert(alpha == 0 ==> alpha * d == 0) by (nonlinear_arith);
    vstd::arithmetic::div_mod::lemma_div_pos_is_pos(alpha * d, 1000);
    vstd::arithmetic::div_mod::lemma_div_is_ordered(alpha * d, 1000 * d, 1000);
    vstd::arithmetic::div_mod::lemma_div_multiples_vanish(d, 1000);
    vstd::arithmetic::div_mod::lemma_div_of0(1000);
    if alpha * d >= 1000 {
        vstd::arithmetic::div_mod::lemma_div_is_ordered(1000, alpha * d, 1000);
        vstd::arithmetic::div_mod::lemma_div_by_self(1000);
    }
}

pub open spec fn spec_smooth_line(alpha: int, new_l: Line, old_l: Line) -> Line {
    Line {
        x1: smooth_coord(alpha, new_l.x1 as int, old_l.x1 as int) as i64,
        y1: smooth_coord(alpha, new_l.y1 as int, old_l.y1 as int) as i64,
        x2: smooth_coord(alpha, new_l.x2 as int, old_l.x2 as int) as i64,
        y2: smooth_coord(alpha, new_l.y2 as int, old_l.y2 as int) as i64,
    }
}

/// A raw line lands on the left side when the midpoint of its x span is
/// left of the frame center: `(x1 + x2) / 2 < img_width / 2`, exactly.
pub open spec fn is_left_line(l: Line, img_width: int) -> bool {
    l.x1 + l.x2 < img_width
}

/// The sub-sequence of `s`, in order, that lands on the requested side.
pub open spec fn side_lines(s: Seq<Line>, img_width: int, left: bool) -> Seq<Line>
    decreases s.len(),
{
    if s.len() == 0 {
        Seq::empty()
    } else {
        let rest = side_lines(s.drop_last(), img_width, left);
        if is_left_line(s.last(), img_width) == left {
            rest.push(s.last())
        } else {
            rest
        }
    }
}

/// What one frame does to one smoothed boundary: no raw line keeps the
/// previous value; otherwise the side average is blended into it (or
/// adopted outright when there is no previous value).
pub open spec fn spec_update_side(prev: Option<Line>, side: Seq<Line>, alpha: int) -> Option<
    Line,
> {
    if side.len() == 0 {
        prev
    } else {
        let avg = spec_average(side);
        match prev {
            Option::None => Option::Some(avg),
            Option::Some(p) => Option::Some(spec_smooth_line(alpha, avg, p)),
        }
    }
}

impl LaneManager {
    pub open spec fn wf(self) -> bool {
        &&& 0 <= self.smoothing_milli <= 1000
    &&& match self.prev_left {
            Option::Some(l) => l.wf(),
            Option::None => true,
        }
    &&& match self.prev_right {
            Option::Some(l) => l.wf(),
            Option::None => true,
        }
    }

    /// A fresh manager: no lane history, the given smoothing factor (in
    /// thousandths), and the road-type policy implied by `is_two_way`.
    pub fn new(smoothing_milli: i64, is_two_way: bool) -> (m: LaneManager)
        requires
            0 <= smoothing_milli <= 1000,
        ensures
            m.prev_left == Option::<Line>::None,
            m.prev_right == Option::<Line>::None,
            m.smoothing_milli == smoothing_milli,
            m.road_type == (if is_two_way {
                RoadType::Twoway
            } else {
                RoadType::Highway
            }),
            m.wf(),
    {
        LaneManager {
            prev_left: Option::None,
            prev_right: Option::None,
            smoothing_milli,
            road_type: if is_two_way {
                RoadType::Twoway
            } else {
                RoadType::Highway
            },
        }
    }

    /// Per-coordinate unweighted mean of the given lines; `None` when
    /// there are none.
    pub fn average_lines(lines: &Vec<Line>) -> (r: Option<Line>)
        requires
            forall|i: int| 0 <= i < lines@.len() ==> (#[trigger] lines@[i]).wf(),
            lines@.len() <= 0x4000_0000,
        ensures
            lines@.len() == 0 ==> r == Option::<Line>::None,
            lines@.len() > 0 ==> r == Option::Some(spec_average(lines@)),
            match r {
                Option::Some(l) => l.wf(),
                Option::None => true,
            },
    {
        if lines.len() == 0 {
            return Option::None;
        }
        let ghost fx1 = |l: Line| l.x1 as int;
        let ghost fy1 = |l: Line| l.y1 as int;
        let ghost fx2 = |l: Line| l.x2 as int;
        let ghost fy2 = |l: Line| l.y2 as int;
        let mut sx1: i64 = 0;
        let mut sy1: i64 = 0;
        let mut sx2: i64 = 0;
        let mut sy2: i64 = 0;
        let mut i: usize = 0;
        while i < lines.len()
            invariant
                0 <= i <= lines@.len(),
                lines@.len() <= 0x4000_0000,
                forall|k: int| 0 <= k < lines@.len() ==> (#[trigger] lines@[k]).wf(),
                sx1 == sum_of(lines@.take(i as int), fx1),
                sy1 == sum_of(lines@.take(i as int), fy1),
                sx2 == sum_of(lines@.take(i as int), fx2),
                sy2 == sum_of(lines@.take(i as int), fy2),
                fx1 == (|l: Line| l.x1 as int),
                fy1 == (|l: Line| l.y1 as int),
                fx2 == (|l: Line| l.x2 as int),
                fy2 == (|l: Line| l.y2 as int),
                abs_int(sx1 as int) <= i * COORD_MAX,
                abs_int(sy1 as int) <= i * COORD_MAX,
                abs_int(sx2 as int) <= i * COORD_MAX,
                abs_int(sy2 as int) <= i * COORD_MAX,
            decreases lines@.len() - i,
        {
            let l = lines[i];
            proof {
                assert(lines@.take(i + 1).drop_last() =~= lines@.take(i as int));
                assert(lines@.take(i + 1).last() == lines@[i as int]);
                assert((i + 1) * (COORD_MAX as int) == i * (COORD_MAX as int) + COORD_MAX)
                    by (nonlinear_arith);
                assert(i * (COORD_MAX as int) <= 0x4000_0000 * (COORD_MAX as int))
                    by (nonlinear_arith)
                    requires
                        0 <= i <= 0x4000_0000,
                ;
            }
            sx1 = sx1 + l.x1;
            sy1 = sy1 + l.y1;
            sx2 = sx2 + l.x2;
            sy2 = sy2 + l.y2;
            i = i + 1;
        }
        proof {
            assert(lines@.take(lines@.len() as int) =~= lines@);
        }
        let n = lines.len() as i64;
        let rx1 = div_i64(sx1, n);
        let ry1 = div_i64(sy1, n);
        let rx2 = div_i64(sx2, n);
        let ry2 = div_i64(sy2, n);
        proof {
            lemma_tdiv_magnitude(sx1 as int, n as int, COORD_MAX as int);
            lemma_tdiv_magnitude(sy1 as int, n as int, COORD_MAX as int);
            lemma_tdiv_magnitude(sx2 as int, n as int, COORD_MAX as int);
            lemma_tdiv_magnitude(sy2 as int, n as int, COORD_MAX as int);
        }
        Option::Some(Line { x1: rx1, y1: ry1, x2: rx2, y2: ry2 })
    }

    /// One coordinate of the exponential blend, executable.
    fn smooth_val(alpha: i64, new: i64, prev: i64) -> (r: i64)
        requires
            0 <= alpha <= 1000,
            coord_ok(new as int),
            coord_ok(prev as int),
        ensures
            r == smooth_coord(alpha as int, new as int, prev as int),
            coord_ok(r as int),
    {
        proof {
            lemma_smooth_coord_between(alpha as int, new as int, prev as int);
        }
        if prev >= new {
            let d = prev - new;
            let q = (alpha * d) / 1000;
            prev - q
        } else {
            let d = new - prev;
            let q = (alpha * d) / 1000;
            prev + q
        }
    }

    /// Exponential blend of a new raw line into the previous smoothed
    /// line, per coordinate.
    fn smooth(alpha: i64, new_l: Line, old_l: Line) -> (r: Line)
        requires
            0 <= alpha <= 1000,
            new_l.wf(),
            old_l.wf(),
        ensures
            r == spec_smooth_line(alpha as int, new_l, old_l),
            r.wf(),
    {
        Line {
            x1: Self::smooth_val(alpha, new_l.x1, old_l.x1),
            y1: Self::smooth_val(alpha, new_l.y1, old_l.y1),
            x2: Self::smooth_val(alpha, new_l.x2, old_l.x2),
            y2: Self::smooth_val(alpha, new_l.y2, old_l.y2),
        }
    }

    /// One frame of lane-boundary smoothing.  Raw lines are partitioned
    /// by the midpoint of their x span against the frame center,
    /// averaged per side, and blended into the stored state; a side with
    /// no raw line this frame is left exactly as it was.  Returns the
    /// smoothed pair after the update.
    pub fn update_lines(&mut self, raw_lines: Vec<Line>, img_width: i64) -> (r: (
        Option<Line>,
        Option<Line>,
    ))
        requires
            old(self).wf(),
            forall|i: int| 0 <= i < raw_lines@.len() ==> (#[trigger] raw_lines@[i]).wf(),
            raw_lines@.len() <= 0x4000_0000,
            0 <= img_width <= COORD_MAX,
        ensures
            final(self).wf(),
            final(self).smoothing_milli == old(self).smoothing_milli,
            final(self).road_type == old(self).road_type,
            final(self).prev_left == spec_update_side(
                old(self).prev_left,
                side_lines(raw_lines@, img_width as int, true),
                old(self).smoothing_milli as int,
            ),
            final(self).prev_right == spec_update_side(
                old(self).prev_right,
                side_lines(raw_lines@, img_width as int, false),
                old(self).smoothing_milli as int,
            ),
            r == (final(self).prev_left, final(self).prev_right),
            raw_lines@.len() == 0 ==> final(self).prev_left == old(self).prev_left
                && final(self).prev_right == old(self).prev_right,
    {
        let mut lefts: Vec<Line> = Vec::new();
        let mut rights: Vec<Line> = Vec::new();
        let mut i: usize = 0;
        while i < raw_lines.len()
            invariant
                0 <= i <= raw_lines@.len(),
                forall|k: int| 0 <= k < raw_lines@.len() ==> (#[trigger] raw_lines@[k]).wf(),
                0 <= img_width <= COORD_MAX,
                lefts@ == side_lines(raw_lines@.take(i as int), img_width as int, true),
                rights@ == side_lines(raw_lines@.take(i as int), img_width as int, false),
            decreases raw_lines@.len() - i,
        {
            let l = raw_lines[i];
            proof {
                assert(raw_lines@.take(i + 1).drop_last() =~= raw_lines@.take(i as int));
                assert(raw_lines@.take(i + 1).last() == raw_lines@[i as int]);
            }
            if l.x1 + l.x2 < img_width {
                lefts.push(l);
            } else {
                rights.push(l);
            }
            i = i + 1;
        }
        proof {
            assert(raw_lines@.take(raw_lines@.len() as int) =~= raw_lines@);
            assert(forall|k: int|
                0 <= k < lefts@.len() ==> (#[trigger] lefts@[k]).wf()) by {
                lemma_side_lines_wf(raw_lines@, img_width as int, true);
            }
            assert(forall|k: int|
                0 <= k < rights@.len() ==> (#[trigger] rights@[k]).wf()) by {
                lemma_side_lines_wf(raw_lines@, img_width as int, false);
            }
            lemma_side_lines_len(raw_lines@, img_width as int, true);
            lemma_side_lines_len(raw_lines@, img_width as int, false);
        }
        if let Option::Some(avg_l) = Self::average_lines(&lefts) {
            self.prev_left = Option::Some(
                match self.prev_left {
                    Option::Some(p) => Self::smooth(self.smoothing_milli, avg_l, p),
                    Option::None => avg_l,
                },
            );
        }
        if let Option::Some(avg_r) = Self::average_lines(&rights) {
            self.prev_right = Option::Some(
                match self.prev_right {
                    Option::Some(p) => Self::smooth(self.smoothing_milli, avg_r, p),
                    Option::None => avg_r,
                },
            );
        }
        (self.prev_left, self.prev_right)
    }
}

/// The x position of `l` at height `y`, by linear interpolation
/// `x1 + (y - y1) * (x2 - x1) / (y2 - y1)`; a horizontal line falls back
/// to `x1` to avoid the vanishing denominator.
pub open spec fn spec_x_on_line(l: Line, y: int) -> int {
    if l.y2 == l.y1 {
        l.x1 as int
    } else {
        l.x1 + tdiv((y - l.y1) * (l.x2 - l.x1), l.y2 - l.y1)
    }
}

/// Magnitude bound for the projected x position on a well-formed line.
pub proof fn lemma_x_on_line_bound(l: Line, y: int)
    requires
        l.wf(),
        -2 * COORD_MAX <= y <= 2 * COORD_MAX,
    ensures
        abs_int(spec_x_on_line(l, y)) < 0x10_0000_0000_0000,
{
    if l.y2 != l.y1 {
        let num = (y - l.y1) * (l.x2 - l.x1);
        let den = l.y2 - l.y1;
        assert(-6 * COORD_MAX * COORD_MAX <= num <= 6 * COORD_MAX * COORD_MAX)
            by (nonlinear_arith)
            requires
                num == (y - l.y1) * (l.x2 - l.x1),
                -3 * COORD_MAX <= y - l.y1 <= 3 * COORD_MAX,
                -2 * COORD_MAX <= l.x2 - l.x1 <= 2 * COORD_MAX,
        ;
        crate::geometry::lemma_tdiv_bounds(num, den);
    }
}

/// Doubled x center of a detection: `2 * (x + w / 2)`, exactly.
pub open spec fn det_cx2(b: BBox) -> int {
    2 * b.x + b.w
}

/// Bottom edge of a detection: `y + h`.
pub open spec fn det_bottom(b: BBox) -> int {
    b.y + b.h
}

/// Whether a detection's center is strictly inside the ego lane, a 10 px
/// margin inside both projected boundaries.  `cx2` is the doubled center.
pub open spec fn spec_is_ego(lx: int, rx: int, cx2: int) -> bool {
    cx2 > 2 * lx + 20 && cx2 < 2 * rx - 20
}

/// Whether a detection is lane-relevant at all.  Highway widens both
/// sides by 1.5 lane widths; Twoway keeps a tight 10 px left margin and
/// the widened right bound.  `cx2` is the doubled center, so each bound
/// is compared exactly, with no rounding.
pub open spec fn spec_keep(road: RoadType, lx: int, rx: int, cx2: int) -> bool {
    let wdt = rx - lx;
    match road {
        RoadType::Highway => 2 * lx - 3 * wdt <= cx2 <= 2 * rx + 3 * wdt,
        RoadType::Twoway => 2 * lx - 20 <= cx2 <= 2 * rx + 3 * wdt,
    }
}

/// Every detection annotated `false`: the fail-open path taken while a
/// boundary is still unknown.
pub open spec fn spec_mark_all(dets: Seq<BBox>) -> Seq<LaneObject>
    decreases dets.len(),
{
    if dets.len() == 0 {
        Seq::empty()
    } else {
        spec_mark_all(dets.drop_last()).push(
            LaneObject { bbox: dets.last(), is_in_ego_lane: false },
        )
    }
}

/// The kept detections, in order, each annotated with its ego-lane flag,
/// classified against the two projected boundaries at its bottom edge.
pub open spec fn spec_filter_lane(ll: Line, rl: Line, road: RoadType, dets: Seq<BBox>) -> Seq<
    LaneObject,
>
    decreases dets.len(),
{
    if dets.len() == 0 {
        Seq::empty()
    } else {
        let rest = spec_filter_lane(ll, rl, road, dets.drop_last());
        let b = dets.last();
        let lx = spec_x_on_line(ll, det_bottom(b));
        let rx = spec_x_on_line(rl, det_bottom(b));
        if spec_keep(road, lx, rx, det_cx2(b)) {
            rest.push(LaneObject { bbox: b, is_in_ego_lane: spec_is_ego(lx, rx, det_cx2(b)) })
        } else {
            rest
        }
    }
}

/// What `filter_objects` returns for a given manager state.
pub open spec fn spec_filter_objects(m: LaneManager, dets: Seq<BBox>) -> Seq<LaneObject> {
    match (m.prev_left, m.prev_right) {
        (Option::Some(ll), Option::Some(rl)) => spec_filter_lane(ll, rl, m.road_type, dets),
        _ => spec_mark_all(dets),
    }
}

impl LaneManager {
    /// Executable linear interpolation of the x position at height `y`.
    pub fn get_x_on_line(line: Line, y: i64) -> (r: i64)
        requires
            line.wf(),
            -2 * COORD_MAX <= y <= 2 * COORD_MAX,
        ensures
            r == spec_x_on_line(line, y as int),
            abs_int(r as int) < 0x10_0000_0000_0000,
    {
        proof {
            lemma_x_on_line_bound(line, y as int);
        }
        if line.y2 == line.y1 {
            return line.x1;
        }
        proof {
            assert(-6 * COORD_MAX * COORD_MAX <= (y - line.y1) * (line.x2 - line.x1) <= 6
                * COORD_MAX * COORD_MAX) by (nonlinear_arith)
                requires
                    -3 * COORD_MAX <= y - line.y1 <= 3 * COORD_MAX,
                    -2 * COORD_MAX <= line.x2 - line.x1 <= 2 * COORD_MAX,
            ;
        }
        let num = (y - line.y1) * (line.x2 - line.x1);
        let den = line.y2 - line.y1;
        proof {
            crate::geometry::lemma_tdiv_bounds(num as int, den as int);
        }
        line.x1 + div_i64(num, den)
    }

    /// Classify each detection against the smoothed boundaries.  While
    /// either boundary is still unknown every detection passes through
    /// annotated "not in ego lane"; otherwise detections outside the
    /// road-type bounds are dropped and the rest are annotated with the
    /// strict ego-lane test.
    pub fn filter_objects(&self, detections: Vec<BBox>) -> (r: Vec<LaneObject>)
        requires
            self.wf(),
            forall|i: int| 0 <= i < detections@.len() ==> (#[trigger] detections@[i]).wf(),
        ensures
            r@ == spec_filter_objects(*self, detections@),
    {
        let mut out: Vec<LaneObject> = Vec::new();
        match (self.prev_left, self.prev_right) {
            (Option::Some(ll), Option::Some(rl)) => {
                let road = self.road_type;
                let mut i: usize = 0;
                while i < detections.len()
                    invariant
                        0 <= i <= detections@.len(),
                        forall|k: int|
                            0 <= k < detections@.len() ==> (#[trigger] detections@[k]).wf(),
                        ll.wf(),
                        rl.wf(),
                        out@ == spec_filter_lane(ll, rl, road, detections@.take(i as int)),
                    decreases detections@.len() - i,
                {
                    let b = detections[i];
                    proof {
                        assert(detections@.take(i + 1).drop_last() =~= detections@.take(i as int));
                        assert(detections@.take(i + 1).last() == detections@[i as int]);
                    }
                    let cx2 = 2 * b.x + b.w;
                    let bottom = b.y + b.h;
                    let lx = Self::get_x_on_line(ll, bottom);
                    let rx = Self::get_x_on_line(rl, bottom);
                    let wdt = rx - lx;
                    let (min2, max2) = match road {
                        RoadType::Highway => (2 * lx - 3 * wdt, 2 * rx + 3 * wdt),
                        RoadType::Twoway => (2 * lx - 20, 2 * rx + 3 * wdt),
                    };
                    if cx2 >= min2 && cx2 <= max2 {
                        let is_ego = cx2 > 2 * lx + 20 && cx2 < 2 * rx - 20;
                        out.push(LaneObject { bbox: b, is_in_ego_lane: is_ego });
                    }
                    i = i + 1;
                }
                proof {
                    assert(detections@.take(detections@.len() as int) =~= detections@);
                }
            },
            _ => {
                let mut i: usize = 0;
                while i < detections.len()
                    invariant
                        0 <= i <= detections@.len(),
                        out@ == spec_mark_all(detections@.take(i as int)),
                    decreases detections@.len() - i,
                {
                    let b = detections[i];
                    proof {
                        assert(detections@.take(i + 1).drop_last() =~= detections@.take(i as int));
                        assert(detections@.take(i + 1).last() == detections@[i as int]);
                    }
                    out.push(LaneObject { bbox: b, is_in_ego_lane: false });
                    i = i + 1;
                }
                proof {
                    assert(detections@.take(detections@.len() as int) =~= detections@);
                }
            },
        }
        out
    }
}

/// The average of a single line is that line.
pub proof fn lemma_average_singleton(l: Line)
    requires
        l.wf(),
    ensures
        spec_average(seq![l]) == l,
{
    reveal_with_fuel(sum_of, 2);
    let s = seq![l];
    assert(s.drop_last() =~= Seq::<Line>::empty());
    vstd::arithmetic::div_mod::lemma_div_by_self(1);
    assert(tdiv(l.x1 as int, 1) == l.x1) by {
        vstd::arithmetic::div_mod::lemma_div_basics(abs_int(l.x1 as int));
    }
    assert(tdiv(l.y1 as int, 1) == l.y1) by {
        vstd::arithmetic::div_mod::lemma_div_basics(abs_int(l.y1 as int));
    }
    assert(tdiv(l.x2 as int, 1) == l.x2) by {
        vstd::arithmetic::div_mod::lemma_div_basics(abs_int(l.x2 as int));
    }
    assert(tdiv(l.y2 as int, 1) == l.y2) by {
        vstd::arithmetic::div_mod::lemma_div_basics(abs_int(l.y2 as int));
    }
}

/// Repeated updates with the same single raw line approach that line
/// monotonically: each frame's smoothed boundary lies between the raw
/// line and the previous smoothed value in every coordinate, so its
/// distance to the raw line never grows, and it strictly shrinks while
/// the scaled step `alpha * distance` is at least one whole unit; once
/// the smoothed value equals the raw line it stays there exactly.
pub proof fn lemma_smoothing_approaches(alpha: int, raw: Line, prev: Line)
    requires
        0 <= alpha <= 1000,
        raw.wf(),
        prev.wf(),
    ensures
        spec_update_side(Option::Some(prev), seq![raw], alpha) == Option::Some(
            spec_smooth_line(alpha, raw, prev),
        ),
        abs_int(spec_smooth_line(alpha, raw, prev).x1 - raw.x1) <= abs_int(prev.x1 - raw.x1),
        abs_int(spec_smooth_line(alpha, raw, prev).y1 - raw.y1) <= abs_int(prev.y1 - raw.y1),
        abs_int(spec_smooth_line(alpha, raw, prev).x2 - raw.x2) <= abs_int(prev.x2 - raw.x2),
        abs_int(spec_smooth_line(alpha, raw, prev).y2 - raw.y2) <= abs_int(prev.y2 - raw.y2),
        alpha * abs_int(prev.x1 - raw.x1) >= 1000 ==> abs_int(
            spec_smooth_line(alpha, raw, prev).x1 - raw.x1,
        ) < abs_int(prev.x1 - raw.x1),
        alpha * abs_int(prev.x2 - raw.x2) >= 1000 ==> abs_int(
            spec_smooth_line(alpha, raw, prev).x2 - raw.x2,
        ) < abs_int(prev.x2 - raw.x2),
        alpha * abs_int(prev.y1 - raw.y1) >= 1000 ==> abs_int(
            spec_smooth_line(alpha, raw, prev).y1 - raw.y1,
        ) < abs_int(prev.y1 - raw.y1),
        alpha * abs_int(prev.y2 - raw.y2) >= 1000 ==> abs_int(
            spec_smooth_line(alpha, raw, prev).y2 - raw.y2,
        ) < abs_int(prev.y2 - raw.y2),
        prev == raw ==> spec_smooth_line(alpha, raw, prev) == raw,
        spec_update_side(Option::Some(raw), seq![raw], alpha) == Option::Some(raw),
{
    lemma_average_singleton(raw);
    assert(seq![raw].len() == 1);
    lemma_smooth_coord_between(alpha, raw.x1 as int, prev.x1 as int);
    lemma_smooth_coord_between(alpha, raw.y1 as int, prev.y1 as int);
    lemma_smooth_coord_between(alpha, raw.x2 as int, prev.x2 as int);
    lemma_smooth_coord_between(alpha, raw.y2 as int, prev.y2 as int);
}

/// A frame with no raw line on a side leaves that side's smoothed state
/// exactly as it was: absent input never drifts the lane estimate.
pub proof fn lemma_absent_input_keeps_state(prev: Option<Line>, alpha: int)
    ensures
        spec_update_side(prev, Seq::<Line>::empty(), alpha) == prev,
{
}

pub proof fn lemma_side_lines_wf(s: Seq<Line>, img_width: int, left: bool)
    requires
        forall|i: int| 0 <= i < s.len() ==> (#[trigger] s[i]).wf(),
    ensures
        forall|i: int|
            0 <= i < side_lines(s, img_width, left).len() ==> (#[trigger] side_lines(
                s,
                img_width,
                left,
            )[i]).wf(),
    decreases s.len(),
{
    if s.len() > 0 {
        assert(forall|i: int| 0 <= i < s.drop_last().len() ==> (#[trigger] s.drop_last()[i]).wf());
        lemma_side_lines_wf(s.drop_last(), img_width, left);
        let rest = side_lines(s.drop_last(), img_width, left);
        let r = side_lines(s, img_width, left);
        if is_left_line(s.last(), img_width) == left {
            assert(r == rest.push(s.last()));
            assert(s.last() == s[s.len() - 1]);
            assert forall|i: int| 0 <= i < r.len() implies (#[trigger] r[i]).wf() by {
                if i < rest.len() {
                    assert(r[i] == rest[i]);
                } else {
                    assert(r[i] == s.last());
                }
            }
        } else {
            assert(r == rest);
        }
    }
}

pub proof fn lemma_side_lines_len(s: Seq<Line>, img_width: int, left: bool)
    ensures
        side_lines(s, img_width, left).len() <= s.len(),
    decreases s.len(),
{
    if s.len() > 0 {
        lemma_side_lines_len(s.drop_last(), img_width, left);
    }
}

} // verus!
