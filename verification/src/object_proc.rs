//! Frame-to-frame object tracking: greedy nearest-centroid identity
//! assignment plus kinematic estimation.
//!
//! Units are exact integers: pixel coordinates for boxes, millimeters
//! for distance, millimeters per second for speed, and milliseconds for
//! time.  A detection takes over the existing track whose centroid is
//! nearest to its own, provided the squared centroid distance is under
//! the gating threshold; detections come in input order and each track can
//! be matched at most once per frame.  Unmatched tracks are dropped.
use vstd::prelude::*;

use crate::geometry::{abs_int, div_i64, tdiv, BBox, COORD_MAX};

verus! {

/// Focal length of the pinhole distance model, in pixels.
pub const FOCAL_LENGTH_PX: i64 = 700;

/// Assumed real width of a tracked object, in millimeters.
pub const REAL_WIDTH_MM: i64 = 1800;

/// Distance reported for boxes too narrow to divide by, in millimeters.
pub const FAR_DISTANCE_MM: i64 = 100_000;

/// Largest distance the model can produce, in millimeters.
pub const MAX_DISTANCE_MM: i64 = 630_000;

/// Matching gate: squared centroid distance strictly under 10000 px^2.
/// Centroids are kept doubled to stay exact, which scales the squared
/// distance by 4.
pub const GATE_SQ4: i64 = 40_000;

/// Closing speeds at or below this bound (0.1 m/s) report the sentinel
/// time-to-collision.
pub const MIN_CLOSING_SPEED_MM_S: i64 = 100;

/// The "no imminent collision" sentinel, in milliseconds.
pub const TTC_SENTINEL_MS: i64 = 99_000;

/// One tracked object: a stable id, the last matched box, and the
/// kinematic estimates of the frame it was last updated.
#[derive(Clone, Copy, PartialEq, Eq, Structural, Debug)]
pub struct TrackedObject {
    pub id: usize,
    pub bbox: BBox,
    pub distance_mm: i64,
    pub speed_mm_s: i64,
    pub collision_time_ms: i64,
    pub lost_frames: usize,
}

/// Tracker state: the id counter and the live tracks, in the order they
/// were produced last frame.
pub struct ObjectTracker {
    pub next_id: usize,
    pub objects: Vec<TrackedObject>,
}

/// Pinhole distance from box width: `700 px * 1800 mm / w`, floored to
/// `100_000` mm for boxes of width <= 1 px.
pub open spec fn spec_distance(w: int) -> int {
    if w <= 1 {
        FAR_DISTANCE_MM as int
    } else {
        tdiv(FOCAL_LENGTH_PX * REAL_WIDTH_MM, w)
    }
}

/// Closing speed from the distance change over `dt_ms`.
pub open spec fn spec_speed(prev_mm: int, cur_mm: int, dt_ms: int) -> int {
    tdiv((prev_mm - cur_mm) * 1000, dt_ms)
}

/// Time to collision: distance over speed while closing faster than the
/// minimum, the sentinel otherwise.
pub open spec fn spec_ttc(cur_mm: int, speed_mm_s: int) -> int {
    if speed_mm_s > MIN_CLOSING_SPEED_MM_S {
        tdiv(cur_mm * 1000, speed_mm_s)
    } else {
        TTC_SENTINEL_MS as int
    }
}

/// Squared distance between the centroids of two boxes, with doubled
/// centroids (`2cx = 2x + w`), so four times the squared pixel distance.
pub open spec fn centroid_err4(a: BBox, b: BBox) -> int {
    let dx = (2 * a.x + a.w) - (2 * b.x + b.w);
    let dy = (2 * a.y + a.h) - (2 * b.y + b.h);
    dx * dx + dy * dy
}

/// The index of the track a detection matches: the first index attaining
/// the least squared centroid distance among those under the gating
/// threshold.
pub open spec fn best_match(objs: Seq<TrackedObject>, d: BBox) -> Option<int>
    decreases objs.len(),
{
    if objs.len() == 0 {
        Option::None
    } else {
        let prev = best_match(objs.drop_last(), d);
        let last_err = centroid_err4(objs.last().bbox, d);
        match prev {
            Option::None => if last_err < GATE_SQ4 {
                Option::Some(objs.len() - 1)
            } else {
                Option::None
            },
            Option::Some(i) => if last_err < centroid_err4(objs[i].bbox, d) {
                Option::Some(objs.len() - 1)
            } else {
                Option::Some(i)
            },
        }
    }
}

/// What `best_match` guarantees: a matched index is in range, under the
/// gate, minimal, and the first among the minima; no match means every
/// track is at or beyond the gating threshold.
pub proof fn lemma_best_match_props(objs: Seq<TrackedObject>, d: BBox)
    ensures
        match best_match(objs, d) {
            Option::Some(i) => 0 <= i < objs.len() && centroid_err4(objs[i].bbox, d) < GATE_SQ4
                && (forall|k: int|
                0 <= k < objs.len() ==> #[trigger] centroid_err4(objs[k].bbox, d) >= centroid_err4(
                    objs[i].bbox,
                    d,
                )) && (forall|k: int|
                0 <= k < i ==> #[trigger] centroid_err4(objs[k].bbox, d) > centroid_err4(
                    objs[i].bbox,
                    d,
                )),
            Option::None => forall|k: int|
                0 <= k < objs.len() ==> #[trigger] centroid_err4(objs[k].bbox, d) >= GATE_SQ4,
        },
    decreases objs.len(),
{
    if objs.len() > 0 {
        lemma_best_match_props(objs.drop_last(), d);
        assert(objs.last() == objs[objs.len() - 1]);
        assert(forall|k: int| 0 <= k < objs.len() - 1 ==> objs.drop_last()[k] == objs[k]);
    }
}

/// One detection against the working state: the matched track (if any)
/// is consumed from `objs` and carried forward under its id with fresh
/// kinematics; otherwise a new track is created under `nid` with zero
/// speed and the sentinel time-to-collision.  Returns the tracks left
/// for later detections, the id counter, and the produced track.
pub open spec fn spec_step(objs: Seq<TrackedObject>, nid: int, d: BBox, dt_ms: int) -> (
    Seq<TrackedObject>,
    int,
    TrackedObject,
) {
    let cur = spec_distance(d.w as int);
    match best_match(objs, d) {
        Option::Some(i) => {
            let prev = objs[i];
            let sp = spec_speed(prev.distance_mm as int, cur, dt_ms);
            let t = TrackedObject {
                id: prev.id,
                bbox: d,
                distance_mm: cur as i64,
                speed_mm_s: sp as i64,
                collision_time_ms: spec_ttc(cur, sp) as i64,
                lost_frames: 0,
            };
            (objs.remove(i), nid, t)
        },
        Option::None => {
            let t = TrackedObject {
                id: nid as usize,
                bbox: d,
                distance_mm: cur as i64,
                speed_mm_s: 0,
                collision_time_ms: TTC_SENTINEL_MS,
                lost_frames: 0,
            };
            (objs, nid + 1, t)
        },
    }
}

/// A whole frame folded left over the detections: the tracks still
/// unmatched, the id counter, and the produced tracks in detection
/// order.  The produced tracks replace the table.
pub open spec fn spec_process(
    objs: Seq<TrackedObject>,
    nid: int,
    dets: Seq<BBox>,
    dt_ms: int,
) -> (Seq<TrackedObject>, int, Seq<TrackedObject>)
    decreases dets.len(),
{
    if dets.len() == 0 {
        (objs, nid, Seq::empty())
    } else {
        let st = spec_process(objs, nid, dets.drop_last(), dt_ms);
        let stepped = spec_step(st.0, st.1, dets.last(), dt_ms);
        (stepped.0, stepped.1, st.2.push(stepped.2))
    }
}

impl ObjectTracker {
    /// Every stored box is well-formed and every stored distance is one
    /// the distance model can produce.
    pub open spec fn items_ok(s: Seq<TrackedObject>) -> bool {
        forall|i: int|
            0 <= i < s.len() ==> ((#[trigger] s[i]).bbox.wf() && 0 <= s[i].distance_mm
                <= MAX_DISTANCE_MM)
    }

    /// No two live tracks share an id.
    pub open spec fn ids_distinct(s: Seq<TrackedObject>) -> bool {
        forall|i: int, j: int|
            0 <= i < j < s.len() ==> #[trigger] s[i].id != #[trigger] s[j].id
    }

    /// Every live id is below the counter, so the counter never reissues
    /// one.
    pub open spec fn ids_below(s: Seq<TrackedObject>, n: int) -> bool {
        forall|i: int| 0 <= i < s.len() ==> (#[trigger] s[i].id as int) < n
    }

    pub open spec fn wf(self) -> bool {
        &&& Self::items_ok(self.objects@)
        &&& Self::ids_distinct(self.objects@)
        &&& Self::ids_below(self.objects@, self.next_id as int)
    }

    /// An empty tracker: no tracks, ids start at zero.
    pub fn new() -> (t: ObjectTracker)
        ensures
            t.next_id == 0,
            t.objects@ == Seq::<TrackedObject>::empty(),
            t.wf(),
    {
        let t = ObjectTracker { next_id: 0, objects: Vec::new() };
        proof {
            assert(t.objects@ =~= Seq::<TrackedObject>::empty());
        }
        t
    }

    /// Executable pinhole distance estimate.
    pub fn calc_distance(bbox_width: i64) -> (r: i64)
        requires
            crate::geometry::coord_ok(bbox_width as int),
        ensures
            r == spec_distance(bbox_width as int),
            0 <= r <= MAX_DISTANCE_MM,
    {
        if bbox_width <= 1 {
            return FAR_DISTANCE_MM;
        }
        proof {
            crate::geometry::lemma_tdiv_bounds(
                (FOCAL_LENGTH_PX * REAL_WIDTH_MM) as int,
                bbox_width as int,
            );
            crate::lane_manager::lemma_tdiv_magnitude(
                (FOCAL_LENGTH_PX * REAL_WIDTH_MM) as int,
                2,
                MAX_DISTANCE_MM as int,
            );
            vstd::arithmetic::div_mod::lemma_div_is_ordered_by_denominator(
                (FOCAL_LENGTH_PX * REAL_WIDTH_MM) as int,
                2,
                bbox_width as int,
            );
        }
        div_i64(FOCAL_LENGTH_PX * REAL_WIDTH_MM, bbox_width)
    }

    /// Executable squared centroid distance (doubled centroids).
    fn centroid_err(a: BBox, b: BBox) -> (r: i64)
        requires
            a.wf(),
            b.wf(),
        ensures
            r == centroid_err4(a, b),
            r >= 0,
    {
        proof {
            assert((2 * a.x + a.w - (2 * b.x + b.w)) * (2 * a.x + a.w - (2 * b.x + b.w)) >= 0
                && (2 * a.x + a.w - (2 * b.x + b.w)) * (2 * a.x + a.w - (2 * b.x + b.w)) <= (6
                * COORD_MAX) * (6 * COORD_MAX)) by (nonlinear_arith)
                requires
                    -6 * COORD_MAX <= 2 * a.x + a.w - (2 * b.x + b.w) <= 6 * COORD_MAX,
            ;
            assert((2 * a.y + a.h - (2 * b.y + b.h)) * (2 * a.y + a.h - (2 * b.y + b.h)) >= 0
                && (2 * a.y + a.h - (2 * b.y + b.h)) * (2 * a.y + a.h - (2 * b.y + b.h)) <= (6
                * COORD_MAX) * (6 * COORD_MAX)) by (nonlinear_arith)
                requires
                    -6 * COORD_MAX <= 2 * a.y + a.h - (2 * b.y + b.h) <= 6 * COORD_MAX,
            ;
        }
        let dx = (2 * a.x + a.w) - (2 * b.x + b.w);
        let dy = (2 * a.y + a.h) - (2 * b.y + b.h);
        dx * dx + dy * dy
    }

    /// One frame of tracking.  Detections are processed in input order:
    /// each matches the nearest still-unmatched track within the gating
    /// threshold and
    /// carries its id forward with fresh distance, closing speed, and
    /// time-to-collision, or starts a new track under the next id.  The
    /// track table is replaced by the produced tracks, which are also
    /// returned, one per detection, in detection order.
    pub fn process_frame(&mut self, detections: Vec<BBox>, dt_ms: i64) -> (r: Vec<
        TrackedObject,
    >)
        requires
            old(self).wf(),
            dt_ms > 0,
            forall|i: int| 0 <= i < detections@.len() ==> (#[trigger] detections@[i]).wf(),
            old(self).next_id + detections@.len() <= usize::MAX,
        ensures
            final(self).wf(),
            ({
                let st = spec_process(
                    old(self).objects@,
                    old(self).next_id as int,
                    detections@,
                    dt_ms as int,
                );
                &&& final(self).objects@ == st.2
                &&& final(self).next_id as int == st.1
                &&& r@ == st.2
            }),
            final(self).next_id >= old(self).next_id,
            r@.len() == detections@.len(),
    {
        let ghost objs0 = self.objects@;
        let ghost nid0 = self.next_id as int;
        let mut remaining: Vec<TrackedObject> = Vec::new();
        let mut k: usize = 0;
        while k < self.objects.len()
            invariant
                0 <= k <= self.objects@.len(),
                self.objects@ == objs0,
                remaining@ == objs0.take(k as int),
            decreases self.objects@.len() - k,
        {
            let o = self.objects[k];
            proof {
                assert(objs0.take(k + 1).drop_last() =~= objs0.take(k as int));
                assert(objs0.take(k + 1) =~= objs0.take(k as int).push(objs0[k as int]));
            }
            remaining.push(o);
            k = k + 1;
        }
        proof {
            assert(objs0.take(objs0.len() as int) =~= objs0);
        }
        let mut produced: Vec<TrackedObject> = Vec::new();
        let mut ret: Vec<TrackedObject> = Vec::new();
        let mut i: usize = 0;
        proof {
            assert(detections@.take(0) =~= Seq::<BBox>::empty());
        }
        while i < detections.len()
            invariant
                0 <= i <= detections@.len(),
                dt_ms > 0,
                forall|k2: int| 0 <= k2 < detections@.len() ==> (#[trigger] detections@[k2]).wf(),
                Self::items_ok(objs0),
                Self::ids_distinct(objs0),
                Self::ids_below(objs0, nid0),
                0 <= nid0,
                nid0 + detections@.len() <= usize::MAX,
                ({
                    let st = spec_process(objs0, nid0, detections@.take(i as int), dt_ms as int);
                    &&& remaining@ == st.0
                    &&& self.next_id as int == st.1
                    &&& produced@ == st.2
                    &&& ret@ == st.2
                }),
            decreases detections@.len() - i,
        {
            let ghost st_i = spec_process(objs0, nid0, detections@.take(i as int), dt_ms as int);
            proof {
                lemma_process_props(objs0, nid0, detections@.take(i as int), dt_ms as int);
                assert(detections@.take(i as int).len() == i);
                assert(detections@.take(i + 1).drop_last() =~= detections@.take(i as int));
                assert(detections@.take(i + 1).last() == detections@[i as int]);
            }
            let b = detections[i];
            let mut best: Option<usize> = Option::None;
            let mut best_err: i64 = 0;
            let mut j: usize = 0;
            proof {
                assert(remaining@.take(0) =~= Seq::<TrackedObject>::empty());
            }
            while j < remaining.len()
                invariant
                    0 <= j <= remaining@.len(),
                    Self::items_ok(remaining@),
                    b.wf(),
                    match best {
                        Option::None => best_match(remaining@.take(j as int), b)
                            == Option::<int>::None,
                        Option::Some(bi) => (bi as int) < j && best_match(
                            remaining@.take(j as int),
                            b,
                        ) == Option::Some(bi as int) && best_err == centroid_err4(
                            remaining@[bi as int].bbox,
                            b,
                        ) && best_err < GATE_SQ4,
                    },
                decreases remaining@.len() - j,
            {
                let o = remaining[j];
                let err = Self::centroid_err(o.bbox, b);
                proof {
                    assert(remaining@.take(j + 1).drop_last() =~= remaining@.take(j as int));
                    assert(remaining@.take(j + 1).last() == remaining@[j as int]);
                    if let Option::Some(bi) = best {
                        assert(remaining@.take(j + 1)[bi as int] == remaining@[bi as int]);
                    }
                }
                let better = match best {
                    Option::None => err < GATE_SQ4,
                    Option::Some(_) => err < best_err,
                };
                if better {
                    best = Option::Some(j);
                    best_err = err;
                }
                j = j + 1;
            }
            proof {
                assert(remaining@.take(remaining@.len() as int) =~= remaining@);
            }
            let cur = Self::calc_distance(b.w);
            match best {
                Option::Some(idx) => {
                    proof {
                        lemma_best_match_props(remaining@, b);
                    }
                    let prev = remaining[idx];
                    proof {
                        lemma_speed_range(prev.distance_mm as int, cur as int, dt_ms as int);
                        crate::geometry::lemma_tdiv_bounds(
                            (prev.distance_mm - cur) * 1000,
                            dt_ms as int,
                        );
                    }
                    let speed = div_i64((prev.distance_mm - cur) * 1000, dt_ms);
                    let ttc = if speed > MIN_CLOSING_SPEED_MM_S {
                        proof {
                            crate::geometry::lemma_tdiv_bounds(cur as int * 1000, speed as int);
                        }
                        div_i64(cur * 1000, speed)
                    } else {
                        TTC_SENTINEL_MS
                    };
                    let t = TrackedObject {
                        id: prev.id,
                        bbox: b,
                        distance_mm: cur,
                        speed_mm_s: speed,
                        collision_time_ms: ttc,
                        lost_frames: 0,
                    };
                    produced.push(t);
                    ret.push(t);
                    remaining.remove(idx);
                    proof {
                        let stepped = spec_step(st_i.0, st_i.1, detections@[i as int], dt_ms as int);
                        assert(stepped.2 == t);
                        assert(remaining@ == stepped.0);
                    }
                },
                Option::None => {
                    let id = self.next_id;
                    self.next_id = self.next_id + 1;
                    let t = TrackedObject {
                        id,
                        bbox: b,
                        distance_mm: cur,
                        speed_mm_s: 0,
                        collision_time_ms: TTC_SENTINEL_MS,
                        lost_frames: 0,
                    };
                    produced.push(t);
                    ret.push(t);
                    proof {
                        let stepped = spec_step(st_i.0, st_i.1, detections@[i as int], dt_ms as int);
                        assert(stepped.2 == t);
                    }
                },
            }
            i = i + 1;
        }
        proof {
            assert(detections@.take(detections@.len() as int) =~= detections@);
            lemma_process_props(objs0, nid0, detections@, dt_ms as int);
        }
        self.objects = produced;
        ret
    }
}

/// The distance model stays within its documented range, and the
/// kinematic values fit comfortably in `i64`.
pub proof fn lemma_distance_range(w: int)
    ensures
        0 <= spec_distance(w) <= MAX_DISTANCE_MM,
{
    if w > 1 {
        crate::geometry::lemma_tdiv_bounds((FOCAL_LENGTH_PX * REAL_WIDTH_MM) as int, w);
        crate::lane_manager::lemma_tdiv_magnitude(
            (FOCAL_LENGTH_PX * REAL_WIDTH_MM) as int,
            2,
            MAX_DISTANCE_MM as int,
        );
        vstd::arithmetic::div_mod::lemma_div_is_ordered_by_denominator(
            (FOCAL_LENGTH_PX * REAL_WIDTH_MM) as int,
            2,
            w,
        );
    }
}

/// Range of the closing speed for distances the model can produce.
pub proof fn lemma_speed_range(prev_mm: int, cur_mm: int, dt_ms: int)
    requires
        dt_ms > 0,
        0 <= prev_mm <= MAX_DISTANCE_MM,
        0 <= cur_mm <= MAX_DISTANCE_MM,
    ensures
        abs_int(spec_speed(prev_mm, cur_mm, dt_ms)) <= 1_000_000_000,
{
    crate::geometry::lemma_tdiv_bounds((prev_mm - cur_mm) * 1000, dt_ms);
    assert(abs_int((prev_mm - cur_mm) * 1000) <= 1_000_000_000) by (nonlinear_arith)
        requires
            -1_000_000 <= prev_mm - cur_mm <= 1_000_000,
    ;
}


/// Gating correctness: a detection whose centroid is at or beyond the
/// gate from every existing track's centroid never matches.  It always
/// spawns a fresh track under the current counter, with zero speed and
/// the sentinel time-to-collision, and leaves every existing track
/// unmatched.
pub proof fn lemma_gating_spawns_new(objs: Seq<TrackedObject>, nid: int, d: BBox, dt_ms: int)
    requires
        forall|k: int|
            0 <= k < objs.len() ==> centroid_err4((#[trigger] objs[k]).bbox, d) >= GATE_SQ4,
        0 <= nid <= usize::MAX,
    ensures
        best_match(objs, d) == Option::<int>::None,
        spec_step(objs, nid, d, dt_ms).0 == objs,
        spec_step(objs, nid, d, dt_ms).1 == nid + 1,
        spec_step(objs, nid, d, dt_ms).2.id as int == nid,
        spec_step(objs, nid, d, dt_ms).2.speed_mm_s == 0,
        spec_step(objs, nid, d, dt_ms).2.collision_time_ms == TTC_SENTINEL_MS,
    decreases objs.len(),
{
    if objs.len() > 0 {
        assert(forall|k: int|
            0 <= k < objs.drop_last().len() ==> centroid_err4(
                (#[trigger] objs.drop_last()[k]).bbox,
                d,
            ) >= GATE_SQ4) by {
            assert(forall|k: int|
                0 <= k < objs.drop_last().len() ==> objs.drop_last()[k] == objs[k]);
        }
        lemma_gating_spawns_new(objs.drop_last(), nid, d, dt_ms);
        assert(objs.last() == objs[objs.len() - 1]);
    }
}

/// Collision-time sign convention: a receding track (current distance
/// at or above the previous one) reports the sentinel time-to-collision,
/// and the reported time-to-collision is never negative for any closing
/// speed.
pub proof fn lemma_receding_reports_sentinel(prev_mm: int, cur_mm: int, dt_ms: int)
    requires
        dt_ms > 0,
        prev_mm <= cur_mm,
        0 <= cur_mm,
    ensures
        spec_speed(prev_mm, cur_mm, dt_ms) <= 0,
        spec_ttc(cur_mm, spec_speed(prev_mm, cur_mm, dt_ms)) == TTC_SENTINEL_MS,
        forall|sp: int| #[trigger] spec_ttc(cur_mm, sp) >= 0,
{
    assert((prev_mm - cur_mm) * 1000 <= 0) by (nonlinear_arith)
        requires
            prev_mm <= cur_mm,
    ;
    crate::geometry::lemma_tdiv_bounds((prev_mm - cur_mm) * 1000, dt_ms);
    assert forall|sp: int| #[trigger] spec_ttc(cur_mm, sp) >= 0 by {
        if sp > MIN_CLOSING_SPEED_MM_S {
            crate::geometry::lemma_tdiv_bounds(cur_mm * 1000, sp);
        }
    }
}

/// What one step guarantees, given a sound working state: the id
/// counter never moves backward, consumed state stays sound, the
/// produced track carries the detection's box and an in-range distance,
/// a matched id comes from the working state and is no longer in it,
/// and a fresh id is exactly the counter.
pub proof fn lemma_step_props(objs: Seq<TrackedObject>, nid: int, d: BBox, dt_ms: int)
    requires
        ObjectTracker::items_ok(objs),
        ObjectTracker::ids_distinct(objs),
        ObjectTracker::ids_below(objs, nid),
        0 <= nid <= usize::MAX,
        d.wf(),
        dt_ms > 0,
    ensures
        ({
            let st = spec_step(objs, nid, d, dt_ms);
            &&& nid <= st.1 <= nid + 1
            &&& ObjectTracker::items_ok(st.0)
            &&& ObjectTracker::ids_distinct(st.0)
            &&& ObjectTracker::ids_below(st.0, nid)
            &&& st.2.bbox == d
            &&& 0 <= st.2.distance_mm <= MAX_DISTANCE_MM
            &&& (st.2.id as int) < st.1
            &&& (forall|k: int| 0 <= k < st.0.len() ==> (#[trigger] st.0[k].id) != st.2.id)
            &&& (match best_match(objs, d) {
                Option::Some(i) => st.1 == nid && st.2.id == objs[i].id && st.0 == objs.remove(i),
                Option::None => st.1 == nid + 1 && st.2.id as int == nid && st.0 == objs
                    && st.2.speed_mm_s == 0 && st.2.collision_time_ms == TTC_SENTINEL_MS,
            })
        }),
{
    let st = spec_step(objs, nid, d, dt_ms);
    let cur = spec_distance(d.w as int);
    lemma_distance_range(d.w as int);
    lemma_best_match_props(objs, d);
    match best_match(objs, d) {
        Option::Some(i) => {
            let prev = objs[i];
            lemma_speed_range(prev.distance_mm as int, cur, dt_ms);
            objs.remove_ensures(i);
            assert forall|k: int| 0 <= k < st.0.len() implies (#[trigger] st.0[k].id) != st.2.id
            by {
                if k < i {
                    assert(st.0[k] == objs[k]);
                } else {
                    assert(st.0[k] == objs[k + 1]);
                }
            }
            assert(ObjectTracker::items_ok(st.0)) by {
                assert forall|k: int|
                    0 <= k < st.0.len() implies ((#[trigger] st.0[k]).bbox.wf() && 0
                    <= st.0[k].distance_mm <= MAX_DISTANCE_MM) by {
                    if k < i {
                        assert(st.0[k] == objs[k]);
                    } else {
                        assert(st.0[k] == objs[k + 1]);
                    }
                }
            }
            assert(ObjectTracker::ids_distinct(st.0)) by {
                assert forall|p: int, q: int|
                    0 <= p < q < st.0.len() implies (#[trigger] st.0[p].id)
                    != (#[trigger] st.0[q].id) by {
                    let p2: int = if p < i {
                        p
                    } else {
                        p + 1
                    };
                    let q2: int = if q < i {
                        q
                    } else {
                        q + 1
                    };
                    assert(st.0[p] == objs[p2]);
                    assert(st.0[q] == objs[q2]);
                }
            }
            assert(ObjectTracker::ids_below(st.0, nid)) by {
                assert forall|k: int| 0 <= k < st.0.len() implies ((#[trigger] st.0[k].id) as int)
                    < nid by {
                    if k < i {
                        assert(st.0[k] == objs[k]);
                    } else {
                        assert(st.0[k] == objs[k + 1]);
                    }
                }
            }
        },
        Option::None => {
        },
    }
}

/// Across any sequence of detections in one frame: the id counter never
/// decreases and never reissues an id, the produced tracks carry
/// pairwise distinct ids all below the final counter, the produced
/// track at position `k` carries detection `k`'s box, and the tracks
/// left unmatched stay sound and share no id with the produced ones.
pub proof fn lemma_process_props(
    objs: Seq<TrackedObject>,
    nid: int,
    dets: Seq<BBox>,
    dt_ms: int,
)
    requires
        ObjectTracker::items_ok(objs),
        ObjectTracker::ids_distinct(objs),
        ObjectTracker::ids_below(objs, nid),
        0 <= nid,
        nid + dets.len() <= usize::MAX,
        forall|k: int| 0 <= k < dets.len() ==> (#[trigger] dets[k]).wf(),
        dt_ms > 0,
    ensures
        ({
            let st = spec_process(objs, nid, dets, dt_ms);
            &&& nid <= st.1 <= nid + dets.len()
            &&& st.2.len() == dets.len()
            &&& ObjectTracker::items_ok(st.0)
            &&& ObjectTracker::ids_distinct(st.0)
            &&& ObjectTracker::ids_below(st.0, nid)
            &&& ObjectTracker::items_ok(st.2)
            &&& ObjectTracker::ids_distinct(st.2)
            &&& ObjectTracker::ids_below(st.2, st.1)
            &&& (forall|p: int, k: int|
                0 <= p < st.2.len() && 0 <= k < st.0.len() ==> (#[trigger] st.2[p].id) != (
                #[trigger] st.0[k].id))
            &&& (forall|k: int| 0 <= k < st.2.len() ==> (#[trigger] st.2[k]).bbox == dets[k])
        }),
    decreases dets.len(),
{
    if dets.len() > 0 {
        assert(forall|k: int|
            0 <= k < dets.drop_last().len() ==> (#[trigger] dets.drop_last()[k]).wf()) by {
            assert(forall|k: int|
                0 <= k < dets.drop_last().len() ==> dets.drop_last()[k] == dets[k]);
        }
        lemma_process_props(objs, nid, dets.drop_last(), dt_ms);
        let st1 = spec_process(objs, nid, dets.drop_last(), dt_ms);
        assert(dets.last() == dets[dets.len() - 1]);
        lemma_step_props(st1.0, st1.1, dets.last(), dt_ms);
        lemma_best_match_props(st1.0, dets.last());
        let stepped = spec_step(st1.0, st1.1, dets.last(), dt_ms);
        let st = spec_process(objs, nid, dets, dt_ms);
        assert(st.0 == stepped.0 && st.1 == stepped.1 && st.2 == st1.2.push(stepped.2));
        // The produced id is new to the produced tracks: a matched id
        // was still in the working state, a fresh id is at least the counter.
        assert forall|p: int| 0 <= p < st1.2.len() implies (#[trigger] st1.2[p].id)
            != stepped.2.id by {
            match best_match(st1.0, dets.last()) {
                Option::Some(i) => {
                    assert(stepped.2.id == st1.0[i].id);
                },
                Option::None => {
                },
            }
        }
        assert(ObjectTracker::ids_distinct(st.2)) by {
            assert forall|p: int, q: int|
                0 <= p < q < st.2.len() implies (#[trigger] st.2[p].id) != (#[trigger] st.2[q].id)
            by {
                if q < st1.2.len() {
                    assert(st.2[p] == st1.2[p] && st.2[q] == st1.2[q]);
                } else {
                    assert(st.2[q] == stepped.2 && st.2[p] == st1.2[p]);
                }
            }
        }
        assert(ObjectTracker::items_ok(st.2)) by {
            assert forall|k: int|
                0 <= k < st.2.len() implies ((#[trigger] st.2[k]).bbox.wf() && 0
                <= st.2[k].distance_mm <= MAX_DISTANCE_MM) by {
                if k < st1.2.len() {
                    assert(st.2[k] == st1.2[k]);
                } else {
                    assert(st.2[k] == stepped.2);
                }
            }
        }
        assert(ObjectTracker::ids_below(st.2, st.1)) by {
            assert forall|k: int| 0 <= k < st.2.len() implies ((#[trigger] st.2[k].id) as int)
                < st.1 by {
                if k < st1.2.len() {
                    assert(st.2[k] == st1.2[k]);
                } else {
                    assert(st.2[k] == stepped.2);
                }
            }
        }
        assert forall|p: int, k: int|
            0 <= p < st.2.len() && 0 <= k < st.0.len() implies (#[trigger] st.2[p].id) != (
        #[trigger] st.0[k].id) by {
            match best_match(st1.0, dets.last()) {
                Option::Some(i) => {
                    st1.0.remove_ensures(i);
                    let k2: int = if k < i {
                        k
                    } else {
                        k + 1
                    };
                    assert(st.0[k] == st1.0[k2]);
                    if p < st1.2.len() {
                        assert(st.2[p] == st1.2[p]);
                    } else {
                        assert(st.2[p] == stepped.2);
                    }
                },
                Option::None => {
                    assert(st.0 == st1.0);
                    if p < st1.2.len() {
                        assert(st.2[p] == st1.2[p]);
                    } else {
                        assert(st.2[p] == stepped.2);
                    }
                },
            }
        }
        assert forall|k: int| 0 <= k < st.2.len() implies (#[trigger] st.2[k]).bbox == dets[k]
        by {
            if k < st1.2.len() {
                assert(st.2[k] == st1.2[k] && dets.drop_last()[k] == dets[k]);
            } else {
                assert(st.2[k] == stepped.2);
            }
        }
    }
}

} // verus!
