//! The kinematic profile: between two consecutive anchors the cursor
//! speeds up, cruises and slows down along the curve, and is sampled once
//! per frame.
use crate::arc_length::{
    lemma_point_at_distance_at, nearest_index, nearest_sample, point_at_distance,
    position_at_distance, ArcLengthTable, LENGTH_MAX,
};
use crate::fixed::{
    floor_sqrt, frame_offset, interior_count, isqrt, lemma_floor_sqrt_below, lemma_frame_offset,
    lemma_interior_count, lemma_mul_bounded, lemma_scale_span_range, scale_span,
    scale_span_exec,
};
use crate::types::{all_at, all_in_range, times_sorted, CPoint, TIME_MAX};
use vstd::prelude::*;

verus! {

/// Largest speed of the cursor along the curve: 1800 pixels per second.
pub const CRUISE_VELOCITY_MAX: i64 = 117_964_800;

/// Largest acceleration of the cursor along the curve: 4000 pixels per
/// second squared.
pub const ACCELERATION_MAX: i64 = 262_144_000;

/// The speed reached by accelerating at `ACCELERATION_MAX` for `dt`
/// microseconds.
pub open spec fn ramp_speed(dt: int) -> int {
    ACCELERATION_MAX * dt / 1_000_000
}

/// Peak speed of the profile that covers `ds` in `dt` microseconds:
/// the smaller root of `v² - (a dt) v + a ds = 0`, which is
/// `(a dt - sqrt((a dt)² - 4 a ds)) / 2`; half of `a dt` where there is
/// no root; and never more than `CRUISE_VELOCITY_MAX`.
pub open spec fn peak_velocity(ds: int, dt: int) -> int {
    let x = ramp_speed(dt);
    let disc = x * x - 4 * ACCELERATION_MAX * ds;
    let v = if disc < 0 {
        x / 2
    } else {
        (x - floor_sqrt(disc as nat)) / 2
    };
    if v > CRUISE_VELOCITY_MAX {
        CRUISE_VELOCITY_MAX as int
    } else {
        v
    }
}

/// Time, in microseconds, that it takes to reach `v_peak` at
/// `ACCELERATION_MAX`.
pub open spec fn ramp_time(v_peak: int) -> int {
    v_peak * 1_000_000 / (ACCELERATION_MAX as int)
}

/// Time of the cruise between the two ramps.
pub open spec fn cruise_time(dt: int, t_acc: int) -> int {
    if dt - 2 * t_acc > 0 {
        dt - 2 * t_acc
    } else {
        0
    }
}

/// Twice the way covered up to time `t` by the ideal profile with ramps
/// of `t_acc`, for a unit acceleration: `t²` on the first ramp,
/// `t_acc² + 2 t_acc (t - t_acc)` during the cruise, and the whole less
/// `(dt - t)²` on the last ramp.
pub open spec fn profile_area(t_acc: int, dt: int, t: int) -> int {
    if t <= t_acc {
        t * t
    } else if t <= t_acc + cruise_time(dt, t_acc) {
        t_acc * (2 * t - t_acc)
    } else {
        profile_total(t_acc, dt) - (dt - t) * (dt - t)
    }
}

/// Twice the way covered by the whole ideal profile, for a unit
/// acceleration: `2 t_acc (t_acc + t_cruise)`.
pub open spec fn profile_total(t_acc: int, dt: int) -> int {
    2 * t_acc * (t_acc + cruise_time(dt, t_acc))
}

/// The way covered `t` microseconds into a segment that covers `ds` in
/// `dt` with ramps of `t_acc`: the share of `ds` that the ideal profile has
/// covered of its own way. Scaling the profile in this way makes it cover
/// `ds` exactly and leaves its duration as it is. A profile without ramps
/// covers the way at constant speed.
pub open spec fn profile_distance(ds: int, dt: int, t_acc: int, t: int) -> int {
    let total = profile_total(t_acc, dt);
    if total <= 0 {
        if dt > 0 {
            scale_span(ds, t, dt)
        } else {
            0
        }
    } else {
        scale_span(ds, profile_area(t_acc, dt, t), total)
    }
}

/// The way covered `t` microseconds into a segment that covers `ds` in
/// `dt`, with the ramps that the peak speed of the segment asks for.
pub open spec fn distance_at(ds: int, dt: int, t: int) -> int {
    profile_distance(ds, dt, ramp_time(peak_velocity(ds, dt)), t)
}

/// Distance along the curve at which anchor `i` lies: the cumulative
/// length at the sample nearest to it, but never less than that of the
/// anchor before.
pub open spec fn anchor_distance(
    spline: Seq<CPoint>,
    lengths: Seq<int>,
    anchors: Seq<CPoint>,
    i: int,
) -> int
    decreases i,
{
    let here = lengths[nearest_index(spline, anchors[i])];
    if i <= 0 {
        here
    } else {
        let before = anchor_distance(spline, lengths, anchors, i - 1);
        if before > here {
            before
        } else {
            here
        }
    }
}

/// The target for the `k`-th frame inside the segment that starts at
/// distance `s0` and time `t0` and covers `ds` in `dt`.
pub open spec fn interior_target(
    spline: Seq<CPoint>,
    lengths: Seq<int>,
    s0: int,
    ds: int,
    t0: int,
    dt: int,
    frame_rate: int,
    k: int,
) -> CPoint {
    let tau = frame_offset(k, frame_rate);
    let place = point_at_distance(spline, lengths, s0 + distance_at(ds, dt, tau));
    CPoint { x: place.0 as i64, y: place.1 as i64, timestamp_us: (t0 + tau) as i64 }
}

/// The targets of the segment from anchor `i` to the next: one for each
/// frame strictly inside the segment, then the next anchor itself.
pub open spec fn segment_targets(
    spline: Seq<CPoint>,
    lengths: Seq<int>,
    anchors: Seq<CPoint>,
    frame_rate: int,
    i: int,
) -> Seq<CPoint> {
    let s0 = anchor_distance(spline, lengths, anchors, i);
    let s1 = anchor_distance(spline, lengths, anchors, i + 1);
    let t0 = anchors[i].timestamp_us as int;
    let dt = anchors[i + 1].timestamp_us - anchors[i].timestamp_us;
    Seq::new(
        interior_count(dt, frame_rate) as nat,
        |j: int| interior_target(spline, lengths, s0, s1 - s0, t0, dt, frame_rate, j + 1),
    ).push(anchors[i + 1])
}

/// The targets up to anchor `segs`: the first anchor, then the targets of
/// each segment in turn.
pub open spec fn kinematic_targets(
    spline: Seq<CPoint>,
    lengths: Seq<int>,
    anchors: Seq<CPoint>,
    frame_rate: int,
    segs: nat,
) -> Seq<CPoint>
    decreases segs,
{
    if segs == 0 {
        seq![anchors[0]]
    } else {
        kinematic_targets(spline, lengths, anchors, frame_rate, (segs - 1) as nat)
            + segment_targets(spline, lengths, anchors, frame_rate, segs - 1)
    }
}

/// The ramp speed of a span within the time range is below 2^62.
pub proof fn lemma_ramp_speed_range(dt: int)
    requires
        0 <= dt <= 2 * TIME_MAX,
    ensures
        0 <= ramp_speed(dt) < 0x4000_0000_0000_0000,
        ramp_speed(dt) * 1_000_000 <= ACCELERATION_MAX * dt,
{
    let a = ACCELERATION_MAX as int;
    lemma_mul_bounded(a, 262_144_000, dt, 0x20_0000_0000_0000);
    assert(a * dt >= 0) by (nonlinear_arith)
        requires
            a >= 0,
            dt >= 0,
    ;
    vstd::arithmetic::div_mod::lemma_fundamental_div_mod(a * dt, 1_000_000);
    vstd::arithmetic::div_mod::lemma_mod_bound(a * dt, 1_000_000);
}

/// The peak speed lies between zero and the cruise limit, and its two
/// ramps fit into the segment.
pub proof fn lemma_peak_velocity(ds: int, dt: int)
    requires
        0 <= ds <= LENGTH_MAX,
        0 <= dt <= 2 * TIME_MAX,
    ensures
        0 <= peak_velocity(ds, dt) <= CRUISE_VELOCITY_MAX,
        0 <= ramp_time(peak_velocity(ds, dt)) <= 450_000,
        2 * ramp_time(peak_velocity(ds, dt)) <= dt,
{
    lemma_ramp_speed_range(dt);
    let a = ACCELERATION_MAX as int;
    let x = ramp_speed(dt);
    let disc = x * x - 4 * a * ds;
    assert(4 * a * ds >= 0) by (nonlinear_arith)
        requires
            a >= 0,
            ds >= 0,
    ;
    assert(x * x < (x + 1) * (x + 1)) by (nonlinear_arith)
        requires
            x >= 0,
    ;
    if disc >= 0 {
        lemma_floor_sqrt_below(disc as nat, (x + 1) as nat);
    }
    let v = peak_velocity(ds, dt);
    assert(0 <= v && 2 * v <= x);
    let t_acc = ramp_time(v);
    assert(v * 1_000_000 >= 0);
    vstd::arithmetic::div_mod::lemma_fundamental_div_mod(v * 1_000_000, a);
    vstd::arithmetic::div_mod::lemma_mod_bound(v * 1_000_000, a);
    assert(a * t_acc <= v * 1_000_000);
    assert(2 * t_acc <= dt) by (nonlinear_arith)
        requires
            a * t_acc <= v * 1_000_000,
            2 * v <= x,
            x * 1_000_000 <= a * dt,
            a > 0,
    ;
    assert(0 <= t_acc <= 450_000) by (nonlinear_arith)
        requires
            a * t_acc <= v * 1_000_000,
            v * 1_000_000 < a * t_acc + a,
            0 <= v <= 117_964_800,
            a == 262_144_000,
    ;
}

/// The ideal profile never goes back and never covers more than its
/// whole way.
pub proof fn lemma_profile_area(t_acc: int, dt: int, t: int)
    requires
        0 <= t_acc,
        2 * t_acc <= dt,
        0 <= t <= dt,
    ensures
        0 <= profile_area(t_acc, dt, t) <= profile_total(t_acc, dt),
        t == 0 ==> profile_area(t_acc, dt, t) == 0,
        t == dt ==> profile_area(t_acc, dt, t) == profile_total(t_acc, dt),
{
    let total = profile_total(t_acc, dt);
    assert(total >= 2 * (t_acc * t_acc)) by (nonlinear_arith)
        requires
            total == 2 * t_acc * (dt - t_acc),
            0 <= t_acc,
            2 * t_acc <= dt,
    ;
    assert(t_acc * t_acc >= 0) by (nonlinear_arith);
    if t <= t_acc {
        assert(0 <= t * t <= t_acc * t_acc) by (nonlinear_arith)
            requires
                0 <= t <= t_acc,
        ;
        if t == dt {
            assert(t_acc == 0 && dt == 0);
            assert(total == 0) by (nonlinear_arith)
                requires
                    total == 2 * t_acc * (dt - t_acc),
                    t_acc == 0,
            ;
        }
    } else if t <= dt - t_acc {
        assert(0 <= t_acc * (2 * t - t_acc) <= total - t_acc * t_acc) by (nonlinear_arith)
            requires
                total == 2 * t_acc * (dt - t_acc),
                0 <= t_acc < t,
                t <= dt - t_acc,
        ;
        if t == dt {
            assert(t_acc == 0);
            assert(total == 0 && t_acc * (2 * t - t_acc) == 0) by (nonlinear_arith)
                requires
                    total == 2 * t_acc * (dt - t_acc),
                    t_acc == 0,
            ;
        }
    } else {
        let rest = dt - t;
        assert(0 <= rest * rest <= t_acc * t_acc) by (nonlinear_arith)
            requires
                0 <= rest <= t_acc,
        ;
        if t == dt {
            assert(rest * rest == 0) by (nonlinear_arith)
                requires
                    rest == 0,
            ;
        }
    }
    if t == 0 {
        assert(t * t == 0) by (nonlinear_arith)
            requires
                t == 0,
        ;
    }
}

/// The ideal profile never goes back: at a later time it has covered at
/// least as much.
pub proof fn lemma_profile_area_monotone(t_acc: int, dt: int, t1: int, t2: int)
    requires
        0 <= t_acc,
        2 * t_acc <= dt,
        0 <= t1 <= t2 <= dt,
    ensures
        profile_area(t_acc, dt, t1) <= profile_area(t_acc, dt, t2),
{
    let total = profile_total(t_acc, dt);
    let bend = dt - t_acc;
    assert(cruise_time(dt, t_acc) == dt - 2 * t_acc);
    assert(total == 2 * t_acc * bend);
    // The three phases at their joints.
    let at_first_joint = t_acc * t_acc;
    let at_second_joint = t_acc * (2 * bend - t_acc);
    assert(at_second_joint == total - t_acc * t_acc) by (nonlinear_arith)
        requires
            at_second_joint == t_acc * (2 * bend - t_acc),
            total == 2 * t_acc * bend,
    ;
    assert(at_first_joint <= at_second_joint) by (nonlinear_arith)
        requires
            at_first_joint == t_acc * t_acc,
            at_second_joint == t_acc * (2 * bend - t_acc),
            0 <= t_acc <= bend,
    ;
    // Each value against the joints next to it.
    if t1 <= t_acc {
        assert(t1 * t1 <= at_first_joint) by (nonlinear_arith)
            requires
                0 <= t1 <= t_acc,
                at_first_joint == t_acc * t_acc,
        ;
    } else if t1 <= bend {
        assert(t_acc * (2 * t1 - t_acc) <= at_second_joint) by (nonlinear_arith)
            requires
                0 <= t_acc,
                t1 <= bend,
                at_second_joint == t_acc * (2 * bend - t_acc),
        ;
    }
    if t2 <= t_acc {
        assert(t1 * t1 <= t2 * t2) by (nonlinear_arith)
            requires
                0 <= t1 <= t2,
        ;
    } else if t2 <= bend {
        assert(at_first_joint <= t_acc * (2 * t2 - t_acc)) by (nonlinear_arith)
            requires
                0 <= t_acc < t2,
                at_first_joint == t_acc * t_acc,
        ;
        if t1 > t_acc {
            assert(t_acc * (2 * t1 - t_acc) <= t_acc * (2 * t2 - t_acc)) by (nonlinear_arith)
                requires
                    0 <= t_acc,
                    t1 <= t2,
            ;
        }
    } else {
        let rest2 = dt - t2;
        assert(rest2 * rest2 <= t_acc * t_acc) by (nonlinear_arith)
            requires
                0 <= rest2 <= t_acc,
        ;
        if t1 > bend {
            let rest1 = dt - t1;
            assert(rest2 * rest2 <= rest1 * rest1) by (nonlinear_arith)
                requires
                    0 <= rest2 <= rest1,
            ;
        }
    }
}

/// The cursor never goes back along the curve within a segment.
pub proof fn lemma_distance_monotone(ds: int, dt: int, t1: int, t2: int)
    requires
        0 <= ds <= LENGTH_MAX,
        0 <= dt <= 2 * TIME_MAX,
        0 <= t1 <= t2 <= dt,
    ensures
        distance_at(ds, dt, t1) <= distance_at(ds, dt, t2),
{
    lemma_peak_velocity(ds, dt);
    let t_acc = ramp_time(peak_velocity(ds, dt));
    let total = profile_total(t_acc, dt);
    if total <= 0 {
        if dt > 0 {
            crate::fixed::lemma_scale_span_monotone(ds, t1, t2, dt);
        }
    } else {
        lemma_profile_area(t_acc, dt, t1);
        lemma_profile_area_monotone(t_acc, dt, t1, t2);
        crate::fixed::lemma_scale_span_monotone(
            ds,
            profile_area(t_acc, dt, t1),
            profile_area(t_acc, dt, t2),
            total,
        );
    }
}

/// The way covered within a segment lies between nothing and the whole
/// way, is nothing at the start and the whole way at the end.
pub proof fn lemma_distance_at(ds: int, dt: int, t: int)
    requires
        0 <= ds <= LENGTH_MAX,
        0 <= dt <= 2 * TIME_MAX,
        0 <= t <= dt,
    ensures
        0 <= distance_at(ds, dt, t) <= ds,
        dt > 0 && t == 0 ==> distance_at(ds, dt, t) == 0,
        dt > 0 && t == dt ==> distance_at(ds, dt, t) == ds,
{
    lemma_peak_velocity(ds, dt);
    let t_acc = ramp_time(peak_velocity(ds, dt));
    let total = profile_total(t_acc, dt);
    lemma_profile_area(t_acc, dt, t);
    if total <= 0 {
        if dt > 0 {
            lemma_scale_span_range(ds, t, dt);
        }
    } else {
        lemma_scale_span_range(ds, profile_area(t_acc, dt, t), total);
    }
}

/// The distances of the anchors lie within the table and never decrease.
pub proof fn lemma_anchor_distance(
    spline: Seq<CPoint>,
    lengths: Seq<int>,
    anchors: Seq<CPoint>,
    i: int,
)
    requires
        spline.len() > 0,
        lengths.len() == spline.len(),
        forall|j: int| 0 <= j < lengths.len() ==> 0 <= #[trigger] lengths[j] <= LENGTH_MAX,
        0 <= i < anchors.len(),
    ensures
        0 <= anchor_distance(spline, lengths, anchors, i) <= LENGTH_MAX,
        i > 0 ==> anchor_distance(spline, lengths, anchors, i - 1) <= anchor_distance(
            spline,
            lengths,
            anchors,
            i,
        ),
    decreases i,
{
    crate::arc_length::lemma_nearest_in_prefix(spline, anchors[i], spline.len() as int);
    if i > 0 {
        lemma_anchor_distance(spline, lengths, anchors, i - 1);
    }
}

/// Index, among the targets, of anchor `i`: every segment before it
/// contributes its interior frames and its end.
pub open spec fn anchor_index(anchors: Seq<CPoint>, frame_rate: int, i: int) -> int
    decreases i,
{
    if i <= 0 {
        0
    } else {
        anchor_index(anchors, frame_rate, i - 1) + interior_count(
            anchors[i].timestamp_us - anchors[i - 1].timestamp_us,
            frame_rate,
        ) + 1
    }
}

/// The targets end with the last anchor they were made for, and every
/// anchor up to that one stands among them, position and timestamp
/// unchanged, at its index.
pub proof fn lemma_targets_hold_anchors(
    spline: Seq<CPoint>,
    lengths: Seq<int>,
    anchors: Seq<CPoint>,
    frame_rate: int,
    segs: nat,
    i: int,
)
    requires
        0 <= i <= segs < anchors.len(),
    ensures
        kinematic_targets(spline, lengths, anchors, frame_rate, segs).len() == anchor_index(
            anchors,
            frame_rate,
            segs as int,
        ) + 1,
        0 <= anchor_index(anchors, frame_rate, i) <= anchor_index(anchors, frame_rate, segs as int),
        kinematic_targets(spline, lengths, anchors, frame_rate, segs)[anchor_index(
            anchors,
            frame_rate,
            i,
        )] == anchors[i],
    decreases segs,
{
    if segs > 0 {
        let before = kinematic_targets(spline, lengths, anchors, frame_rate, (segs - 1) as nat);
        let segment = segment_targets(spline, lengths, anchors, frame_rate, segs - 1);
        let dt = anchors[segs as int].timestamp_us - anchors[segs - 1].timestamp_us;
        lemma_interior_count(dt, frame_rate);
        assert(segment.len() == interior_count(dt, frame_rate) + 1);
        assert(segment[segment.len() - 1] == anchors[segs as int]);
        if i < segs {
            lemma_targets_hold_anchors(spline, lengths, anchors, frame_rate, (segs - 1) as nat, i);
        } else {
            lemma_targets_hold_anchors(
                spline,
                lengths,
                anchors,
                frame_rate,
                (segs - 1) as nat,
                segs - 1,
            );
        }
    }
}

/// Where the timestamps of the anchors never decrease, neither do those of
/// the targets.
pub proof fn lemma_targets_sorted(
    spline: Seq<CPoint>,
    lengths: Seq<int>,
    anchors: Seq<CPoint>,
    frame_rate: int,
    segs: nat,
)
    requires
        segs < anchors.len(),
        times_sorted(anchors),
    ensures
        times_sorted(kinematic_targets(spline, lengths, anchors, frame_rate, segs)),
        kinematic_targets(spline, lengths, anchors, frame_rate, segs).len() > 0,
        kinematic_targets(spline, lengths, anchors, frame_rate, segs).last() == anchors[segs as int],
    decreases segs,
{
    if segs > 0 {
        lemma_targets_sorted(spline, lengths, anchors, frame_rate, (segs - 1) as nat);
        let before = kinematic_targets(spline, lengths, anchors, frame_rate, (segs - 1) as nat);
        let segment = segment_targets(spline, lengths, anchors, frame_rate, segs - 1);
        let all = kinematic_targets(spline, lengths, anchors, frame_rate, segs);
        let t0 = anchors[segs - 1].timestamp_us as int;
        let t1 = anchors[segs as int].timestamp_us as int;
        let dt = t1 - t0;
        let count = interior_count(dt, frame_rate);
        lemma_interior_count(dt, frame_rate);
        assert(t0 <= t1);
        assert(segment.len() == count + 1);
        assert(segment[count] == anchors[segs as int]);
        assert forall|j: int| 0 <= j < count implies t0 <= (#[trigger] segment[j]).timestamp_us
            < t1 && segment[j].timestamp_us == t0 + frame_offset(j + 1, frame_rate) by {
            lemma_frame_offset(dt, frame_rate, j + 1, j + 1);
        }
        assert forall|i: int, j: int| 0 <= i <= j < all.len() implies (#[trigger] all[i]).timestamp_us
            <= (#[trigger] all[j]).timestamp_us by {
            let n = before.len() as int;
            if j < n {
                assert(all[i] == before[i] && all[j] == before[j]);
            } else {
                assert(all[j] == segment[j - n]);
                if i < n {
                    assert(all[i] == before[i]);
                    assert(before[i].timestamp_us <= before[n - 1].timestamp_us);
                } else {
                    assert(all[i] == segment[i - n]);
                    if j - n < count {
                        lemma_frame_offset(dt, frame_rate, i - n + 1, j - n + 1);
                    }
                }
            }
        }
    }
}

/// Where the curve and the anchors all lie at one place, so do the
/// targets.
pub proof fn lemma_targets_at(
    spline: Seq<CPoint>,
    lengths: Seq<int>,
    anchors: Seq<CPoint>,
    frame_rate: int,
    segs: nat,
    spot: CPoint,
)
    requires
        spline.len() > 0,
        lengths.len() == spline.len(),
        forall|i: int| 0 <= i < lengths.len() ==> #[trigger] lengths[i] == 0,
        all_at(spline, spot),
        all_at(anchors, spot),
        segs < anchors.len(),
    ensures
        all_at(kinematic_targets(spline, lengths, anchors, frame_rate, segs), spot),
    decreases segs,
{
    let all = kinematic_targets(spline, lengths, anchors, frame_rate, segs);
    if segs == 0 {
        assert(all[0] == anchors[0]);
    } else {
        lemma_targets_at(spline, lengths, anchors, frame_rate, (segs - 1) as nat, spot);
        let before = kinematic_targets(spline, lengths, anchors, frame_rate, (segs - 1) as nat);
        let segment = segment_targets(spline, lengths, anchors, frame_rate, segs - 1);
        let i = segs - 1;
        let s0 = anchor_distance(spline, lengths, anchors, i);
        let s1 = anchor_distance(spline, lengths, anchors, i + 1);
        let t0 = anchors[i].timestamp_us as int;
        let dt = anchors[i + 1].timestamp_us - anchors[i].timestamp_us;
        let count = interior_count(dt, frame_rate);
        lemma_interior_count(dt, frame_rate);
        assert(segment.len() == count + 1);
        assert forall|k: int| 0 <= k < segment.len() implies (#[trigger] segment[k]).same_place(
            spot,
        ) by {
            if k < count {
                let tau = frame_offset(k + 1, frame_rate);
                lemma_point_at_distance_at(
                    spline,
                    lengths,
                    spot,
                    s0 + distance_at(s1 - s0, dt, tau),
                );
                assert(segment[k] == interior_target(
                    spline,
                    lengths,
                    s0,
                    s1 - s0,
                    t0,
                    dt,
                    frame_rate,
                    k + 1,
                ));
            } else {
                assert(segment[k] == anchors[i + 1]);
            }
        }
        assert forall|k: int| 0 <= k < all.len() implies (#[trigger] all[k]).same_place(spot) by {
            let m = before.len() as int;
            if k < m {
                assert(all[k] == before[k]);
            } else {
                assert(all[k] == segment[k - m]);
            }
        }
    }
}

/// Peak speed, in position units per second, of the profile that covers
/// `ds` in `dt` microseconds.
pub fn solve_peak_velocity(ds: i64, dt: i64) -> (v: i64)
    requires
        0 <= ds <= LENGTH_MAX,
        0 <= dt <= 2 * TIME_MAX,
    ensures
        v == peak_velocity(ds as int, dt as int),
        0 <= v <= CRUISE_VELOCITY_MAX,
{
    let a: i128 = ACCELERATION_MAX as i128;
    proof {
        lemma_ramp_speed_range(dt as int);
        lemma_peak_velocity(ds as int, dt as int);
        lemma_mul_bounded(a as int, 262_144_000, dt as int, 0x20_0000_0000_0000);
        assert(a * dt >= 0) by (nonlinear_arith)
            requires
                a >= 0,
                dt >= 0,
        ;
    }
    let x: i128 = a * (dt as i128) / 1_000_000;
    proof {
        lemma_mul_bounded(x as int, 0x4000_0000_0000_0000, x as int, 0x4000_0000_0000_0000);
        lemma_mul_bounded(4 * a, 4int * 262_144_000, ds as int, 0x4_0000_0000_0000);
        assert(4 * a * ds >= 0) by (nonlinear_arith)
            requires
                a >= 0,
                ds >= 0,
        ;
        assert(x * x >= 0) by (nonlinear_arith);
    }
    let disc: i128 = x * x - 4 * a * (ds as i128);
    let v: i128 = if disc < 0 {
        x / 2
    } else {
        proof {
            assert(x * x < (x + 1) * (x + 1)) by (nonlinear_arith)
                requires
                    x >= 0,
            ;
            lemma_floor_sqrt_below(disc as nat, (x + 1) as nat);
        }
        (x - isqrt(disc as u128) as i128) / 2
    };
    if v > CRUISE_VELOCITY_MAX as i128 {
        CRUISE_VELOCITY_MAX
    } else {
        v as i64
    }
}

/// Time, in microseconds, that each of the two ramps of the profile takes
/// that covers `ds` in `dt` microseconds.
pub fn solve_ramp_time(ds: i64, dt: i64) -> (t_acc: i64)
    requires
        0 <= ds <= LENGTH_MAX,
        0 <= dt <= 2 * TIME_MAX,
    ensures
        t_acc == ramp_time(peak_velocity(ds as int, dt as int)),
        0 <= t_acc <= 450_000,
        2 * t_acc <= dt,
{
    proof {
        lemma_peak_velocity(ds as int, dt as int);
    }
    let v: i64 = solve_peak_velocity(ds, dt);
    ((v as i128) * 1_000_000 / (ACCELERATION_MAX as i128)) as i64
}

/// The way covered `t` microseconds into a segment that covers `ds` in
/// `dt` microseconds with ramps of `t_acc` microseconds.
pub fn distance_along_profile(ds: i64, dt: i64, t_acc: i64, t: i64) -> (s: i64)
    requires
        0 <= ds <= LENGTH_MAX,
        0 <= dt <= 2 * TIME_MAX,
        0 <= t_acc <= 450_000,
        2 * t_acc <= dt,
        0 <= t <= dt,
    ensures
        s == profile_distance(ds as int, dt as int, t_acc as int, t as int),
        0 <= s <= ds,
{
    proof {
        lemma_profile_area(t_acc as int, dt as int, t as int);
        lemma_mul_bounded(2 * t_acc, 900_000, dt - t_acc, 0x20_0000_0000_0000);
    }
    let total: i128 = 2 * (t_acc as i128) * (dt as i128 - t_acc as i128);
    if total <= 0 {
        if dt > 0 {
            proof {
                lemma_scale_span_range(ds as int, t as int, dt as int);
            }
            scale_span_exec(ds as i128, t as u64, dt as u64) as i64
        } else {
            0
        }
    } else {
        let area: i128 = if t <= t_acc {
            proof {
                lemma_mul_bounded(t as int, 450_000, t as int, 450_000);
            }
            (t as i128) * (t as i128)
        } else if t <= dt - t_acc {
            proof {
                lemma_mul_bounded(t_acc as int, 450_000, 2 * t - t_acc, 0x40_0000_0000_0000);
            }
            (t_acc as i128) * (2 * (t as i128) - t_acc as i128)
        } else {
            proof {
                lemma_mul_bounded(dt - t, 450_000, dt - t, 450_000);
            }
            total - (dt as i128 - t as i128) * (dt as i128 - t as i128)
        };
        proof {
            lemma_scale_span_range(ds as int, area as int, total as int);
            lemma_mul_bounded(
                ds as int,
                0x4_0000_0000_0000,
                area as int,
                900_000int * 0x20_0000_0000_0000,
            );
            assert(ds * area >= 0) by (nonlinear_arith)
                requires
                    ds >= 0,
                    area >= 0,
            ;
        }
        ((ds as i128) * area / total) as i64
    }
}

/// Lays the kinematic profile over the curve: for each pair of consecutive
/// anchors the cursor covers the stretch of curve between them in the
/// time between them, speeding up, cruising and slowing down, and a
/// target is emitted for every frame inside the segment and for the anchor
/// at its end. The first target is the first anchor. With fewer than two
/// anchors or fewer than two samples of the curve, the curve itself comes
/// back.
pub fn generate_kinematic_targets(
    spline: &[CPoint],
    table: &ArcLengthTable,
    anchors: &[CPoint],
    frame_rate: i32,
) -> (targets: Vec<CPoint>)
    requires
        all_in_range(spline@),
        all_in_range(anchors@),
        table.wf(),
        table@.len() == spline.len(),
    ensures
        anchors.len() < 2 || spline.len() < 2 ==> targets@ == spline@,
        anchors.len() >= 2 && spline.len() >= 2 ==> targets@ == kinematic_targets(
            spline@,
            table@,
            anchors@,
            frame_rate as int,
            (anchors.len() - 1) as nat,
        ),
        all_in_range(targets@),
{
    let mut targets: Vec<CPoint> = Vec::new();
    if anchors.len() < 2 || spline.len() < 2 {
        let mut j: usize = 0;
        while j < spline.len()
            invariant
                j <= spline.len(),
                targets@ == spline@.subrange(0, j as int),
                all_in_range(spline@),
            decreases spline.len() - j,
        {
            targets.push(spline[j]);
            assert(spline@.subrange(0, j + 1) == spline@.subrange(0, j as int).push(
                spline@[j as int],
            ));
            j += 1;
        }
        assert(spline@.subrange(0, spline.len() as int) == spline@);
        return targets;
    }
    let segs: usize = anchors.len() - 1;
    targets.push(anchors[0]);
    let first: usize = nearest_sample(spline, &anchors[0]);
    let mut s0: i64 = table.length_at(first);
    proof {
        lemma_anchor_distance(spline@, table@, anchors@, 0);
    }
    let mut i: usize = 0;
    while i < segs
        invariant
            segs == anchors.len() - 1,
            spline.len() >= 2,
            all_in_range(spline@),
            all_in_range(anchors@),
            table.wf(),
            table@.len() == spline.len(),
            i <= segs,
            s0 == anchor_distance(spline@, table@, anchors@, i as int),
            0 <= s0 <= LENGTH_MAX,
            targets@ == kinematic_targets(spline@, table@, anchors@, frame_rate as int, i as nat),
            all_in_range(targets@),
        decreases segs - i,
    {
        let from: CPoint = anchors[i];
        let to: CPoint = anchors[i + 1];
        let near: usize = nearest_sample(spline, &to);
        let here: i64 = table.length_at(near);
        let s1: i64 = if s0 > here {
            s0
        } else {
            here
        };
        proof {
            lemma_anchor_distance(spline@, table@, anchors@, i + 1);
        }
        let ds: i64 = s1 - s0;
        let dt: i64 = to.timestamp_us - from.timestamp_us;
        let count: i128 = if dt <= 0 || frame_rate <= 0 {
            0
        } else {
            proof {
                lemma_mul_bounded(dt as int, 0x20_0000_0000_0000, frame_rate as int, 0x8000_0000);
                assert(dt * frame_rate >= 1) by (nonlinear_arith)
                    requires
                        dt >= 1,
                        frame_rate >= 1,
                ;
            }
            ((dt as i128) * (frame_rate as i128) - 1) / 1_000_000
        };
        proof {
            lemma_interior_count(dt as int, frame_rate as int);
        }
        let ghost base = targets@;
        let ghost sp = spline@;
        let ghost tb = table@;
        let ghost fr = frame_rate as int;
        if count > 0 {
            let t_acc: i64 = solve_ramp_time(ds, dt);
            let mut k: i128 = 1;
            while k <= count
                invariant
                    spline.len() >= 2,
                    all_in_range(spline@),
                    table.wf(),
                    table@.len() == spline.len(),
                    sp == spline@,
                    tb == table@,
                    fr == frame_rate as int,
                    from.in_range(),
                    to.in_range(),
                    dt == to.timestamp_us - from.timestamp_us,
                    dt > 0,
                    frame_rate > 0,
                    count == interior_count(dt as int, frame_rate as int),
                    0 <= s0 <= s1 <= LENGTH_MAX,
                    ds == s1 - s0,
                    t_acc == ramp_time(peak_velocity(ds as int, dt as int)),
                    0 <= t_acc <= 450_000,
                    2 * t_acc <= dt,
                    1 <= k <= count + 1,
                    targets@ == base + Seq::new(
                        (k - 1) as nat,
                        |j: int|
                            interior_target(
                                sp,
                                tb,
                                s0 as int,
                                ds as int,
                                from.timestamp_us as int,
                                dt as int,
                                fr,
                                j + 1,
                            ),
                    ),
                    all_in_range(targets@),
                decreases count + 1 - k,
            {
                proof {
                    lemma_frame_offset(dt as int, frame_rate as int, k as int, k as int);
                    assert(count * 1_000_000 <= dt * frame_rate - 1) by {
                        vstd::arithmetic::div_mod::lemma_fundamental_div_mod(
                            dt * frame_rate - 1,
                            1_000_000,
                        );
                        vstd::arithmetic::div_mod::lemma_mod_bound(dt * frame_rate - 1, 1_000_000);
                    }
                    lemma_mul_bounded(
                        dt as int,
                        0x20_0000_0000_0000,
                        frame_rate as int,
                        0x8000_0000,
                    );
                }
                let tau: i64 = (k * 1_000_000 / (frame_rate as i128)) as i64;
                let s_rel: i64 = distance_along_profile(ds, dt, t_acc, tau);
                let place: Option<(i64, i64)> = position_at_distance(spline, table, s0 + s_rel);
                let (x, y) = place.unwrap();
                let target = CPoint { x, y, timestamp_us: from.timestamp_us + tau };
                assert(target == interior_target(
                    sp,
                    tb,
                    s0 as int,
                    ds as int,
                    from.timestamp_us as int,
                    dt as int,
                    fr,
                    k as int,
                ));
                targets.push(target);
                assert(targets@ =~= base + Seq::new(
                    k as nat,
                    |j: int|
                        interior_target(
                            sp,
                            tb,
                            s0 as int,
                            ds as int,
                            from.timestamp_us as int,
                            dt as int,
                            fr,
                            j + 1,
                        ),
                ));
                k += 1;
            }
        }
        targets.push(to);
        assert(targets@ =~= base + segment_targets(sp, tb, anchors@, fr, i as int));
        s0 = s1;
        i += 1;
    }
    targets
}

} // verus!
