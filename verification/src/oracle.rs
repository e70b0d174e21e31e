//! Position of the cursor at a frame's time: cubic Hermite interpolation
//! between the two path points that bracket it.
use crate::fixed::{
    clamp_int, clamp_wide, div_floor, first_reaching, lemma_div_exact, lemma_first_reaching,
    lemma_first_reaching_reaches, lemma_mul_bounded, lemma_none_reaching, lemma_scale_span_range,
    non_decreasing, scale_span, scale_span_exec,
};
use crate::types::{path_in_range, CPoint, PathPoint, COORD_MAX, TIME_MAX, VELOCITY_MAX};
use vstd::prelude::*;

verus! {

/// The value 1.0 of the normalised time within a segment.
pub const TAU_ONE: i64 = 65536;

/// `TAU_ONE` cubed: the common denominator of the Hermite basis.
pub const TAU_CUBED: i64 = 0x1_0000_0000_0000;

/// The timestamps of a path.
pub open spec fn timestamps(path: Seq<PathPoint>) -> Seq<int> {
    path.map_values(|p: PathPoint| p.timestamp_us as int)
}

/// The timestamps of the path never decrease.
pub open spec fn path_sorted(path: Seq<PathPoint>) -> bool {
    non_decreasing(timestamps(path))
}

/// Magnitude of an integer.
pub open spec fn magnitude(v: int) -> int {
    if v < 0 {
        -v
    } else {
        v
    }
}

/// The way a point moving at `velocity` units per second covers in
/// `duration` microseconds: the tangent of a segment of that duration.
pub open spec fn tangent(velocity: int, duration: int) -> int {
    velocity * duration / 1_000_000
}

/// Normalised time of the moment `elapsed` within a segment of `duration`
/// microseconds, as a fraction of `TAU_ONE`.
pub open spec fn normalised_time(elapsed: int, duration: int) -> int {
    scale_span(TAU_ONE as int, elapsed, duration)
}

/// The basis function that weighs the end position: `3τ² - 2τ³`, as a
/// fraction of `TAU_CUBED`. The start position has the rest of the weight.
pub open spec fn basis_end(tau: int) -> int {
    tau * tau * (3 * TAU_ONE - 2 * tau)
}

/// The basis function that weighs the start tangent: `τ³ - 2τ² + τ`.
pub open spec fn basis_start_tangent(tau: int) -> int {
    tau * (TAU_ONE - tau) * (TAU_ONE - tau)
}

/// The basis function that weighs the end tangent, negated: `τ² - τ³`.
pub open spec fn basis_end_tangent(tau: int) -> int {
    tau * tau * (TAU_ONE - tau)
}

/// One coordinate of the cubic Hermite curve from `x1`, left with
/// velocity `v1`, to `x2`, reached with velocity `v2` after `duration`
/// microseconds, at the moment `elapsed`. The result is rounded down and
/// kept within the coordinate range.
pub open spec fn hermite_value(
    x1: int,
    v1: int,
    x2: int,
    v2: int,
    duration: int,
    elapsed: int,
) -> int {
    let tau = normalised_time(elapsed, duration);
    let num = (x2 - x1) * basis_end(tau) + tangent(v1, duration) * basis_start_tangent(tau)
        - tangent(v2, duration) * basis_end_tangent(tau);
    clamp_int(x1 + num / (TAU_CUBED as int), -COORD_MAX, COORD_MAX as int)
}

/// The position between two path points at time `t`. Where both carry the
/// same timestamp it is the position of the first.
pub open spec fn hermite_point(p1: PathPoint, p2: PathPoint, t: int) -> CPoint {
    let duration = p2.timestamp_us - p1.timestamp_us;
    let elapsed = t - p1.timestamp_us;
    if duration <= 0 {
        CPoint { x: p1.x, y: p1.y, timestamp_us: t as i64 }
    } else {
        CPoint {
            x: hermite_value(
                p1.x as int,
                p1.vx as int,
                p2.x as int,
                p2.vx as int,
                duration,
                elapsed,
            ) as i64,
            y: hermite_value(
                p1.y as int,
                p1.vy as int,
                p2.y as int,
                p2.vy as int,
                duration,
                elapsed,
            ) as i64,
            timestamp_us: t as i64,
        }
    }
}

/// What the path says of time `t`: no position for an empty path; the
/// only point of a path of one; the nearest end for a time outside the
/// path; and otherwise the Hermite position between the first point at or
/// after `t` and the point before it.
pub open spec fn oracle_position(path: Seq<PathPoint>, t: int) -> Option<CPoint> {
    if path.len() == 0 {
        None
    } else if path.len() == 1 || t < path[0].timestamp_us {
        Some(path[0].position())
    } else if t > path[path.len() - 1].timestamp_us {
        Some(path[path.len() - 1].position())
    } else {
        let j = first_reaching(timestamps(path), t, 1);
        Some(hermite_point(path[j - 1], path[j], t))
    }
}

/// Whether the position for time `t` is an end of the path taken in place
/// of an interpolated one.
pub open spec fn oracle_clamped(path: Seq<PathPoint>, t: int) -> bool {
    path.len() == 1 || (path.len() > 1 && (t < path[0].timestamp_us || t > path[path.len()
        - 1].timestamp_us))
}

/// For a normalised time between zero and one, the end basis lies between
/// zero and one and each tangent basis between zero and 4/27.
pub proof fn lemma_basis_bounds(tau: int)
    requires
        0 <= tau <= TAU_ONE,
    ensures
        0 <= basis_end(tau) <= TAU_CUBED,
        0 <= 27 * basis_start_tangent(tau) <= 4 * TAU_CUBED,
        0 <= 27 * basis_end_tangent(tau) <= 4 * TAU_CUBED,
        tau == 0 ==> basis_end(tau) == 0 && basis_start_tangent(tau) == 0 && basis_end_tangent(tau)
            == 0,
        tau == TAU_ONE ==> basis_end(tau) == TAU_CUBED && basis_start_tangent(tau) == 0
            && basis_end_tangent(tau) == 0,
{
    let one = TAU_ONE as int;
    let rest = one - tau;
    assert(one * one * one == TAU_CUBED) by (nonlinear_arith)
        requires
            one == 65536,
            TAU_CUBED == 0x1_0000_0000_0000,
    ;
    assert(tau * tau * (3 * one - 2 * tau) >= 0) by (nonlinear_arith)
        requires
            0 <= tau <= one,
    ;
    assert(one * one * one - tau * tau * (3 * one - 2 * tau) == rest * rest * (one + 2 * tau))
        by (nonlinear_arith)
        requires
            rest == one - tau,
    ;
    assert(rest * rest * (one + 2 * tau) >= 0) by (nonlinear_arith)
        requires
            0 <= tau,
            0 <= one,
    ;
    lemma_cubic_hump(one, tau);
    lemma_cubic_hump(one, rest);
    assert(rest * (one - rest) * (one - rest) == tau * tau * (one - tau)) by (nonlinear_arith)
        requires
            rest == one - tau,
    ;
    if tau == 0 {
        assert(tau * tau * (3 * one - 2 * tau) == 0) by (nonlinear_arith)
            requires
                tau == 0,
        ;
        assert(tau * (one - tau) * (one - tau) == 0) by (nonlinear_arith)
            requires
                tau == 0,
        ;
        assert(tau * tau * (one - tau) == 0) by (nonlinear_arith)
            requires
                tau == 0,
        ;
    }
    if tau == one {
        assert(tau * tau * (3 * one - 2 * tau) == one * one * one) by (nonlinear_arith)
            requires
                tau == one,
        ;
        assert(tau * (one - tau) * (one - tau) == 0) by (nonlinear_arith)
            requires
                tau == one,
        ;
        assert(tau * tau * (one - tau) == 0) by (nonlinear_arith)
            requires
                tau == one,
        ;
    }
}

/// On `[0, one]` the cubic `s (one - s)²` lies between zero and
/// `4 one³ / 27`.
pub proof fn lemma_cubic_hump(one: int, s: int)
    requires
        0 <= s <= one,
    ensures
        0 <= 27 * (s * (one - s) * (one - s)) <= 4 * (one * one * one),
{
    assert(s * (one - s) * (one - s) >= 0) by (nonlinear_arith)
        requires
            0 <= s <= one,
    ;
    assert(4 * (one * one * one) - 27 * (s * (one - s) * (one - s)) == (one - 3 * s) * (one - 3 * s)
        * (4 * one - 3 * s)) by (nonlinear_arith);
    assert((one - 3 * s) * (one - 3 * s) * (4 * one - 3 * s) >= 0) by (nonlinear_arith)
        requires
            0 <= s <= one,
    ;
}

/// The Hermite curve leaves the interval between its two end values by no
/// more than 4/27 of the two tangents together, and by one unit of
/// rounding below.
pub proof fn lemma_hermite_bounded(x1: int, v1: int, x2: int, v2: int, duration: int, elapsed: int)
    requires
        -COORD_MAX <= x1 <= COORD_MAX,
        -COORD_MAX <= x2 <= COORD_MAX,
        duration > 0,
        0 <= elapsed <= duration,
    ensures
        27 * (hermite_value(x1, v1, x2, v2, duration, elapsed) - vstd::math::max(x1, x2)) <= 4 * (
        magnitude(tangent(v1, duration)) + magnitude(tangent(v2, duration))),
        27 * (vstd::math::min(x1, x2) - hermite_value(x1, v1, x2, v2, duration, elapsed)) <= 4 * (
        magnitude(tangent(v1, duration)) + magnitude(tangent(v2, duration))) + 27,
{
    lemma_scale_span_range(TAU_ONE as int, elapsed, duration);
    let tau = normalised_time(elapsed, duration);
    lemma_basis_bounds(tau);
    let cube = TAU_CUBED as int;
    let dx = x2 - x1;
    let m1 = tangent(v1, duration);
    let m2 = tangent(v2, duration);
    let h01 = basis_end(tau);
    let h10 = basis_start_tangent(tau);
    let h11 = basis_end_tangent(tau);
    let num = dx * h01 + m1 * h10 - m2 * h11;
    let q = num / cube;
    let hi = if dx > 0 {
        dx
    } else {
        0
    };
    let lo = if dx < 0 {
        dx
    } else {
        0
    };
    assert(lo * cube <= dx * h01 <= hi * cube) by (nonlinear_arith)
        requires
            0 <= h01 <= cube,
            hi == (if dx > 0 {
                dx
            } else {
                0
            }),
            lo == (if dx < 0 {
                dx
            } else {
                0
            }),
    ;
    assert(-(4 * cube * magnitude(m1)) <= 27 * (m1 * h10) <= 4 * cube * magnitude(m1))
        by (nonlinear_arith)
        requires
            0 <= 27 * h10 <= 4 * cube,
            magnitude(m1) == (if m1 < 0 {
                -m1
            } else {
                m1
            }),
    ;
    assert(-(4 * cube * magnitude(m2)) <= 27 * (m2 * h11) <= 4 * cube * magnitude(m2))
        by (nonlinear_arith)
        requires
            0 <= 27 * h11 <= 4 * cube,
            magnitude(m2) == (if m2 < 0 {
                -m2
            } else {
                m2
            }),
    ;
    vstd::arithmetic::div_mod::lemma_fundamental_div_mod(num, cube);
    vstd::arithmetic::div_mod::lemma_mod_bound(num, cube);
    let total = magnitude(m1) + magnitude(m2);
    assert(cube * q <= num < cube * q + cube);
    assert(27 * q <= 27 * hi + 4 * total) by (nonlinear_arith)
        requires
            cube > 0,
            cube * q <= num,
            27 * num <= 27 * (hi * cube) + 4 * cube * total,
    ;
    assert(27 * q + 27 > 27 * lo - 4 * total) by (nonlinear_arith)
        requires
            cube > 0,
            num < cube * q + cube,
            27 * num >= 27 * (lo * cube) - 4 * cube * total,
    ;
}

/// One coordinate of the Hermite curve.
fn hermite_coordinate(x1: i64, v1: i64, x2: i64, v2: i64, duration: i64, elapsed: i64) -> (x: i64)
    requires
        -COORD_MAX <= x1 <= COORD_MAX,
        -COORD_MAX <= x2 <= COORD_MAX,
        -VELOCITY_MAX <= v1 <= VELOCITY_MAX,
        -VELOCITY_MAX <= v2 <= VELOCITY_MAX,
        0 < duration <= 2 * TIME_MAX,
        0 <= elapsed <= duration,
    ensures
        x == hermite_value(
            x1 as int,
            v1 as int,
            x2 as int,
            v2 as int,
            duration as int,
            elapsed as int,
        ),
        -COORD_MAX <= x <= COORD_MAX,
{
    proof {
        lemma_scale_span_range(TAU_ONE as int, elapsed as int, duration as int);
        lemma_basis_bounds(normalised_time(elapsed as int, duration as int));
    }
    let one: i128 = TAU_ONE as i128;
    let tau: i128 = scale_span_exec(one, elapsed as u64, duration as u64);
    let rest: i128 = one - tau;
    proof {
        lemma_mul_bounded(tau as int, 65536, tau as int, 65536);
        lemma_mul_bounded(tau as int, 65536, rest as int, 65536);
        lemma_mul_bounded(tau * tau, 0x1_0000_0000, 3 * one - 2 * tau, 0x3_0000);
        lemma_mul_bounded(tau * rest, 0x1_0000_0000, rest as int, 65536);
        lemma_mul_bounded(tau * tau, 0x1_0000_0000, rest as int, 65536);
    }
    let h01: i128 = tau * tau * (3 * one - 2 * tau);
    let h10: i128 = tau * rest * rest;
    let h11: i128 = tau * tau * rest;
    proof {
        lemma_mul_bounded(v1 as int, 0x100_0000_0000, duration as int, 0x20_0000_0000_0000);
        lemma_mul_bounded(v2 as int, 0x100_0000_0000, duration as int, 0x20_0000_0000_0000);
    }
    let m1: i128 = div_floor((v1 as i128) * (duration as i128), 1_000_000);
    let m2: i128 = div_floor((v2 as i128) * (duration as i128), 1_000_000);
    let dx: i128 = x2 as i128 - x1 as i128;
    proof {
        vstd::arithmetic::div_mod::lemma_fundamental_div_mod(v1 * duration, 1_000_000);
        vstd::arithmetic::div_mod::lemma_mod_bound(v1 * duration, 1_000_000);
        vstd::arithmetic::div_mod::lemma_fundamental_div_mod(v2 * duration, 1_000_000);
        vstd::arithmetic::div_mod::lemma_mod_bound(v2 * duration, 1_000_000);
        assert(-0x400_0000_0000_0000_0000int <= m1 <= 0x400_0000_0000_0000_0000int);
        assert(-0x400_0000_0000_0000_0000int <= m2 <= 0x400_0000_0000_0000_0000int);
        lemma_mul_bounded(dx as int, 0x20_0000_0000, h01 as int, 0x1_0000_0000_0000);
        lemma_mul_bounded(m1 as int, 0x400_0000_0000_0000_0000, h10 as int, 0x1_0000_0000_0000);
        lemma_mul_bounded(m2 as int, 0x400_0000_0000_0000_0000, h11 as int, 0x1_0000_0000_0000);
    }
    let num: i128 = dx * h01 + m1 * h10 - m2 * h11;
    let q: i128 = div_floor(num, TAU_CUBED as i128);
    proof {
        vstd::arithmetic::div_mod::lemma_fundamental_div_mod(num as int, TAU_CUBED as int);
        vstd::arithmetic::div_mod::lemma_mod_bound(num as int, TAU_CUBED as int);
    }
    clamp_wide(x1 as i128 + q, -COORD_MAX, COORD_MAX)
}

/// The position between two consecutive path points at a time between
/// their timestamps.
pub fn hermite_position(p1: &PathPoint, p2: &PathPoint, timestamp_us: i64) -> (p: CPoint)
    requires
        p1.in_range(),
        p2.in_range(),
        p1.timestamp_us <= timestamp_us <= p2.timestamp_us,
    ensures
        p == hermite_point(*p1, *p2, timestamp_us as int),
        p.in_range(),
        p.timestamp_us == timestamp_us,
{
    let duration: i64 = p2.timestamp_us - p1.timestamp_us;
    let elapsed: i64 = timestamp_us - p1.timestamp_us;
    if duration <= 0 {
        CPoint { x: p1.x, y: p1.y, timestamp_us }
    } else {
        CPoint {
            x: hermite_coordinate(p1.x, p1.vx, p2.x, p2.vx, duration, elapsed),
            y: hermite_coordinate(p1.y, p1.vy, p2.y, p2.vy, duration, elapsed),
            timestamp_us,
        }
    }
}

/// Index of the first point at or after index `from` whose timestamp
/// reaches `timestamp_us`, or of the last point if none does.
pub fn find_segment_index(path: &[PathPoint], timestamp_us: i64, from: usize) -> (index: usize)
    requires
        path_sorted(path@),
        from < path.len(),
    ensures
        index == first_reaching(timestamps(path@), timestamp_us as int, from as int),
        from <= index < path.len(),
{
    let n: usize = path.len();
    let ghost stamps = timestamps(path@);
    assert(stamps[n - 1] == path@[n - 1].timestamp_us);
    if path[n - 1].timestamp_us < timestamp_us {
        proof {
            lemma_none_reaching(stamps, timestamp_us as int, from as int);
        }
        return n - 1;
    }
    let mut lo: usize = from;
    let mut hi: usize = n - 1;
    while lo < hi
        invariant
            n == path.len(),
            stamps == timestamps(path@),
            non_decreasing(stamps),
            from <= lo <= hi < n,
            stamps[hi as int] >= timestamp_us,
            lo > from ==> stamps[lo - 1] < timestamp_us,
        decreases hi - lo,
    {
        let mid: usize = lo + (hi - lo) / 2;
        assert(stamps[mid as int] == path@[mid as int].timestamp_us);
        if path[mid].timestamp_us >= timestamp_us {
            hi = mid;
        } else {
            lo = mid + 1;
        }
    }
    proof {
        lemma_first_reaching(stamps, timestamp_us as int, from as int, lo as int);
    }
    lo
}

/// The cursor position for a frame at `timestamp_us`, and in `clamped`
/// whether that position is an end of the path taken in place of an
/// interpolated one.
pub fn find_position_for_timestamp_dbg(
    path: &[PathPoint],
    timestamp_us: i64,
    clamped: &mut bool,
) -> (position: Option<CPoint>)
    requires
        path_in_range(path@),
        path_sorted(path@),
    ensures
        position == oracle_position(path@, timestamp_us as int),
        *final(clamped) == oracle_clamped(path@, timestamp_us as int),
        position.is_some() ==> position.unwrap().in_range(),
{
    *clamped = false;
    let n: usize = path.len();
    if n == 0 {
        return None;
    }
    if n == 1 || timestamp_us < path[0].timestamp_us {
        *clamped = true;
        return Some(path[0].to_cpoint());
    }
    if timestamp_us > path[n - 1].timestamp_us {
        *clamped = true;
        return Some(path[n - 1].to_cpoint());
    }
    let j: usize = find_segment_index(path, timestamp_us, 1);
    proof {
        let stamps = timestamps(path@);
        assert(stamps[n - 1] == path@[n - 1].timestamp_us);
        lemma_first_reaching_reaches(stamps, timestamp_us as int, 1);
        assert(stamps[j as int] == path@[j as int].timestamp_us);
        assert(stamps[j - 1] == path@[j - 1].timestamp_us);
        assert(stamps[0] == path@[0].timestamp_us);
        assert(stamps[0] <= stamps[j - 1]);
    }
    Some(hermite_position(&path[j - 1], &path[j], timestamp_us))
}

/// The cursor position for a frame at `timestamp_us`.
pub fn find_position_for_timestamp(path: &[PathPoint], timestamp_us: i64) -> (position: Option<
    CPoint,
>)
    requires
        path_in_range(path@),
        path_sorted(path@),
    ensures
        position == oracle_position(path@, timestamp_us as int),
        position.is_some() ==> position.unwrap().in_range(),
{
    let mut clamped: bool = false;
    find_position_for_timestamp_dbg(path, timestamp_us, &mut clamped)
}

/// A time outside the path gives the nearest end of the path, and is
/// marked as clamped; a time inside a path of two or more points is not.
pub proof fn lemma_oracle_clamps(path: Seq<PathPoint>, t: int)
    requires
        path.len() > 0,
        path_sorted(path),
    ensures
        t < path[0].timestamp_us ==> oracle_position(path, t) == Some(path[0].position())
            && oracle_clamped(path, t),
        t > path[path.len() - 1].timestamp_us ==> oracle_position(path, t) == Some(
            path[path.len() - 1].position(),
        ) && oracle_clamped(path, t),
        path.len() > 1 && path[0].timestamp_us <= t <= path[path.len() - 1].timestamp_us
            ==> !oracle_clamped(path, t),
{
    let stamps = timestamps(path);
    assert(stamps[0] <= stamps[path.len() - 1]);
}

/// At its start a Hermite segment is at its first value, and at its end
/// at its second.
pub proof fn lemma_hermite_ends(x1: int, v1: int, x2: int, v2: int, duration: int)
    requires
        -COORD_MAX <= x1 <= COORD_MAX,
        -COORD_MAX <= x2 <= COORD_MAX,
        duration > 0,
    ensures
        hermite_value(x1, v1, x2, v2, duration, 0) == x1,
        hermite_value(x1, v1, x2, v2, duration, duration) == x2,
{
    lemma_scale_span_range(TAU_ONE as int, 0, duration);
    lemma_scale_span_range(TAU_ONE as int, duration, duration);
    lemma_basis_bounds(0);
    lemma_basis_bounds(TAU_ONE as int);
    let m1 = tangent(v1, duration);
    let m2 = tangent(v2, duration);
    let dx = x2 - x1;
    assert(dx * 0 + m1 * 0 - m2 * 0 == 0) by (nonlinear_arith);
    assert(0int / (TAU_CUBED as int) == 0);
    assert(dx * (TAU_CUBED as int) + m1 * 0 - m2 * 0 == dx * (TAU_CUBED as int))
        by (nonlinear_arith);
    lemma_div_exact(dx, TAU_CUBED as int);
}

/// The path is interpolated: at the timestamp of one of its points, the
/// oracle gives the position of the first point with that timestamp.
pub proof fn lemma_oracle_passes_through(path: Seq<PathPoint>, k: int)
    requires
        path.len() >= 2,
        path_in_range(path),
        path_sorted(path),
        0 <= k < path.len(),
        k > 0 ==> path[k - 1].timestamp_us < path[k].timestamp_us,
    ensures
        oracle_position(path, path[k].timestamp_us as int) == Some(path[k].position()),
        !oracle_clamped(path, path[k].timestamp_us as int),
{
    let stamps = timestamps(path);
    let t = path[k].timestamp_us as int;
    let last = path.len() - 1;
    assert(stamps[0] == path[0].timestamp_us);
    assert(stamps[last] == path[last].timestamp_us);
    assert(stamps[k] == t);
    assert(stamps[0] <= stamps[k] <= stamps[last]);
    assert(path[k].in_range());
    if k == 0 {
        assert(stamps[1] == path[1].timestamp_us);
        assert(stamps[0] <= stamps[1]);
        assert(first_reaching(stamps, t, 1) == 1);
        assert(path[1].in_range());
        let duration = path[1].timestamp_us - path[0].timestamp_us;
        if duration > 0 {
            lemma_hermite_ends(
                path[0].x as int,
                path[0].vx as int,
                path[1].x as int,
                path[1].vx as int,
                duration,
            );
            lemma_hermite_ends(
                path[0].y as int,
                path[0].vy as int,
                path[1].y as int,
                path[1].vy as int,
                duration,
            );
        }
    } else {
        assert(stamps[k - 1] == path[k - 1].timestamp_us);
        lemma_first_reaching(stamps, t, 1, k);
        assert(path[k - 1].in_range());
        let duration = path[k].timestamp_us - path[k - 1].timestamp_us;
        lemma_hermite_ends(
            path[k - 1].x as int,
            path[k - 1].vx as int,
            path[k].x as int,
            path[k].vx as int,
            duration,
        );
        lemma_hermite_ends(
            path[k - 1].y as int,
            path[k - 1].vy as int,
            path[k].y as int,
            path[k].vy as int,
            duration,
        );
    }
}

} // verus!
