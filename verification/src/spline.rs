//! Centripetal Catmull-Rom sampling: knot spacing, the blending pyramid,
//! one curve segment, and chains of segments.
use crate::fixed::{
    clamp_int, clamp_wide, div_floor, first_exceeding, floor_sqrt, frame_offset, interior_count,
    isqrt, lemma_div_exact, lemma_first_exceeding_is, lemma_first_exceeding_skip,
    lemma_floor_sqrt_below,
    lemma_floor_sqrt_bounds, lemma_frame_offset, lemma_interior_count, lemma_mul_bounded,
    lemma_scale_span_monotone, lemma_scale_span_range, non_decreasing, scale_span,
    scale_span_exec,
};
use crate::types::{
    all_at, all_in_range, point_times, times_sorted, CPoint, COORD_MAX, TIME_MAX, UNIT,
};
use vstd::prelude::*;

verus! {

/// The knot value 1.0: knots carry 32 fractional bits.
pub const KNOT_ONE: i64 = 0x1_0000_0000;

/// Largest distance between two neighbouring knots.
pub const KNOT_INTERVAL_MAX: i64 = 0x40_0000_0000_0000;

/// Euclidean distance between two points, in position units, rounded down.
pub open spec fn chord_length(p: CPoint, q: CPoint) -> int {
    floor_sqrt(((q.x - p.x) * (q.x - p.x) + (q.y - p.y) * (q.y - p.y)) as nat) as int
}

/// Square root of a knot value, as a knot value.
pub open spec fn knot_root(v: int) -> int {
    floor_sqrt((v * KNOT_ONE) as nat) as int
}

/// Product of the roots picked by the binary digits of `alpha` below and
/// at `mask`: the digit at `mask` picks the square root of `root`, the next
/// one the root of that, and so on. Each product is cut off at
/// `KNOT_INTERVAL_MAX`.
pub open spec fn root_chain(root: int, acc: int, alpha: int, mask: int) -> int
    decreases mask,
{
    if mask <= 0 {
        acc
    } else {
        let r = knot_root(root);
        let next = if (alpha / mask) % 2 == 1 {
            if acc * r / (KNOT_ONE as int) > KNOT_INTERVAL_MAX {
                KNOT_INTERVAL_MAX as int
            } else {
                acc * r / (KNOT_ONE as int)
            }
        } else {
            acc
        };
        root_chain(r, next, alpha, mask / 2)
    }
}

/// The knot value `d` raised to the power `alpha / UNIT`, for `alpha` up to
/// `UNIT`; a larger `alpha` counts as `UNIT`.
pub open spec fn knot_power(d: int, alpha: int) -> int {
    if alpha >= UNIT {
        d
    } else {
        root_chain(d, KNOT_ONE as int, alpha, 32768)
    }
}

/// Distance in knot space between two consecutive control points: their
/// chord length to the power `alpha / UNIT`, and never zero for two
/// points that lie apart.
pub open spec fn knot_interval(p: CPoint, q: CPoint, alpha: u32) -> int {
    let d = chord_length(p, q) * 65536;
    let v = knot_power(d, alpha as int);
    if d > 0 && v == 0 {
        1
    } else {
        v
    }
}

/// The weighted mean of `a` and `b` at parameter `t` between the knots
/// `t_start` (where it is `a`) and `t_end` (where it is `b`), rounded down
/// and cut off at `limit`. Where the two knots coincide it is `a` up to
/// the knot and `b` after it.
pub open spec fn blend_value(t_end: int, t_start: int, t: int, a: int, b: int, limit: int) -> int {
    let den = t_end - t_start;
    let num = a * (t_end - t) + b * (t - t_start);
    if den == 0 {
        if t <= t_start {
            a
        } else {
            b
        }
    } else if den > 0 {
        clamp_int(num / den, -limit, limit)
    } else {
        clamp_int((-num) / (-den), -limit, limit)
    }
}

/// `blend_value` on both coordinates and on the timestamp.
pub open spec fn blend_point(t_end: int, t_start: int, t: int, a: CPoint, b: CPoint) -> CPoint {
    CPoint {
        x: blend_value(t_end, t_start, t, a.x as int, b.x as int, COORD_MAX as int) as i64,
        y: blend_value(t_end, t_start, t, a.y as int, b.y as int, COORD_MAX as int) as i64,
        timestamp_us: blend_value(
            t_end,
            t_start,
            t,
            a.timestamp_us as int,
            b.timestamp_us as int,
            TIME_MAX as int,
        ) as i64,
    }
}

/// The four knots of a quadruple of control points; the first is zero.
pub open spec fn spline_knots(p0: CPoint, p1: CPoint, p2: CPoint, p3: CPoint, alpha: u32) -> (
    int,
    int,
    int,
    int,
) {
    let t1 = knot_interval(p0, p1, alpha);
    let t2 = t1 + knot_interval(p1, p2, alpha);
    let t3 = t2 + knot_interval(p2, p3, alpha);
    (0, t1, t2, t3)
}

/// The `k`-th of `n` evenly spaced values from `start` to `end`.
pub open spec fn sample_param(start: int, end: int, n: int, k: int) -> int {
    if n <= 1 {
        start
    } else {
        start + scale_span(end - start, k, n - 1)
    }
}

/// The curve through the quadruple at knot parameter `t`: three blends of
/// neighbouring control points, two blends of those, and one blend of the
/// two results.
pub open spec fn pyramid(
    p0: CPoint,
    p1: CPoint,
    p2: CPoint,
    p3: CPoint,
    t0: int,
    t1: int,
    t2: int,
    t3: int,
    t: int,
) -> CPoint {
    let a1 = blend_point(t1, t0, t, p0, p1);
    let a2 = blend_point(t2, t1, t, p1, p2);
    let a3 = blend_point(t3, t2, t, p2, p3);
    let b1 = blend_point(t2, t0, t, a1, a2);
    let b2 = blend_point(t3, t1, t, a2, a3);
    blend_point(t2, t1, t, b1, b2)
}

/// The `k`-th of `n` samples of the curve segment between `p1` and `p2`.
pub open spec fn spline_point(
    p0: CPoint,
    p1: CPoint,
    p2: CPoint,
    p3: CPoint,
    alpha: u32,
    n: int,
    k: int,
) -> CPoint {
    let (t0, t1, t2, t3) = spline_knots(p0, p1, p2, p3, alpha);
    pyramid(p0, p1, p2, p3, t0, t1, t2, t3, sample_param(t1, t2, n, k))
}

/// All `n` samples of the curve segment between `p1` and `p2`.
pub open spec fn spline_samples(
    p0: CPoint,
    p1: CPoint,
    p2: CPoint,
    p3: CPoint,
    n: nat,
    alpha: u32,
) -> Seq<CPoint> {
    Seq::new(n, |k: int| spline_point(p0, p1, p2, p3, alpha, n as int, k))
}

/// The chord length of two points in range is below 2^38, and zero only
/// for two points at the same place.
pub proof fn lemma_chord_length(p: CPoint, q: CPoint)
    requires
        p.in_range(),
        q.in_range(),
    ensures
        0 <= chord_length(p, q) < 0x40_0000_0000,
        chord_length(p, q) == 0 <==> p.same_place(q),
{
    let dx = q.x - p.x;
    let dy = q.y - p.y;
    lemma_mul_bounded(dx, 0x20_0000_0000, dx, 0x20_0000_0000);
    lemma_mul_bounded(dy, 0x20_0000_0000, dy, 0x20_0000_0000);
    assert(dx * dx >= 0 && dy * dy >= 0) by (nonlinear_arith);
    let n = (dx * dx + dy * dy) as nat;
    lemma_floor_sqrt_below(n, 0x40_0000_0000);
    lemma_floor_sqrt_bounds(n);
    if dx != 0 {
        assert(dx * dx >= 1) by (nonlinear_arith)
            requires
                dx != 0,
        ;
    }
    if dy != 0 {
        assert(dy * dy >= 1) by (nonlinear_arith)
            requires
                dy != 0,
        ;
    }
    if chord_length(p, q) == 0 {
        let z = floor_sqrt(n) as int;
        assert((z + 1) * (z + 1) == 1) by (nonlinear_arith)
            requires
                z == 0,
        ;
        assert(n < 1);
    } else {
        let r = chord_length(p, q);
        assert(r * r >= 1) by (nonlinear_arith)
            requires
                r >= 1,
        ;
    }
}

/// The root of a knot value up to `KNOT_INTERVAL_MAX` is at most 2^43.
pub proof fn lemma_knot_root_range(v: int)
    requires
        0 <= v <= KNOT_INTERVAL_MAX,
    ensures
        0 <= knot_root(v) <= 0x800_0000_0000,
{
    assert(0 <= v * KNOT_ONE <= 0x40_0000_0000_0000int * 0x1_0000_0000int) by (nonlinear_arith)
        requires
            0 <= v <= 0x40_0000_0000_0000,
            KNOT_ONE == 0x1_0000_0000,
    ;
    lemma_floor_sqrt_below((v * KNOT_ONE) as nat, 0x800_0000_0001);
}

/// A root chain that starts within the knot range stays within it.
pub proof fn lemma_root_chain_range(root: int, acc: int, alpha: int, mask: int)
    requires
        0 <= root <= KNOT_INTERVAL_MAX,
        0 <= acc <= KNOT_INTERVAL_MAX,
        alpha >= 0,
        mask >= 0,
    ensures
        0 <= root_chain(root, acc, alpha, mask) <= KNOT_INTERVAL_MAX,
    decreases mask,
{
    if mask > 0 {
        lemma_knot_root_range(root);
        let r = knot_root(root);
        assert(acc * r >= 0) by (nonlinear_arith)
            requires
                acc >= 0,
                r >= 0,
        ;
        vstd::arithmetic::div_mod::lemma_div_pos_is_pos(acc * r, KNOT_ONE as int);
        let next = if (alpha / mask) % 2 == 1 {
            if acc * r / (KNOT_ONE as int) > KNOT_INTERVAL_MAX {
                KNOT_INTERVAL_MAX as int
            } else {
                acc * r / (KNOT_ONE as int)
            }
        } else {
            acc
        };
        lemma_root_chain_range(r, next, alpha, mask / 2);
    }
}

/// A knot interval lies within the knot range, and is zero only between
/// two points at the same place.
pub proof fn lemma_knot_interval(p: CPoint, q: CPoint, alpha: u32)
    requires
        p.in_range(),
        q.in_range(),
    ensures
        0 <= knot_interval(p, q, alpha) <= KNOT_INTERVAL_MAX,
        knot_interval(p, q, alpha) == 0 ==> p.same_place(q),
{
    lemma_chord_length(p, q);
    let d = chord_length(p, q) * 65536;
    if alpha < UNIT {
        lemma_root_chain_range(d, KNOT_ONE as int, alpha as int, 32768);
    }
}

/// With exponent zero every knot interval is 1.0.
pub proof fn lemma_knot_interval_uniform(p: CPoint, q: CPoint)
    requires
        p.in_range(),
        q.in_range(),
    ensures
        knot_interval(p, q, 0) == KNOT_ONE,
{
    lemma_chord_length(p, q);
    lemma_root_chain_no_digit(chord_length(p, q) * 65536, KNOT_ONE as int, 32768);
}

/// Without a digit set, a root chain leaves its product as it is.
pub proof fn lemma_root_chain_no_digit(root: int, acc: int, mask: int)
    requires
        mask >= 0,
    ensures
        root_chain(root, acc, 0, mask) == acc,
    decreases mask,
{
    if mask > 0 {
        assert((0int / mask) % 2 == 0) by {
            vstd::arithmetic::div_mod::lemma_div_basics(mask);
        }
        lemma_root_chain_no_digit(knot_root(root), acc, mask / 2);
    }
}

/// With exponent one half a knot interval is the square root of the chord
/// length.
pub proof fn lemma_knot_interval_centripetal(p: CPoint, q: CPoint)
    requires
        p.in_range(),
        q.in_range(),
    ensures
        knot_interval(p, q, 32768) == knot_root(chord_length(p, q) * 65536),
{
    lemma_chord_length(p, q);
    let d = chord_length(p, q) * 65536;
    lemma_knot_root_range(d);
    let r = knot_root(d);
    assert((KNOT_ONE as int) * r / (KNOT_ONE as int) == r) by {
        lemma_div_exact(r, KNOT_ONE as int);
        assert((KNOT_ONE as int) * r == r * (KNOT_ONE as int)) by (nonlinear_arith);
    }
    reveal_with_fuel(root_chain, 18);
    assert(root_chain(d, KNOT_ONE as int, 32768, 32768) == r);
    if d > 0 {
        lemma_floor_sqrt_bounds((d * KNOT_ONE) as nat);
        assert(d * KNOT_ONE >= 1) by (nonlinear_arith)
            requires
                d >= 1,
                KNOT_ONE == 0x1_0000_0000,
        ;
        if r == 0 {
            assert((r + 1) * (r + 1) == 1) by (nonlinear_arith)
                requires
                    r == 0,
            ;
        }
    }
}

/// With exponent `UNIT` a knot interval is the chord length itself.
pub proof fn lemma_knot_interval_chordal(p: CPoint, q: CPoint, alpha: u32)
    requires
        p.in_range(),
        q.in_range(),
        alpha >= UNIT,
    ensures
        knot_interval(p, q, alpha) == chord_length(p, q) * 65536,
{
    lemma_chord_length(p, q);
}

/// Blending a value with itself gives the value.
pub proof fn lemma_blend_same(t_end: int, t_start: int, t: int, a: int, limit: int)
    requires
        -limit <= a <= limit,
    ensures
        blend_value(t_end, t_start, t, a, a, limit) == a,
{
    let den = t_end - t_start;
    let num = a * (t_end - t) + a * (t - t_start);
    assert(num == a * den) by (nonlinear_arith)
        requires
            num == a * (t_end - t) + a * (t - t_start),
            den == t_end - t_start,
    ;
    if den > 0 {
        lemma_div_exact(a, den);
    } else if den < 0 {
        assert(-num == a * (-den)) by (nonlinear_arith)
            requires
                num == a * den,
        ;
        lemma_div_exact(a, -den);
    }
}

/// At the start knot a blend is its first value.
pub proof fn lemma_blend_at_start(t_end: int, t_start: int, a: int, b: int, limit: int)
    requires
        -limit <= a <= limit,
    ensures
        blend_value(t_end, t_start, t_start, a, b, limit) == a,
{
    let den = t_end - t_start;
    let num = a * (t_end - t_start) + b * (t_start - t_start);
    assert(num == a * den) by (nonlinear_arith)
        requires
            num == a * (t_end - t_start) + b * (t_start - t_start),
            den == t_end - t_start,
    ;
    if den > 0 {
        lemma_div_exact(a, den);
    } else if den < 0 {
        assert(-num == a * (-den)) by (nonlinear_arith)
            requires
                num == a * den,
        ;
        lemma_div_exact(a, -den);
    }
}

/// At the end knot a blend is its second value, unless the two knots
/// coincide.
pub proof fn lemma_blend_at_end(t_end: int, t_start: int, a: int, b: int, limit: int)
    requires
        -limit <= b <= limit,
        t_end != t_start,
    ensures
        blend_value(t_end, t_start, t_end, a, b, limit) == b,
{
    let den = t_end - t_start;
    let num = a * (t_end - t_end) + b * (t_end - t_start);
    assert(num == b * den) by (nonlinear_arith)
        requires
            num == a * (t_end - t_end) + b * (t_end - t_start),
            den == t_end - t_start,
    ;
    if den > 0 {
        lemma_div_exact(b, den);
    } else {
        assert(-num == b * (-den)) by (nonlinear_arith)
            requires
                num == b * den,
        ;
        lemma_div_exact(b, -den);
    }
}

/// Distance between two points in knot units: the chord length with 32
/// fractional bits.
fn chord_knot(p: &CPoint, q: &CPoint) -> (d: i64)
    requires
        p.in_range(),
        q.in_range(),
    ensures
        d == chord_length(*p, *q) * 65536,
        0 <= d <= KNOT_INTERVAL_MAX,
{
    let dx: i128 = q.x as i128 - p.x as i128;
    let dy: i128 = q.y as i128 - p.y as i128;
    proof {
        lemma_mul_bounded(dx as int, 0x20_0000_0000, dx as int, 0x20_0000_0000);
        lemma_mul_bounded(dy as int, 0x20_0000_0000, dy as int, 0x20_0000_0000);
        assert(dx * dx >= 0 && dy * dy >= 0) by (nonlinear_arith);
        lemma_chord_length(*p, *q);
    }
    let sum: i128 = dx * dx + dy * dy;
    let r: u64 = isqrt(sum as u128);
    (r as i64) * 65536
}

/// The knot value `d` to the power `alpha / UNIT`.
fn knot_power_exec(d: i64, alpha: u32) -> (v: i64)
    requires
        0 <= d <= KNOT_INTERVAL_MAX,
    ensures
        v == knot_power(d as int, alpha as int),
        0 <= v <= KNOT_INTERVAL_MAX,
{
    if alpha >= UNIT {
        return d;
    }
    let mut root: i64 = d;
    let mut acc: i64 = KNOT_ONE;
    let mut mask: u32 = 32768;
    while mask > 0
        invariant
            0 <= root <= KNOT_INTERVAL_MAX,
            0 <= acc <= KNOT_INTERVAL_MAX,
            root_chain(root as int, acc as int, alpha as int, mask as int) == root_chain(
                d as int,
                KNOT_ONE as int,
                alpha as int,
                32768,
            ),
        decreases mask,
    {
        proof {
            lemma_knot_root_range(root as int);
            assert(0 <= root * KNOT_ONE <= 0x40_0000_0000_0000int * 0x1_0000_0000int)
                by (nonlinear_arith)
                requires
                    0 <= root <= 0x40_0000_0000_0000,
                    KNOT_ONE == 0x1_0000_0000,
            ;
        }
        let r: i64 = isqrt((root as u128) * (KNOT_ONE as u128)) as i64;
        if (alpha / mask) % 2 == 1 {
            proof {
                lemma_mul_bounded(acc as int, 0x40_0000_0000_0000, r as int, 0x800_0000_0000);
                assert(acc * r >= 0) by (nonlinear_arith)
                    requires
                        acc >= 0,
                        r >= 0,
                ;
                vstd::arithmetic::div_mod::lemma_div_pos_is_pos(acc * r, KNOT_ONE as int);
            }
            let prod: i128 = (acc as i128 * r as i128) / (KNOT_ONE as i128);
            acc = if prod > KNOT_INTERVAL_MAX as i128 {
                KNOT_INTERVAL_MAX
            } else {
                prod as i64
            };
        }
        root = r;
        mask = mask / 2;
    }
    acc
}

/// Advances a knot by the interval between two control points:
/// `t_i + |p_j - p_i|^alpha`.
pub fn calculate_t_j(t_i: i64, p_i: &CPoint, p_j: &CPoint, alpha: u32) -> (t_j: i64)
    requires
        p_i.in_range(),
        p_j.in_range(),
        t_i <= i64::MAX - KNOT_INTERVAL_MAX,
    ensures
        t_j == t_i + knot_interval(*p_i, *p_j, alpha),
{
    let d: i64 = chord_knot(p_i, p_j);
    let v: i64 = knot_power_exec(d, alpha);
    if d > 0 && v == 0 {
        t_i + 1
    } else {
        t_i + v
    }
}

/// `num_points` evenly spaced values from `start` to `end`, both included
/// when there are at least two.
pub fn linspace(start: i64, end: i64, num_points: usize) -> (values: Vec<i64>)
    ensures
        values.len() == num_points,
        forall|k: int|
            0 <= k < num_points ==> #[trigger] values[k] == sample_param(
                start as int,
                end as int,
                num_points as int,
                k,
            ),
{
    let mut values: Vec<i64> = Vec::new();
    if num_points == 0 {
        return values;
    }
    if num_points == 1 {
        values.push(start);
        return values;
    }
    let diff: i128 = end as i128 - start as i128;
    let last: u64 = (num_points - 1) as u64;
    let mut k: usize = 0;
    while k < num_points
        invariant
            num_points >= 2,
            last == num_points - 1,
            diff == end - start,
            k <= num_points,
            values.len() == k,
            forall|j: int|
                0 <= j < k ==> #[trigger] values[j] == sample_param(
                    start as int,
                    end as int,
                    num_points as int,
                    j,
                ),
        decreases num_points - k,
    {
        proof {
            lemma_scale_span_range(diff as int, k as int, last as int);
        }
        let step: i128 = scale_span_exec(diff, k as u64, last);
        values.push((start as i128 + step) as i64);
        k += 1;
    }
    values
}

/// The weighted mean of two values between two knots.
fn blend_exec(t_end: i64, t_start: i64, t: i64, a: i64, b: i64, limit: i64) -> (r: i64)
    requires
        0 < limit <= TIME_MAX,
        -limit <= a <= limit,
        -limit <= b <= limit,
    ensures
        r == blend_value(t_end as int, t_start as int, t as int, a as int, b as int, limit as int),
        -limit <= r <= limit,
{
    if t_end == t_start {
        if t <= t_start {
            a
        } else {
            b
        }
    } else {
        let den: i128 = t_end as i128 - t_start as i128;
        let w1: i128 = t_end as i128 - t as i128;
        let w2: i128 = t as i128 - t_start as i128;
        proof {
            lemma_mul_bounded(a as int, TIME_MAX as int, w1 as int, 0x1_0000_0000_0000_0000);
            lemma_mul_bounded(b as int, TIME_MAX as int, w2 as int, 0x1_0000_0000_0000_0000);
        }
        let num: i128 = (a as i128) * w1 + (b as i128) * w2;
        let q: i128 = if den > 0 {
            div_floor(num, den)
        } else {
            div_floor(-num, -den)
        };
        clamp_wide(q, -limit, limit)
    }
}

/// The weighted mean of two points at parameter `t` between the knots
/// `t_start` and `t_end`.
pub fn interpolate_points(t_end: i64, t_start: i64, t: i64, p_start: &CPoint, p_end: &CPoint) -> (p:
    CPoint)
    requires
        p_start.in_range(),
        p_end.in_range(),
    ensures
        p == blend_point(t_end as int, t_start as int, t as int, *p_start, *p_end),
        p.in_range(),
{
    CPoint {
        x: blend_exec(t_end, t_start, t, p_start.x, p_end.x, COORD_MAX),
        y: blend_exec(t_end, t_start, t, p_start.y, p_end.y, COORD_MAX),
        timestamp_us: blend_exec(
            t_end,
            t_start,
            t,
            p_start.timestamp_us,
            p_end.timestamp_us,
            TIME_MAX,
        ),
    }
}

/// Samples the curve segment between `p1` and `p2` of the centripetal
/// Catmull-Rom spline through four control points at `num_points` evenly
/// spaced knot parameters.
pub fn catmull_rom_spline(
    p0: CPoint,
    p1: CPoint,
    p2: CPoint,
    p3: CPoint,
    num_points: usize,
    alpha: u32,
) -> (points: Vec<CPoint>)
    requires
        p0.in_range(),
        p1.in_range(),
        p2.in_range(),
        p3.in_range(),
    ensures
        points@ == spline_samples(p0, p1, p2, p3, num_points as nat, alpha),
        all_in_range(points@),
{
    proof {
        lemma_knot_interval(p0, p1, alpha);
        lemma_knot_interval(p1, p2, alpha);
        lemma_knot_interval(p2, p3, alpha);
    }
    let t_0: i64 = 0;
    let t_1: i64 = calculate_t_j(t_0, &p0, &p1, alpha);
    let t_2: i64 = calculate_t_j(t_1, &p1, &p2, alpha);
    let t_3: i64 = calculate_t_j(t_2, &p2, &p3, alpha);
    let t_values: Vec<i64> = linspace(t_1, t_2, num_points);
    let mut points: Vec<CPoint> = Vec::new();
    let mut k: usize = 0;
    while k < num_points
        invariant
            p0.in_range(),
            p1.in_range(),
            p2.in_range(),
            p3.in_range(),
            (t_0 as int, t_1 as int, t_2 as int, t_3 as int) == spline_knots(p0, p1, p2, p3, alpha),
            t_values.len() == num_points,
            forall|j: int|
                0 <= j < num_points ==> #[trigger] t_values[j] == sample_param(
                    t_1 as int,
                    t_2 as int,
                    num_points as int,
                    j,
                ),
            k <= num_points,
            points.len() == k,
            forall|j: int|
                0 <= j < k ==> #[trigger] points[j] == spline_point(
                    p0,
                    p1,
                    p2,
                    p3,
                    alpha,
                    num_points as int,
                    j,
                ),
            all_in_range(points@),
        decreases num_points - k,
    {
        let t: i64 = t_values[k];
        let a_1: CPoint = interpolate_points(t_1, t_0, t, &p0, &p1);
        let a_2: CPoint = interpolate_points(t_2, t_1, t, &p1, &p2);
        let a_3: CPoint = interpolate_points(t_3, t_2, t, &p2, &p3);
        let b_1: CPoint = interpolate_points(t_2, t_0, t, &a_1, &a_2);
        let b_2: CPoint = interpolate_points(t_3, t_1, t, &a_2, &a_3);
        let final_point: CPoint = interpolate_points(t_2, t_1, t, &b_1, &b_2);
        points.push(final_point);
        k += 1;
    }
    assert(points@ =~= spline_samples(p0, p1, p2, p3, num_points as nat, alpha));
    points
}

/// A blend of two points in range is in range.
pub proof fn lemma_blend_point_range(t_end: int, t_start: int, t: int, a: CPoint, b: CPoint)
    requires
        a.in_range(),
        b.in_range(),
    ensures
        blend_point(t_end, t_start, t, a, b).in_range(),
{
}

/// Blending a point with itself gives the point.
pub proof fn lemma_blend_point_same(t_end: int, t_start: int, t: int, a: CPoint)
    requires
        a.in_range(),
    ensures
        blend_point(t_end, t_start, t, a, a) == a,
{
    lemma_blend_same(t_end, t_start, t, a.x as int, COORD_MAX as int);
    lemma_blend_same(t_end, t_start, t, a.y as int, COORD_MAX as int);
    lemma_blend_same(t_end, t_start, t, a.timestamp_us as int, TIME_MAX as int);
}

/// A blend of two points at one place lies at that place.
pub proof fn lemma_blend_point_same_place(t_end: int, t_start: int, t: int, a: CPoint, b: CPoint)
    requires
        a.in_range(),
        b.in_range(),
        a.same_place(b),
    ensures
        blend_point(t_end, t_start, t, a, b).same_place(a),
{
    lemma_blend_same(t_end, t_start, t, a.x as int, COORD_MAX as int);
    lemma_blend_same(t_end, t_start, t, a.y as int, COORD_MAX as int);
}

/// At the start knot a blend of points is the first point.
pub proof fn lemma_blend_point_at_start(t_end: int, t_start: int, a: CPoint, b: CPoint)
    requires
        a.in_range(),
    ensures
        blend_point(t_end, t_start, t_start, a, b) == a,
{
    lemma_blend_at_start(t_end, t_start, a.x as int, b.x as int, COORD_MAX as int);
    lemma_blend_at_start(t_end, t_start, a.y as int, b.y as int, COORD_MAX as int);
    lemma_blend_at_start(
        t_end,
        t_start,
        a.timestamp_us as int,
        b.timestamp_us as int,
        TIME_MAX as int,
    );
}

/// At the end knot a blend of points is the second point, unless the two
/// knots coincide.
pub proof fn lemma_blend_point_at_end(t_end: int, t_start: int, a: CPoint, b: CPoint)
    requires
        b.in_range(),
        t_end != t_start,
    ensures
        blend_point(t_end, t_start, t_end, a, b) == b,
{
    lemma_blend_at_end(t_end, t_start, a.x as int, b.x as int, COORD_MAX as int);
    lemma_blend_at_end(t_end, t_start, a.y as int, b.y as int, COORD_MAX as int);
    lemma_blend_at_end(
        t_end,
        t_start,
        a.timestamp_us as int,
        b.timestamp_us as int,
        TIME_MAX as int,
    );
}

/// The first sample of a curve segment lies at `p1`. It is `p1`, timestamp
/// included, where `p0` lies apart from `p1` or is the same point.
pub proof fn lemma_spline_starts_at_p1(
    p0: CPoint,
    p1: CPoint,
    p2: CPoint,
    p3: CPoint,
    alpha: u32,
    n: int,
)
    requires
        p0.in_range(),
        p1.in_range(),
        p2.in_range(),
        p3.in_range(),
        n >= 1,
    ensures
        spline_point(p0, p1, p2, p3, alpha, n, 0).same_place(p1),
        knot_interval(p0, p1, alpha) > 0 || p0 == p1 ==> spline_point(p0, p1, p2, p3, alpha, n, 0)
            == p1,
{
    lemma_knot_interval(p0, p1, alpha);
    lemma_knot_interval(p1, p2, alpha);
    lemma_knot_interval(p2, p3, alpha);
    let (t0, t1, t2, t3) = spline_knots(p0, p1, p2, p3, alpha);
    if n > 1 {
        lemma_scale_span_range(t2 - t1, 0, n - 1);
    }
    let t = sample_param(t1, t2, n, 0);
    assert(t == t1);
    let a1 = blend_point(t1, t0, t, p0, p1);
    let a2 = blend_point(t2, t1, t, p1, p2);
    let a3 = blend_point(t3, t2, t, p2, p3);
    let b1 = blend_point(t2, t0, t, a1, a2);
    let b2 = blend_point(t3, t1, t, a2, a3);
    if t1 != t0 {
        lemma_blend_point_at_end(t1, t0, p0, p1);
        assert(a1 == p1);
    } else {
        assert(a1 == p0);
        assert(p0.same_place(p1));
    }
    lemma_blend_point_at_start(t2, t1, p1, p2);
    assert(a2 == p1);
    lemma_blend_point_same_place(t2, t0, t, a1, a2);
    if a1 == p1 {
        lemma_blend_point_same(t2, t0, t, p1);
    }
    lemma_blend_point_range(t2, t0, t, a1, a2);
    lemma_blend_point_at_start(t2, t1, b1, b2);
}

/// The last of two or more samples of a curve segment lies at `p2`. It is
/// `p2`, timestamp included, where `p1` lies apart from `p2`.
pub proof fn lemma_spline_ends_at_p2(
    p0: CPoint,
    p1: CPoint,
    p2: CPoint,
    p3: CPoint,
    alpha: u32,
    n: int,
)
    requires
        p0.in_range(),
        p1.in_range(),
        p2.in_range(),
        p3.in_range(),
        n >= 2,
    ensures
        spline_point(p0, p1, p2, p3, alpha, n, n - 1).same_place(p2),
        knot_interval(p1, p2, alpha) > 0 ==> spline_point(p0, p1, p2, p3, alpha, n, n - 1) == p2,
{
    lemma_knot_interval(p0, p1, alpha);
    lemma_knot_interval(p1, p2, alpha);
    lemma_knot_interval(p2, p3, alpha);
    let (t0, t1, t2, t3) = spline_knots(p0, p1, p2, p3, alpha);
    lemma_scale_span_range(t2 - t1, n - 1, n - 1);
    let t = sample_param(t1, t2, n, n - 1);
    assert(t == t2);
    let a1 = blend_point(t1, t0, t, p0, p1);
    let a2 = blend_point(t2, t1, t, p1, p2);
    let a3 = blend_point(t3, t2, t, p2, p3);
    let b1 = blend_point(t2, t0, t, a1, a2);
    let b2 = blend_point(t3, t1, t, a2, a3);
    lemma_blend_point_range(t1, t0, t, p0, p1);
    lemma_blend_point_at_start(t3, t2, p2, p3);
    assert(a3 == p2);
    if t2 != t1 {
        lemma_blend_point_at_end(t2, t1, p1, p2);
        assert(a2 == p2);
        lemma_blend_point_at_end(t2, t0, a1, a2);
        assert(b1 == p2);
        lemma_blend_point_same(t3, t1, t, p2);
        assert(b2 == p2);
        lemma_blend_point_at_end(t2, t1, b1, b2);
    } else {
        assert(a2 == p1);
        assert(p1.same_place(p2));
        if t2 != t0 {
            lemma_blend_point_at_end(t2, t0, a1, a2);
            assert(b1 == a2);
        } else {
            assert(a1 == p0);
            assert(b1 == a1);
            assert(p0.same_place(p1));
        }
        assert(b1.same_place(p2));
    }
}

/// The samples of the first `segs` windows of four consecutive points, one
/// window after the other, `counts[i]` samples for the window that starts
/// at point `i`.
pub open spec fn window_chain(points: Seq<CPoint>, counts: Seq<nat>, alpha: u32, segs: nat) -> Seq<
    CPoint,
>
    decreases segs,
{
    if segs == 0 {
        Seq::empty()
    } else {
        let i = segs - 1;
        window_chain(points, counts, alpha, (segs - 1) as nat) + spline_samples(
            points[i],
            points[i + 1],
            points[i + 2],
            points[i + 3],
            counts[i],
            alpha,
        )
    }
}

/// The same count for each of `segs` windows.
pub open spec fn uniform_counts(segs: nat, n: nat) -> Seq<nat> {
    Seq::new(segs, |i: int| n)
}

/// A list of signed counts as sample counts: none for a count below one,
/// and at most `usize::MAX`.
pub open spec fn listed_counts(counts: Seq<i64>) -> Seq<nat> {
    Seq::new(counts.len(), |i: int| listed_count(counts[i]))
}

/// One signed count as a sample count.
pub open spec fn listed_count(c: i64) -> nat {
    if c <= 0 {
        0
    } else if c > usize::MAX {
        usize::MAX as nat
    } else {
        c as nat
    }
}

/// Appends `items` to `out`.
fn append_points(out: &mut Vec<CPoint>, items: &Vec<CPoint>, from: usize)
    requires
        from <= items.len(),
    ensures
        final(out)@ == old(out)@ + items@.skip(from as int),
{
    let mut j: usize = from;
    while j < items.len()
        invariant
            from <= j <= items.len(),
            out@ == old(out)@ + items@.subrange(from as int, j as int),
        decreases items.len() - j,
    {
        out.push(items[j]);
        assert(items@.subrange(from as int, j + 1) == items@.subrange(from as int, j as int).push(
            items@[j as int],
        ));
        j += 1;
    }
    assert(items@.subrange(from as int, items.len() as int) == items@.skip(from as int));
}

/// Samples every window of `quadruple_size` consecutive control points
/// with `num_points_per_segment` samples between the window's second and
/// third point. Fewer points than one window, or a window of fewer than
/// four points, give nothing.
pub fn catmull_rom_chain(
    points: &[CPoint],
    num_points_per_segment: usize,
    alpha: u32,
    quadruple_size: usize,
) -> (chain: Vec<CPoint>)
    requires
        all_in_range(points@),
    ensures
        quadruple_size < 4 || points.len() < quadruple_size ==> chain@.len() == 0,
        quadruple_size >= 4 && points.len() >= quadruple_size ==> chain@ == window_chain(
            points@,
            uniform_counts(
                (points.len() - quadruple_size + 1) as nat,
                num_points_per_segment as nat,
            ),
            alpha,
            (points.len() - quadruple_size + 1) as nat,
        ),
        all_in_range(chain@),
{
    let mut chain: Vec<CPoint> = Vec::new();
    if quadruple_size < 4 || points.len() < quadruple_size {
        return chain;
    }
    let segs: usize = points.len() - quadruple_size + 1;
    let ghost counts = uniform_counts(segs as nat, num_points_per_segment as nat);
    let mut i: usize = 0;
    while i < segs
        invariant
            quadruple_size >= 4,
            points.len() >= quadruple_size,
            segs == points.len() - quadruple_size + 1,
            counts == uniform_counts(segs as nat, num_points_per_segment as nat),
            all_in_range(points@),
            i <= segs,
            chain@ == window_chain(points@, counts, alpha, i as nat),
            all_in_range(chain@),
        decreases segs - i,
    {
        let segment: Vec<CPoint> = catmull_rom_spline(
            points[i],
            points[i + 1],
            points[i + 2],
            points[i + 3],
            num_points_per_segment,
            alpha,
        );
        append_points(&mut chain, &segment, 0);
        assert(segment@.skip(0) == segment@);
        i += 1;
    }
    chain
}

/// Samples the curve through `raw_points` window by window, with
/// `points_per_segment[i]` samples between the second and third point of
/// the window that starts at point `i`. Nothing comes back unless there
/// are at least four points and exactly one count for each window.
pub fn smooth_cursor_path(
    raw_points: &[CPoint],
    points_per_segment: &[i64],
    alpha: u32,
    _tension: u32,
    _friction: u32,
    _mass: u32,
) -> (path: Vec<CPoint>)
    requires
        all_in_range(raw_points@),
    ensures
        raw_points.len() < 4 || points_per_segment.len() != raw_points.len() - 3 ==> path@.len()
            == 0,
        raw_points.len() >= 4 && points_per_segment.len() == raw_points.len() - 3 ==> path@
            == window_chain(
            raw_points@,
            listed_counts(points_per_segment@),
            alpha,
            (raw_points.len() - 3) as nat,
        ),
        all_in_range(path@),
{
    let mut path: Vec<CPoint> = Vec::new();
    if raw_points.len() < 4 || points_per_segment.len() != raw_points.len() - 3 {
        return path;
    }
    let segs: usize = raw_points.len() - 3;
    let ghost counts = listed_counts(points_per_segment@);
    let mut i: usize = 0;
    while i < segs
        invariant
            raw_points.len() >= 4,
            segs == raw_points.len() - 3,
            points_per_segment.len() == segs,
            counts == listed_counts(points_per_segment@),
            all_in_range(raw_points@),
            i <= segs,
            path@ == window_chain(raw_points@, counts, alpha, i as nat),
            all_in_range(path@),
        decreases segs - i,
    {
        let c: i64 = points_per_segment[i];
        let n: usize = if c <= 0 {
            0
        } else if c as u64 > usize::MAX as u64 {
            usize::MAX
        } else {
            c as usize
        };
        assert(n == listed_count(c));
        let segment: Vec<CPoint> = catmull_rom_spline(
            raw_points[i],
            raw_points[i + 1],
            raw_points[i + 2],
            raw_points[i + 3],
            n,
            alpha,
        );
        append_points(&mut path, &segment, 0);
        assert(segment@.skip(0) == segment@);
        i += 1;
    }
    path
}

/// Frames that fit between two timestamps at `frame_rate` frames per
/// second, rounded to the nearest whole number: at least one, and at most
/// `usize::MAX`.
pub open spec fn frame_count(t_a: int, t_b: int, frame_rate: int) -> nat {
    let frames = ((t_b - t_a) * frame_rate + 500_000) / 1_000_000;
    if frames < 1 {
        1
    } else if frames > usize::MAX {
        usize::MAX as nat
    } else {
        frames as nat
    }
}

/// Frames between two timestamps.
fn frame_count_exec(t_a: i64, t_b: i64, frame_rate: i32) -> (n: usize)
    ensures
        n == frame_count(t_a as int, t_b as int, frame_rate as int),
        n >= 1,
{
    let dt: i128 = t_b as i128 - t_a as i128;
    proof {
        lemma_mul_bounded(dt as int, 0x1_0000_0000_0000_0000, frame_rate as int, 0x8000_0000);
    }
    let frames: i128 = div_floor(dt * (frame_rate as i128) + 500_000, 1_000_000);
    if frames < 1 {
        1
    } else if frames > usize::MAX as i128 {
        usize::MAX
    } else {
        frames as usize
    }
}

/// The number of frames between each point and the next.
pub fn calculate_frames_between_points(cursor_points: &[CPoint], frame_rate: i32) -> (counts: Vec<
    usize,
>)
    ensures
        cursor_points.len() == 0 ==> counts.len() == 0,
        cursor_points.len() > 0 ==> counts.len() == cursor_points.len() - 1,
        forall|i: int|
            0 <= i < counts.len() ==> #[trigger] counts[i] == frame_count(
                cursor_points[i].timestamp_us as int,
                cursor_points[i + 1].timestamp_us as int,
                frame_rate as int,
            ),
{
    let mut counts: Vec<usize> = Vec::new();
    if cursor_points.len() == 0 {
        return counts;
    }
    let mut i: usize = 0;
    while i < cursor_points.len() - 1
        invariant
            cursor_points.len() > 0,
            i <= cursor_points.len() - 1,
            counts.len() == i,
            forall|j: int|
                0 <= j < i ==> #[trigger] counts[j] == frame_count(
                    cursor_points[j].timestamp_us as int,
                    cursor_points[j + 1].timestamp_us as int,
                    frame_rate as int,
                ),
        decreases cursor_points.len() - 1 - i,
    {
        counts.push(
            frame_count_exec(
                cursor_points[i].timestamp_us,
                cursor_points[i + 1].timestamp_us,
                frame_rate,
            ),
        );
        i += 1;
    }
    counts
}

/// The control points with the first and the last one doubled, so that
/// every point is the second of a window of four but the last, which is
/// the third of the last window.
pub open spec fn extended(points: Seq<CPoint>) -> Seq<CPoint> {
    seq![points[0]] + points + seq![points[points.len() - 1]]
}

/// The `n` samples of the curve segment between `p1` and `p2`, with
/// timestamps spread evenly from that of `p1` to that of `p2`.
pub open spec fn retimed_samples(
    p0: CPoint,
    p1: CPoint,
    p2: CPoint,
    p3: CPoint,
    n: nat,
    alpha: u32,
) -> Seq<CPoint> {
    Seq::new(
        n,
        |k: int|
            CPoint {
                x: spline_point(p0, p1, p2, p3, alpha, n as int, k).x,
                y: spline_point(p0, p1, p2, p3, alpha, n as int, k).y,
                timestamp_us: sample_param(
                    p1.timestamp_us as int,
                    p2.timestamp_us as int,
                    n as int,
                    k,
                ) as i64,
            },
    )
}

/// The curve through the first `segs + 1` control points at the cadence of
/// `frame_rate`: every segment sampled with as many points as frames fit
/// into its time span, and the first sample of every segment but the first
/// left out, since it repeats the junction.
pub open spec fn frame_chain(ext: Seq<CPoint>, frame_rate: int, alpha: u32, segs: nat) -> Seq<
    CPoint,
>
    decreases segs,
{
    if segs == 0 {
        Seq::empty()
    } else {
        let i = segs - 1;
        let samples = retimed_samples(
            ext[i],
            ext[i + 1],
            ext[i + 2],
            ext[i + 3],
            frame_count(
                ext[i + 1].timestamp_us as int,
                ext[i + 2].timestamp_us as int,
                frame_rate,
            ),
            alpha,
        );
        frame_chain(ext, frame_rate, alpha, (segs - 1) as nat) + (if i == 0 {
            samples
        } else {
            samples.skip(1)
        })
    }
}

/// Samples one segment and spreads the timestamps evenly over it.
fn retimed_segment(p0: CPoint, p1: CPoint, p2: CPoint, p3: CPoint, n: usize, alpha: u32) -> (points:
    Vec<CPoint>)
    requires
        p0.in_range(),
        p1.in_range(),
        p2.in_range(),
        p3.in_range(),
    ensures
        points@ == retimed_samples(p0, p1, p2, p3, n as nat, alpha),
        all_in_range(points@),
{
    let mut points: Vec<CPoint> = catmull_rom_spline(p0, p1, p2, p3, n, alpha);
    let ghost sampled = points@;
    let dt: i128 = p2.timestamp_us as i128 - p1.timestamp_us as i128;
    let mut k: usize = 0;
    while k < n
        invariant
            p1.in_range(),
            p2.in_range(),
            dt == p2.timestamp_us - p1.timestamp_us,
            sampled == spline_samples(p0, p1, p2, p3, n as nat, alpha),
            all_in_range(sampled),
            points.len() == n,
            k <= n,
            forall|j: int|
                0 <= j < k ==> #[trigger] points[j] == retimed_samples(
                    p0,
                    p1,
                    p2,
                    p3,
                    n as nat,
                    alpha,
                )[j],
            forall|j: int| k <= j < n ==> #[trigger] points[j] == sampled[j],
            all_in_range(points@),
        decreases n - k,
    {
        let ts: i64 = if n > 1 {
            proof {
                lemma_scale_span_range(dt as int, k as int, n - 1);
            }
            let step: i128 = scale_span_exec(dt, k as u64, (n - 1) as u64);
            (p1.timestamp_us as i128 + step) as i64
        } else {
            p1.timestamp_us
        };
        let sample: CPoint = points[k];
        assert(sample == sampled[k as int]);
        assert(sample.in_range());
        points.set(k, CPoint { x: sample.x, y: sample.y, timestamp_us: ts });
        k += 1;
    }
    assert(points@ =~= retimed_samples(p0, p1, p2, p3, n as nat, alpha));
    points
}

/// Traces the curve through `clean_points` at the cadence of `frame_rate`
/// frames per second. The ends of the sequence are doubled so that the
/// curve runs from the first point to the last; each segment gets as many
/// samples as frames fit into its time span; the sample at the start of
/// every segment after the first is left out. Fewer than four points give
/// nothing.
pub fn smooth_cursor_path_internal(clean_points: &[CPoint], frame_rate: i32, alpha: u32) -> (path:
    Vec<CPoint>)
    requires
        all_in_range(clean_points@),
    ensures
        clean_points.len() < 4 ==> path@.len() == 0,
        clean_points.len() >= 4 ==> path@ == frame_chain(
            extended(clean_points@),
            frame_rate as int,
            alpha,
            (clean_points.len() - 1) as nat,
        ),
        all_in_range(path@),
{
    let mut path: Vec<CPoint> = Vec::new();
    let n: usize = clean_points.len();
    if n < 4 {
        return path;
    }
    let mut ext: Vec<CPoint> = Vec::new();
    ext.push(clean_points[0]);
    let mut j: usize = 0;
    while j < n
        invariant
            n == clean_points.len(),
            n >= 4,
            j <= n,
            ext@ == seq![clean_points@[0]] + clean_points@.subrange(0, j as int),
        decreases n - j,
    {
        ext.push(clean_points[j]);
        assert(clean_points@.subrange(0, j + 1) == clean_points@.subrange(0, j as int).push(
            clean_points@[j as int],
        ));
        j += 1;
    }
    assert(clean_points@.subrange(0, n as int) == clean_points@);
    ext.push(clean_points[n - 1]);
    assert(ext@ == extended(clean_points@));
    assert(all_in_range(ext@)) by {
        assert forall|i: int| 0 <= i < ext@.len() implies (#[trigger] ext@[i]).in_range() by {
            if i == 0 {
            } else if i <= n {
                assert(ext@[i] == clean_points@[i - 1]);
            } else {
                assert(ext@[i] == clean_points@[n - 1]);
            }
        }
    }
    let mut seg: usize = 0;
    while seg < n - 1
        invariant
            n == clean_points.len(),
            n >= 4,
            ext@ == extended(clean_points@),
            ext@.len() == n + 2,
            all_in_range(ext@),
            seg <= n - 1,
            path@ == frame_chain(ext@, frame_rate as int, alpha, seg as nat),
            all_in_range(path@),
        decreases n - 1 - seg,
    {
        let p0: CPoint = ext[seg];
        let p1: CPoint = ext[seg + 1];
        let p2: CPoint = ext[seg + 2];
        let p3: CPoint = ext[seg + 3];
        let count: usize = frame_count_exec(p1.timestamp_us, p2.timestamp_us, frame_rate);
        let samples: Vec<CPoint> = retimed_segment(p0, p1, p2, p3, count, alpha);
        if seg == 0 {
            append_points(&mut path, &samples, 0);
            assert(samples@.skip(0) == samples@);
        } else {
            append_points(&mut path, &samples, 1);
        }
        seg += 1;
    }
    path
}

/// The curve through four or more control points has at least one sample,
/// and its first sample is the first control point.
pub proof fn lemma_frame_chain_starts(
    points: Seq<CPoint>,
    frame_rate: int,
    alpha: u32,
    segs: nat,
)
    requires
        all_in_range(points),
        points.len() >= 2,
        1 <= segs <= points.len() - 1,
    ensures
        frame_chain(extended(points), frame_rate, alpha, segs).len() >= 1,
        frame_chain(extended(points), frame_rate, alpha, segs)[0] == points[0],
    decreases segs,
{
    let ext = extended(points);
    assert(ext[0] == points[0]);
    assert(ext[1] == points[0]);
    assert(ext[2] == points[1]);
    if segs == 1 {
        let n = frame_count(ext[1].timestamp_us as int, ext[2].timestamp_us as int, frame_rate);
        let samples = retimed_samples(ext[0], ext[1], ext[2], ext[3], n, alpha);
        assert(frame_chain(ext, frame_rate, alpha, 0) =~= Seq::empty());
        assert(frame_chain(ext, frame_rate, alpha, 1) =~= samples);
        assert(ext[3].in_range()) by {
            if points.len() == 2 {
                assert(ext[3] == points[1]);
            } else {
                assert(ext[3] == points[2]);
            }
        }
        lemma_spline_starts_at_p1(ext[0], ext[1], ext[2], ext[3], alpha, n as int);
        if n > 1 {
            lemma_scale_span_range(ext[2].timestamp_us - ext[1].timestamp_us, 0, n - 1);
        }
    } else {
        lemma_frame_chain_starts(points, frame_rate, alpha, (segs - 1) as nat);
    }
}

/// The control points with doubled ends never go back in time if the
/// control points do not.
pub proof fn lemma_extended_sorted(points: Seq<CPoint>)
    requires
        points.len() >= 1,
        times_sorted(points),
    ensures
        times_sorted(extended(points)),
        extended(points).len() == points.len() + 2,
{
    let ext = extended(points);
    let n = points.len() as int;
    assert forall|i: int, j: int| 0 <= i <= j < ext.len() implies (#[trigger] ext[i]).timestamp_us
        <= (#[trigger] ext[j]).timestamp_us by {
        let a = if i == 0 {
            0
        } else if i <= n {
            i - 1
        } else {
            n - 1
        };
        let b = if j == 0 {
            0
        } else if j <= n {
            j - 1
        } else {
            n - 1
        };
        assert(ext[i] == points[a]);
        assert(ext[j] == points[b]);
    }
}

/// The timestamps of the samples of one segment run from that of `p1`
/// to that of `p2` and never go back, if `p2` is not earlier than `p1`.
pub proof fn lemma_retimed_samples_sorted(
    p0: CPoint,
    p1: CPoint,
    p2: CPoint,
    p3: CPoint,
    n: nat,
    alpha: u32,
)
    requires
        p1.timestamp_us <= p2.timestamp_us,
    ensures
        times_sorted(retimed_samples(p0, p1, p2, p3, n, alpha)),
        forall|k: int|
            0 <= k < n ==> p1.timestamp_us <= (#[trigger] retimed_samples(
                p0,
                p1,
                p2,
                p3,
                n,
                alpha,
            )[k]).timestamp_us <= p2.timestamp_us,
{
    let samples = retimed_samples(p0, p1, p2, p3, n, alpha);
    let t1 = p1.timestamp_us as int;
    let t2 = p2.timestamp_us as int;
    assert forall|k: int| 0 <= k < n implies t1 <= (#[trigger] samples[k]).timestamp_us <= t2
        && samples[k].timestamp_us == sample_param(t1, t2, n as int, k) by {
        if n > 1 {
            lemma_scale_span_range(t2 - t1, k, n - 1);
        }
    }
    assert forall|i: int, j: int| 0 <= i <= j < samples.len() implies (
    #[trigger] samples[i]).timestamp_us <= (#[trigger] samples[j]).timestamp_us by {
        if n > 1 {
            lemma_scale_span_monotone(t2 - t1, i, j, n - 1);
        }
    }
}

/// The curve at the frame cadence never goes back in time if the control
/// points do not, and none of its samples is later than the control point
/// at which it ends.
pub proof fn lemma_frame_chain_sorted(
    points: Seq<CPoint>,
    frame_rate: int,
    alpha: u32,
    segs: nat,
)
    requires
        points.len() >= 2,
        segs <= points.len() - 1,
        times_sorted(points),
    ensures
        times_sorted(frame_chain(extended(points), frame_rate, alpha, segs)),
        forall|k: int|
            0 <= k < frame_chain(extended(points), frame_rate, alpha, segs).len() ==> (
            #[trigger] frame_chain(extended(points), frame_rate, alpha, segs)[k]).timestamp_us
                <= extended(points)[segs as int + 1].timestamp_us,
    decreases segs,
{
    let ext = extended(points);
    lemma_extended_sorted(points);
    if segs > 0 {
        lemma_frame_chain_sorted(points, frame_rate, alpha, (segs - 1) as nat);
        let i = segs - 1;
        let before = frame_chain(ext, frame_rate, alpha, (segs - 1) as nat);
        let n = frame_count(
            ext[i + 1].timestamp_us as int,
            ext[i + 2].timestamp_us as int,
            frame_rate,
        );
        let samples = retimed_samples(ext[i], ext[i + 1], ext[i + 2], ext[i + 3], n, alpha);
        assert(ext[i + 1].timestamp_us <= ext[i + 2].timestamp_us);
        lemma_retimed_samples_sorted(ext[i], ext[i + 1], ext[i + 2], ext[i + 3], n, alpha);
        let added = if i == 0 {
            samples
        } else {
            samples.skip(1)
        };
        let all = frame_chain(ext, frame_rate, alpha, segs);
        assert(all == before + added);
        assert forall|k: int| 0 <= k < added.len() implies ext[i + 1].timestamp_us <= (
        #[trigger] added[k]).timestamp_us <= ext[i + 2].timestamp_us by {
            if i == 0 {
                assert(added[k] == samples[k]);
            } else {
                assert(added[k] == samples[k + 1]);
            }
        }
        assert forall|a: int, b: int| 0 <= a <= b < all.len() implies (
        #[trigger] all[a]).timestamp_us <= (#[trigger] all[b]).timestamp_us by {
            let m = before.len() as int;
            if b < m {
                assert(all[a] == before[a] && all[b] == before[b]);
            } else {
                assert(all[b] == added[b - m]);
                if a < m {
                    assert(all[a] == before[a]);
                } else {
                    assert(all[a] == added[a - m]);
                    if i == 0 {
                        assert(added[a - m] == samples[a - m]);
                        assert(added[b - m] == samples[b - m]);
                    } else {
                        assert(added[a - m] == samples[a - m + 1]);
                        assert(added[b - m] == samples[b - m + 1]);
                    }
                }
            }
        }
        assert forall|k: int| 0 <= k < all.len() implies (#[trigger] all[k]).timestamp_us <= ext[i
            + 2].timestamp_us by {
            let m = before.len() as int;
            if k < m {
                assert(all[k] == before[k]);
            } else {
                assert(all[k] == added[k - m]);
            }
        }
    }
}

/// The curve segment between control points that all lie at one place
/// stays at that place.
pub proof fn lemma_spline_point_at(
    p0: CPoint,
    p1: CPoint,
    p2: CPoint,
    p3: CPoint,
    alpha: u32,
    n: int,
    k: int,
)
    requires
        p0.in_range(),
        p1.in_range(),
        p2.in_range(),
        p3.in_range(),
        p1.same_place(p0),
        p2.same_place(p0),
        p3.same_place(p0),
    ensures
        spline_point(p0, p1, p2, p3, alpha, n, k).same_place(p0),
{
    let (t0, t1, t2, t3) = spline_knots(p0, p1, p2, p3, alpha);
    let t = sample_param(t1, t2, n, k);
    let a1 = blend_point(t1, t0, t, p0, p1);
    let a2 = blend_point(t2, t1, t, p1, p2);
    let a3 = blend_point(t3, t2, t, p2, p3);
    lemma_blend_point_same_place(t1, t0, t, p0, p1);
    lemma_blend_point_same_place(t2, t1, t, p1, p2);
    lemma_blend_point_same_place(t3, t2, t, p2, p3);
    lemma_blend_point_range(t1, t0, t, p0, p1);
    lemma_blend_point_range(t2, t1, t, p1, p2);
    lemma_blend_point_range(t3, t2, t, p2, p3);
    let b1 = blend_point(t2, t0, t, a1, a2);
    let b2 = blend_point(t3, t1, t, a2, a3);
    lemma_blend_point_same_place(t2, t0, t, a1, a2);
    lemma_blend_point_same_place(t3, t1, t, a2, a3);
    lemma_blend_point_range(t2, t0, t, a1, a2);
    lemma_blend_point_range(t3, t1, t, a2, a3);
    lemma_blend_point_same_place(t2, t1, t, b1, b2);
}

/// The curve through control points that all lie at one place stays at
/// that place.
pub proof fn lemma_frame_chain_at(points: Seq<CPoint>, frame_rate: int, alpha: u32, segs: nat)
    requires
        points.len() >= 2,
        segs <= points.len() - 1,
        all_in_range(points),
        all_at(points, points[0]),
    ensures
        all_at(frame_chain(extended(points), frame_rate, alpha, segs), points[0]),
    decreases segs,
{
    let ext = extended(points);
    let n_points = points.len() as int;
    assert forall|j: int| 0 <= j < ext.len() implies (#[trigger] ext[j]).in_range()
        && ext[j].same_place(points[0]) by {
        let a = if j == 0 {
            0
        } else if j <= n_points {
            j - 1
        } else {
            n_points - 1
        };
        assert(ext[j] == points[a]);
    }
    if segs > 0 {
        lemma_frame_chain_at(points, frame_rate, alpha, (segs - 1) as nat);
        let i = segs - 1;
        let before = frame_chain(ext, frame_rate, alpha, (segs - 1) as nat);
        let n = frame_count(
            ext[i + 1].timestamp_us as int,
            ext[i + 2].timestamp_us as int,
            frame_rate,
        );
        let samples = retimed_samples(ext[i], ext[i + 1], ext[i + 2], ext[i + 3], n, alpha);
        assert forall|k: int| 0 <= k < n implies (#[trigger] samples[k]).same_place(points[0]) by {
            lemma_spline_point_at(ext[i], ext[i + 1], ext[i + 2], ext[i + 3], alpha, n as int, k);
        }
        let added = if i == 0 {
            samples
        } else {
            samples.skip(1)
        };
        let all = frame_chain(ext, frame_rate, alpha, segs);
        assert(all == before + added);
        assert forall|k: int| 0 <= k < all.len() implies (#[trigger] all[k]).same_place(
            points[0],
        ) by {
            let m = before.len() as int;
            if k < m {
                assert(all[k] == before[k]);
            } else {
                assert(all[k] == added[k - m]);
                if i == 0 {
                    assert(added[k - m] == samples[k - m]);
                } else {
                    assert(added[k - m] == samples[k - m + 1]);
                }
            }
        }
    }
}

/// The curve through more control points begins with the curve through
/// fewer.
pub proof fn lemma_frame_chain_grows(
    ext: Seq<CPoint>,
    frame_rate: int,
    alpha: u32,
    fewer: nat,
    more: nat,
)
    requires
        fewer <= more,
    ensures
        frame_chain(ext, frame_rate, alpha, fewer).len() <= frame_chain(
            ext,
            frame_rate,
            alpha,
            more,
        ).len(),
        forall|k: int|
            0 <= k < frame_chain(ext, frame_rate, alpha, fewer).len() ==> #[trigger] frame_chain(
                ext,
                frame_rate,
                alpha,
                more,
            )[k] == frame_chain(ext, frame_rate, alpha, fewer)[k],
    decreases more,
{
    if fewer < more {
        lemma_frame_chain_grows(ext, frame_rate, alpha, fewer, (more - 1) as nat);
    }
}

/// The curve passes through the control points: where two or more frames
/// fit between control point `k - 1` and control point `k`, the sample
/// with which the curve up to control point `k` ends lies at that
/// control point and carries its timestamp, and it keeps its place as the
/// curve goes on.
pub proof fn lemma_frame_chain_passes_through(
    points: Seq<CPoint>,
    frame_rate: int,
    alpha: u32,
    segs: nat,
    k: nat,
)
    requires
        all_in_range(points),
        points.len() >= 2,
        1 <= k <= segs <= points.len() - 1,
        frame_count(
            points[k - 1].timestamp_us as int,
            points[k as int].timestamp_us as int,
            frame_rate,
        ) >= 2,
    ensures
        frame_chain(extended(points), frame_rate, alpha, k).len() >= 1,
        frame_chain(extended(points), frame_rate, alpha, k).len() <= frame_chain(
            extended(points),
            frame_rate,
            alpha,
            segs,
        ).len(),
        frame_chain(extended(points), frame_rate, alpha, segs)[frame_chain(
            extended(points),
            frame_rate,
            alpha,
            k,
        ).len() - 1].same_place(points[k as int]),
        frame_chain(extended(points), frame_rate, alpha, segs)[frame_chain(
            extended(points),
            frame_rate,
            alpha,
            k,
        ).len() - 1].timestamp_us == points[k as int].timestamp_us,
{
    let ext = extended(points);
    let n_points = points.len() as int;
    let i = k - 1;
    assert(ext[i + 1] == points[i]);
    assert(ext[i + 2] == points[k as int]);
    assert forall|j: int| 0 <= j < ext.len() implies (#[trigger] ext[j]).in_range() by {
        let a = if j == 0 {
            0
        } else if j <= n_points {
            j - 1
        } else {
            n_points - 1
        };
        assert(ext[j] == points[a]);
    }
    let n = frame_count(
        ext[i + 1].timestamp_us as int,
        ext[i + 2].timestamp_us as int,
        frame_rate,
    );
    let samples = retimed_samples(ext[i], ext[i + 1], ext[i + 2], ext[i + 3], n, alpha);
    lemma_spline_ends_at_p2(ext[i], ext[i + 1], ext[i + 2], ext[i + 3], alpha, n as int);
    lemma_scale_span_range(ext[i + 2].timestamp_us - ext[i + 1].timestamp_us, n - 1, n - 1);
    assert(samples[n - 1].same_place(points[k as int]));
    assert(samples[n - 1].timestamp_us == points[k as int].timestamp_us);
    let upto = frame_chain(ext, frame_rate, alpha, k);
    let before = frame_chain(ext, frame_rate, alpha, (k - 1) as nat);
    let added = if i == 0 {
        samples
    } else {
        samples.skip(1)
    };
    assert(upto == before + added);
    assert(added.len() >= 1);
    assert(upto[upto.len() - 1] == added[added.len() - 1]);
    assert(added[added.len() - 1] == samples[n - 1]);
    lemma_frame_chain_grows(ext, frame_rate, alpha, k, segs);
}

/// At its second knot the curve through four points is at its second
/// point, if the first knot lies apart from the second or the first point
/// is the second.
pub proof fn lemma_pyramid_at_p1(
    p0: CPoint,
    p1: CPoint,
    p2: CPoint,
    p3: CPoint,
    t0: int,
    t1: int,
    t2: int,
    t3: int,
)
    requires
        p0.in_range(),
        p1.in_range(),
        p2.in_range(),
        p3.in_range(),
        t1 != t0 || p0 == p1,
    ensures
        pyramid(p0, p1, p2, p3, t0, t1, t2, t3, t1) == p1,
{
    let t = t1;
    let a1 = blend_point(t1, t0, t, p0, p1);
    let a2 = blend_point(t2, t1, t, p1, p2);
    let a3 = blend_point(t3, t2, t, p2, p3);
    let b1 = blend_point(t2, t0, t, a1, a2);
    let b2 = blend_point(t3, t1, t, a2, a3);
    if t1 != t0 {
        lemma_blend_point_at_end(t1, t0, p0, p1);
    } else {
        lemma_blend_point_same(t1, t0, t, p1);
    }
    assert(a1 == p1);
    lemma_blend_point_at_start(t2, t1, p1, p2);
    assert(a2 == p1);
    lemma_blend_point_same(t2, t0, t, p1);
    assert(b1 == p1);
    lemma_blend_point_at_start(t3, t1, a2, a3);
    lemma_blend_point_at_start(t2, t1, b1, b2);
}

/// The cursor at time `t` between the first and the last of the points:
/// the curve through the two points that bracket `t` and their two
/// neighbours, with the timestamps of the four as its knots. At either end
/// of the sequence the missing neighbour is the end point itself.
pub open spec fn resampled_point(points: Seq<CPoint>, t: int) -> CPoint {
    let j = first_exceeding(point_times(points), t, 0) - 1;
    let p1 = points[j];
    let p2 = points[j + 1];
    let p0 = if j > 0 {
        points[j - 1]
    } else {
        p1
    };
    let p3 = if j + 2 < points.len() {
        points[j + 2]
    } else {
        p2
    };
    let on_curve = pyramid(
        p0,
        p1,
        p2,
        p3,
        p0.timestamp_us as int,
        p1.timestamp_us as int,
        p2.timestamp_us as int,
        p3.timestamp_us as int,
        t,
    );
    CPoint { x: on_curve.x, y: on_curve.y, timestamp_us: t as i64 }
}

/// The points resampled at the cadence of `frame_rate`: the first point,
/// then the cursor at every frame time that lies after the first point and
/// before the last, counted from the first point, then the last point.
/// No points give nothing; a single point, or points that span no time,
/// give the first point alone.
pub open spec fn resampled(points: Seq<CPoint>, frame_rate: int) -> Seq<CPoint> {
    if points.len() == 0 {
        Seq::empty()
    } else if points.len() == 1 || points[points.len() - 1].timestamp_us
        <= points[0].timestamp_us {
        seq![points[0]]
    } else {
        let start = points[0].timestamp_us as int;
        let span = points[points.len() - 1].timestamp_us - points[0].timestamp_us;
        (seq![points[0]] + Seq::new(
            interior_count(span, frame_rate) as nat,
            |i: int| resampled_point(points, start + frame_offset(i + 1, frame_rate)),
        )).push(points[points.len() - 1])
    }
}

/// Points whose timestamps never decrease have timestamps that never
/// decrease.
pub proof fn lemma_point_times_sorted(points: Seq<CPoint>)
    requires
        times_sorted(points),
    ensures
        non_decreasing(point_times(points)),
{
    let stamps = point_times(points);
    assert forall|i: int, j: int| 0 <= i <= j < stamps.len() implies #[trigger] stamps[i]
        <= #[trigger] stamps[j] by {
        assert(stamps[i] == points[i].timestamp_us);
        assert(stamps[j] == points[j].timestamp_us);
    }
}

/// A frame that falls on the time of a point gives that point, if the
/// point before it is earlier and the point after it later.
pub proof fn lemma_resampled_point_on_anchor(points: Seq<CPoint>, j: int)
    requires
        all_in_range(points),
        times_sorted(points),
        0 <= j < points.len() - 1,
        points[j].timestamp_us < points[j + 1].timestamp_us,
        j > 0 ==> points[j - 1].timestamp_us < points[j].timestamp_us,
    ensures
        resampled_point(points, points[j].timestamp_us as int) == points[j],
{
    let stamps = point_times(points);
    lemma_point_times_sorted(points);
    assert(stamps[j] == points[j].timestamp_us);
    assert(stamps[j + 1] == points[j + 1].timestamp_us);
    lemma_first_exceeding_is(stamps, points[j].timestamp_us as int, 0, j + 1);
    let p1 = points[j];
    let p2 = points[j + 1];
    let p0 = if j > 0 {
        points[j - 1]
    } else {
        p1
    };
    let p3 = if j + 2 < points.len() {
        points[j + 2]
    } else {
        p2
    };
    lemma_pyramid_at_p1(
        p0,
        p1,
        p2,
        p3,
        p0.timestamp_us as int,
        p1.timestamp_us as int,
        p2.timestamp_us as int,
        p3.timestamp_us as int,
    );
}

/// What resampling keeps of its input: the result of one point or more
/// starts with the first point; where the points span time, it ends with
/// the last point and has every frame in between at its time after the
/// first point; and its timestamps never decrease.
pub proof fn lemma_resampled_frames(points: Seq<CPoint>, frame_rate: int)
    requires
        points.len() >= 1,
    ensures
        resampled(points, frame_rate).len() >= 1,
        resampled(points, frame_rate)[0] == points[0],
        points[points.len() - 1].timestamp_us > points[0].timestamp_us ==> {
            &&& resampled(points, frame_rate).len() == interior_count(
                points[points.len() - 1].timestamp_us - points[0].timestamp_us,
                frame_rate,
            ) + 2
            &&& resampled(points, frame_rate)[resampled(points, frame_rate).len() - 1]
                == points[points.len() - 1]
            &&& forall|k: int|
                0 < k < resampled(points, frame_rate).len() - 1 ==> (#[trigger] resampled(
                    points,
                    frame_rate,
                )[k]).timestamp_us == points[0].timestamp_us + frame_offset(k, frame_rate)
        },
        points[points.len() - 1].timestamp_us <= points[0].timestamp_us ==> resampled(
            points,
            frame_rate,
        ).len() == 1,
        times_sorted(resampled(points, frame_rate)),
{
    let out = resampled(points, frame_rate);
    let last = points[points.len() - 1];
    let start = points[0].timestamp_us as int;
    let span = last.timestamp_us - start;
    if points.len() > 1 && span > 0 {
        let count = interior_count(span, frame_rate);
        lemma_interior_count(span, frame_rate);
        assert(out.len() == count + 2);
        assert(out[0] == points[0]);
        assert(out[count + 1] == last);
        assert forall|k: int| 0 < k < out.len() - 1 implies (#[trigger] out[k]).timestamp_us
            == start + frame_offset(k, frame_rate) && start <= out[k].timestamp_us
            < last.timestamp_us by {
            lemma_frame_offset(span, frame_rate, k, k);
            assert(out[k] == resampled_point(points, start + frame_offset(k - 1 + 1, frame_rate)));
        }
        assert forall|a: int, b: int| 0 <= a <= b < out.len() implies (
        #[trigger] out[a]).timestamp_us <= (#[trigger] out[b]).timestamp_us by {
            if 0 < a && b < out.len() - 1 {
                lemma_frame_offset(span, frame_rate, a, b);
            }
        }
    }
}

/// Whether the timestamps of the points never decrease.
fn in_time_order(points: &[CPoint]) -> (ok: bool)
    ensures
        ok == times_sorted(points@),
{
    let mut i: usize = 1;
    while i < points.len()
        invariant
            1 <= i,
            forall|a: int, b: int|
                0 <= a <= b < i && b < points.len() ==> (#[trigger] points@[a]).timestamp_us <= (
                #[trigger] points@[b]).timestamp_us,
        decreases points.len() - i,
    {
        if points[i - 1].timestamp_us > points[i].timestamp_us {
            return false;
        }
        assert forall|a: int, b: int| 0 <= a <= b < i + 1 && b < points.len() implies (
        #[trigger] points@[a]).timestamp_us <= (#[trigger] points@[b]).timestamp_us by {
            if b == i && a < i {
                assert(points@[a].timestamp_us <= points@[i - 1].timestamp_us);
            }
        }
        i += 1;
    }
    true
}

/// Resamples the points at the cadence of `frame_rate` frames per second:
/// the first point, then one point for every frame time between the first
/// point and the last, then the last point. The frame times are counted
/// from the first point. Between two points the cursor follows the
/// Catmull-Rom curve through them and their neighbours, with the
/// timestamps as knots; the exponent of the knot spacing plays no part.
/// No points give nothing; a single point, or points that share one
/// timestamp, give the first point alone.
pub fn interpolate_to_framerate(clean_points: &[CPoint], frame_rate: i32, _alpha: u32) -> (path:
    Vec<CPoint>)
    requires
        all_in_range(clean_points@),
    ensures
        path@ == resampled(clean_points@, frame_rate as int),
        all_in_range(path@),
        times_sorted(path@),
        clean_points.len() == 0 ==> path@.len() == 0,
        clean_points.len() >= 1 ==> path@.len() >= 1 && path@[0] == clean_points@[0],
        clean_points.len() == 1 ==> path@.len() == 1,
        clean_points.len() >= 1 && clean_points@[clean_points.len() - 1].timestamp_us
            > clean_points@[0].timestamp_us ==> path@[path@.len() - 1]
            == clean_points@[clean_points.len() - 1],
        forall|k: int|
            0 < k < path@.len() - 1 ==> (#[trigger] path@[k]).timestamp_us
                == clean_points@[0].timestamp_us + frame_offset(k, frame_rate as int),
{
    let mut path: Vec<CPoint> = Vec::new();
    let n: usize = clean_points.len();
    if n == 0 {
        return path;
    }
    proof {
        lemma_resampled_frames(clean_points@, frame_rate as int);
    }
    let first: CPoint = clean_points[0];
    let last: CPoint = clean_points[n - 1];
    path.push(first);
    if n == 1 || last.timestamp_us <= first.timestamp_us {
        assert(path@ =~= resampled(clean_points@, frame_rate as int));
        return path;
    }
    let start: i64 = first.timestamp_us;
    let span: i64 = last.timestamp_us - start;
    let ghost stamps = point_times(clean_points@);
    let ghost points = clean_points@;
    let ghost fr = frame_rate as int;
    let count: i128 = if frame_rate <= 0 {
        0
    } else {
        proof {
            lemma_mul_bounded(span as int, 0x20_0000_0000_0000, frame_rate as int, 0x8000_0000);
            assert(span * frame_rate >= 1) by (nonlinear_arith)
                requires
                    span >= 1,
                    frame_rate >= 1,
            ;
        }
        ((span as i128) * (frame_rate as i128) - 1) / 1_000_000
    };
    proof {
        lemma_interior_count(span as int, frame_rate as int);
        assert(stamps[0] == start);
        assert(stamps[n - 1] == last.timestamp_us);
    }
    if count > 0 {
        // In points that are in time order the search for the bracket of a
        // frame goes on where that of the frame before ended.
        let ordered: bool = in_time_order(clean_points);
        proof {
            if ordered {
                lemma_point_times_sorted(points);
            }
            lemma_frame_offset(span as int, fr, 0, 0);
        }
        let mut j: usize = 0;
        let mut k: i128 = 1;
        while k <= count
            invariant
                n == clean_points.len(),
                n >= 2,
                points == clean_points@,
                all_in_range(points),
                stamps == point_times(points),
                ordered ==> non_decreasing(stamps),
                fr == frame_rate as int,
                frame_rate > 0,
                first == points[0],
                start == first.timestamp_us,
                stamps[0] == start,
                last == points[n - 1],
                stamps[n - 1] == last.timestamp_us,
                span == last.timestamp_us - start,
                span > 0,
                count == interior_count(span as int, fr),
                1 <= k <= count + 1,
                j < n - 1,
                ordered ==> stamps[j as int] <= start + frame_offset(k - 1, fr),
                !ordered ==> j == 0,
                path@ == seq![first] + Seq::new(
                    (k - 1) as nat,
                    |i: int| resampled_point(points, start + frame_offset(i + 1, fr)),
                ),
                all_in_range(path@),
            decreases count + 1 - k,
        {
            proof {
                lemma_frame_offset(span as int, fr, k - 1, k as int);
                assert(count * 1_000_000 <= span * frame_rate - 1) by {
                    vstd::arithmetic::div_mod::lemma_fundamental_div_mod(
                        span * frame_rate - 1,
                        1_000_000,
                    );
                    vstd::arithmetic::div_mod::lemma_mod_bound(span * frame_rate - 1, 1_000_000);
                }
                lemma_mul_bounded(span as int, 0x20_0000_0000_0000, fr, 0x8000_0000);
            }
            let tau: i64 = (k * 1_000_000 / (frame_rate as i128)) as i64;
            let t: i64 = start + tau;
            proof {
                if ordered {
                    assert forall|i: int| 0 <= i < j + 1 implies stamps[i] <= t by {
                        assert(stamps[i] <= stamps[j as int]);
                    }
                }
                lemma_first_exceeding_skip(stamps, t as int, 0, j + 1);
            }
            while clean_points[j + 1].timestamp_us <= t
                invariant
                    n == clean_points.len(),
                    points == clean_points@,
                    stamps == point_times(points),
                    stamps[n - 1] == last.timestamp_us,
                    t < last.timestamp_us,
                    j < n - 1,
                    first_exceeding(stamps, t as int, j + 1) == first_exceeding(stamps, t as int, 0),
                decreases n - j,
            {
                assert(stamps[j + 1] == points[j + 1].timestamp_us);
                j += 1;
            }
            proof {
                assert(stamps[j + 1] == points[j + 1].timestamp_us);
                assert(first_exceeding(stamps, t as int, 0) == j + 1);
                if ordered {
                    assert(stamps[j as int] <= t) by {
                        if j > 0 {
                            crate::fixed::lemma_first_exceeding(stamps, t as int, 0);
                        }
                    }
                }
            }
            let p1: CPoint = clean_points[j];
            let p2: CPoint = clean_points[j + 1];
            let p0: CPoint = if j > 0 {
                clean_points[j - 1]
            } else {
                p1
            };
            let p3: CPoint = if j + 2 < n {
                clean_points[j + 2]
            } else {
                p2
            };
            let t_0: i64 = p0.timestamp_us;
            let t_1: i64 = p1.timestamp_us;
            let t_2: i64 = p2.timestamp_us;
            let t_3: i64 = p3.timestamp_us;
            let a_1: CPoint = interpolate_points(t_1, t_0, t, &p0, &p1);
            let a_2: CPoint = interpolate_points(t_2, t_1, t, &p1, &p2);
            let a_3: CPoint = interpolate_points(t_3, t_2, t, &p2, &p3);
            let b_1: CPoint = interpolate_points(t_2, t_0, t, &a_1, &a_2);
            let b_2: CPoint = interpolate_points(t_3, t_1, t, &a_2, &a_3);
            let on_curve: CPoint = interpolate_points(t_2, t_1, t, &b_1, &b_2);
            let frame = CPoint { x: on_curve.x, y: on_curve.y, timestamp_us: t };
            assert(frame == resampled_point(points, start + frame_offset(k as int, fr)));
            assert(first.in_range() && last.in_range());
            path.push(frame);
            assert(path@ =~= seq![first] + Seq::new(
                k as nat,
                |i: int| resampled_point(points, start + frame_offset(i + 1, fr)),
            ));
            if !ordered {
                j = 0;
            }
            k += 1;
        }
    }
    path.push(last);
    assert(path@ =~= resampled(clean_points@, frame_rate as int));
    path
}

} // verus!
