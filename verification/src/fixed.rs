//! Integer building blocks of the fixed-point arithmetic: floor division,
//! saturation, integer square roots, proportional parts of a span, and
//! the search for a value in a sorted sequence.
use vstd::prelude::*;

verus! {

/// `v` limited to the closed interval `[lo, hi]`.
pub open spec fn clamp_int(v: int, lo: int, hi: int) -> int {
    if v < lo {
        lo
    } else if v > hi {
        hi
    } else {
        v
    }
}

/// The largest natural number whose square does not exceed `n`.
pub open spec fn floor_sqrt(n: nat) -> nat
    decreases n,
{
    if n == 0 {
        0
    } else {
        let r = floor_sqrt((n - 1) as nat);
        if (r + 1) * (r + 1) <= n {
            r + 1
        } else {
            r
        }
    }
}

/// `floor_sqrt(n)` brackets `n` between two consecutive squares.
pub proof fn lemma_floor_sqrt_bounds(n: nat)
    ensures
        floor_sqrt(n) * floor_sqrt(n) <= n,
        n < (floor_sqrt(n) + 1) * (floor_sqrt(n) + 1),
    decreases n,
{
    let f = floor_sqrt(n) as int;
    if n > 0 {
        lemma_floor_sqrt_bounds((n - 1) as nat);
        let r = floor_sqrt((n - 1) as nat) as int;
        assert((r + 2) * (r + 2) > (r + 1) * (r + 1)) by (nonlinear_arith)
            requires
                r >= 0,
        ;
        if (r + 1) * (r + 1) <= n {
            assert(f == r + 1);
        } else {
            assert(f == r);
        }
    } else {
        assert(f * f == 0) by (nonlinear_arith)
            requires
                f == 0,
        ;
        assert((f + 1) * (f + 1) == 1) by (nonlinear_arith)
            requires
                f == 0,
        ;
    }
}

/// Squaring is monotone on the naturals.
pub proof fn lemma_square_monotone(a: nat, b: nat)
    requires
        a <= b,
    ensures
        a * a <= b * b,
{
    assert(a * a <= b * b) by (nonlinear_arith)
        requires
            a <= b,
    ;
}

/// Only one natural number is bracketed by `n` in the way `floor_sqrt(n)` is.
pub proof fn lemma_floor_sqrt_unique(n: nat, r: nat)
    requires
        r * r <= n,
        n < (r + 1) * (r + 1),
    ensures
        r == floor_sqrt(n),
{
    lemma_floor_sqrt_bounds(n);
    let s = floor_sqrt(n);
    if r < s {
        lemma_square_monotone(r + 1, s);
    } else if s < r {
        lemma_square_monotone(s + 1, r);
    }
}

/// Floor division by a positive divisor.
pub fn div_floor(a: i128, b: i128) -> (q: i128)
    requires
        b > 0,
    ensures
        q == a / b,
{
    let t: i128 = a / b;
    let r: i128 = a % b;
    proof {
        if a < 0 {
            let m = -(a as int);
            let qm = m / (b as int);
            let rm = m % (b as int);
            vstd::arithmetic::div_mod::lemma_fundamental_div_mod(m, b as int);
            vstd::arithmetic::div_mod::lemma_mod_bound(m, b as int);
            vstd::arithmetic::div_mod::lemma_div_pos_is_pos(m, b as int);
            if rm > 0 {
                assert(qm * 2 <= m) by (nonlinear_arith)
                    requires
                        b >= 2,
                        qm >= 0,
                        m == b * qm + rm,
                        rm >= 0,
                ;
                assert(a as int == (-qm - 1) * b + (b - rm)) by (nonlinear_arith)
                    requires
                        m == b * qm + rm,
                        a as int == -m,
                ;
                vstd::arithmetic::div_mod::lemma_fundamental_div_mod_converse(
                    a as int,
                    b as int,
                    -qm - 1,
                    b - rm,
                );
            } else {
                assert(a as int == (-qm) * b + 0) by (nonlinear_arith)
                    requires
                        m == b * qm + rm,
                        rm == 0,
                        a as int == -m,
                ;
                vstd::arithmetic::div_mod::lemma_fundamental_div_mod_converse(
                    a as int,
                    b as int,
                    -qm,
                    0,
                );
            }
        }
    }
    if r < 0 {
        t - 1
    } else {
        t
    }
}

/// Saturation of a wide value into `[lo, hi]`.
pub fn clamp_wide(v: i128, lo: i64, hi: i64) -> (r: i64)
    requires
        lo <= hi,
    ensures
        r == clamp_int(v as int, lo as int, hi as int),
{
    if v < lo as i128 {
        lo
    } else if v > hi as i128 {
        hi
    } else {
        v as i64
    }
}

/// Integer square root of a 128-bit value.
pub fn isqrt(n: u128) -> (r: u64)
    ensures
        r == floor_sqrt(n as nat),
{
    let mut lo: u128 = 0;
    let mut hi: u128 = 0x1_0000_0000_0000_0000;
    assert(0x1_0000_0000_0000_0000int * 0x1_0000_0000_0000_0000int > n) by (nonlinear_arith)
        requires
            n <= 0xffff_ffff_ffff_ffff_ffff_ffff_ffff_ffff,
    ;
    while hi - lo > 1
        invariant
            lo < hi <= 0x1_0000_0000_0000_0000,
            lo * lo <= n,
            n < hi * hi,
        decreases hi - lo,
    {
        let mid: u128 = lo + (hi - lo) / 2;
        assert(mid * mid <= 0xffff_ffff_ffff_ffffint * 0xffff_ffff_ffff_ffffint) by (nonlinear_arith)
            requires
                0 <= mid <= 0xffff_ffff_ffff_ffff,
        ;
        if mid * mid <= n {
            lo = mid;
        } else {
            hi = mid;
        }
    }
    proof {
        lemma_floor_sqrt_unique(n as nat, lo as nat);
    }
    lo as u64
}

/// The product of two bounded integers is bounded by the product of the bounds.
pub proof fn lemma_mul_bounded(a: int, a_max: int, b: int, b_max: int)
    requires
        -a_max <= a <= a_max,
        -b_max <= b <= b_max,
    ensures
        -(a_max * b_max) <= a * b <= a_max * b_max,
{
    assert(-(a_max * b_max) <= a * b <= a_max * b_max) by (nonlinear_arith)
        requires
            -a_max <= a <= a_max,
            -b_max <= b <= b_max,
    ;
}

/// A square root stays below any number whose square exceeds the argument.
pub proof fn lemma_floor_sqrt_below(n: nat, b: nat)
    requires
        n < b * b,
    ensures
        floor_sqrt(n) < b,
{
    lemma_floor_sqrt_bounds(n);
    if floor_sqrt(n) >= b {
        lemma_square_monotone(b, floor_sqrt(n));
    }
}

/// A multiple of a positive divisor divides back exactly.
pub proof fn lemma_div_exact(a: int, d: int)
    requires
        d > 0,
    ensures
        (a * d) / d == a,
{
    vstd::arithmetic::div_mod::lemma_div_multiples_vanish(a, d);
    assert(a * d == d * a) by (nonlinear_arith);
}

/// Floor division by a positive divisor is monotone in the dividend.
pub proof fn lemma_div_monotone(a: int, b: int, d: int)
    requires
        d > 0,
        a <= b,
    ensures
        a / d <= b / d,
{
    vstd::arithmetic::div_mod::lemma_div_is_ordered(a, b, d);
}

/// A quotient by a positive divisor is no larger in magnitude than the
/// bound of the dividend.
pub proof fn lemma_div_bound(a: int, bound: int, d: int)
    requires
        -bound <= a <= bound,
        d >= 1,
    ensures
        -bound <= a / d <= bound,
{
    vstd::arithmetic::div_mod::lemma_fundamental_div_mod(a, d);
    vstd::arithmetic::div_mod::lemma_mod_bound(a, d);
    let q = a / d;
    assert(-bound <= q <= bound) by (nonlinear_arith)
        requires
            a == d * q + a % d,
            0 <= a % d < d,
            d >= 1,
            -bound <= a <= bound,
    ;
}

/// `diff * k / m`, rounded down, for a step `k` of `m` across a span `diff`.
pub open spec fn scale_span(diff: int, k: int, m: int) -> int {
    diff * k / m
}

/// A fraction `k / m` of a span lies between zero and the span.
pub proof fn lemma_scale_span_range(diff: int, k: int, m: int)
    requires
        0 <= k <= m,
        m > 0,
    ensures
        diff >= 0 ==> 0 <= scale_span(diff, k, m) <= diff,
        diff <= 0 ==> diff <= scale_span(diff, k, m) <= 0,
        k == 0 ==> scale_span(diff, k, m) == 0,
        k == m ==> scale_span(diff, k, m) == diff,
{
    if diff >= 0 {
        assert(0 <= diff * k <= diff * m) by (nonlinear_arith)
            requires
                0 <= k <= m,
                diff >= 0,
        ;
        lemma_div_monotone(0, diff * k, m);
        lemma_div_monotone(diff * k, diff * m, m);
    } else {
        assert(diff * m <= diff * k <= 0) by (nonlinear_arith)
            requires
                0 <= k <= m,
                diff <= 0,
        ;
        lemma_div_monotone(diff * m, diff * k, m);
        lemma_div_monotone(diff * k, 0, m);
    }
    lemma_div_exact(diff, m);
    assert(0int / m == 0) by {
        vstd::arithmetic::div_mod::lemma_div_multiples_vanish(0, m);
        assert(m * 0 == 0);
    }
    if k == 0 {
        assert(diff * k == 0) by (nonlinear_arith)
            requires
                k == 0,
        ;
    }
}

/// A later step of the same span lies further along it.
pub proof fn lemma_scale_span_monotone(diff: int, j: int, k: int, m: int)
    requires
        0 <= j <= k,
        m > 0,
        diff >= 0,
    ensures
        scale_span(diff, j, m) <= scale_span(diff, k, m),
{
    assert(diff * j <= diff * k) by (nonlinear_arith)
        requires
            0 <= j <= k,
            diff >= 0,
    ;
    lemma_div_monotone(diff * j, diff * k, m);
}

/// Computes `diff * k / m` rounded down, without overflow for any span
/// between two 64-bit values.
pub fn scale_span_exec(diff: i128, k: u64, m: u64) -> (r: i128)
    requires
        -0x1_0000_0000_0000_0000 < diff < 0x1_0000_0000_0000_0000,
        k <= m,
        m > 0,
    ensures
        r == scale_span(diff as int, k as int, m as int),
{
    proof {
        lemma_scale_span_range(diff as int, k as int, m as int);
    }
    if diff >= 0 {
        let mag: u128 = diff as u128;
        assert(mag * k <= 0xffff_ffff_ffff_ffffint * 0xffff_ffff_ffff_ffffint) by (nonlinear_arith)
            requires
                0 <= mag <= 0xffff_ffff_ffff_ffff,
                0 <= k <= 0xffff_ffff_ffff_ffff,
        ;
        let q: u128 = (mag * (k as u128)) / (m as u128);
        q as i128
    } else {
        let mag: u128 = (-diff) as u128;
        assert(mag * k <= 0xffff_ffff_ffff_ffffint * 0xffff_ffff_ffff_ffffint) by (nonlinear_arith)
            requires
                0 <= mag <= 0xffff_ffff_ffff_ffff,
                0 <= k <= 0xffff_ffff_ffff_ffff,
        ;
        let prod: u128 = mag * (k as u128);
        let q: u128 = prod / (m as u128);
        let rem: u128 = prod % (m as u128);
        proof {
            let x = prod as int;
            let d = m as int;
            vstd::arithmetic::div_mod::lemma_fundamental_div_mod(x, d);
            vstd::arithmetic::div_mod::lemma_mod_bound(x, d);
            assert(diff * k == -x) by (nonlinear_arith)
                requires
                    x == (-diff) * k,
            ;
            if rem > 0 {
                assert(-x == (-(q as int) - 1) * d + (d - rem)) by (nonlinear_arith)
                    requires
                        x == d * (q as int) + (rem as int),
                ;
                vstd::arithmetic::div_mod::lemma_fundamental_div_mod_converse(
                    -x,
                    d,
                    -(q as int) - 1,
                    d - rem,
                );
            } else {
                assert(-x == (-(q as int)) * d + 0) by (nonlinear_arith)
                    requires
                        x == d * (q as int) + (rem as int),
                        rem == 0,
                ;
                vstd::arithmetic::div_mod::lemma_fundamental_div_mod_converse(
                    -x,
                    d,
                    -(q as int),
                    0,
                );
            }
        }
        if rem > 0 {
            -(q as i128) - 1
        } else {
            -(q as i128)
        }
    }
}

/// No element of the sequence is smaller than an earlier one.
pub open spec fn non_decreasing(values: Seq<int>) -> bool {
    forall|i: int, j: int|
        0 <= i <= j < values.len() ==> #[trigger] values[i] <= #[trigger] values[j]
}

/// The first index at or after `from` whose value reaches `s`, or the last
/// index if none does.
pub open spec fn first_reaching(values: Seq<int>, s: int, from: int) -> int
    decreases values.len() - from,
{
    if from >= values.len() - 1 || values[from] >= s {
        from
    } else {
        first_reaching(values, s, from + 1)
    }
}

/// In a sequence that never decreases, the index whose value reaches `s`
/// while the value before it does not is the first that reaches it.
pub proof fn lemma_first_reaching(values: Seq<int>, s: int, from: int, i: int)
    requires
        non_decreasing(values),
        0 <= from <= i < values.len(),
        values[i] >= s,
        i > from ==> values[i - 1] < s,
    ensures
        first_reaching(values, s, from) == i,
    decreases i - from,
{
    if from < i {
        assert(values[from] <= values[i - 1]);
        lemma_first_reaching(values, s, from + 1, i);
    }
}

/// Where no value reaches `s`, the search ends at the last index.
pub proof fn lemma_none_reaching(values: Seq<int>, s: int, from: int)
    requires
        non_decreasing(values),
        0 <= from < values.len(),
        values[values.len() - 1] < s,
    ensures
        first_reaching(values, s, from) == values.len() - 1,
    decreases values.len() - from,
{
    if from < values.len() - 1 {
        assert(values[from] <= values[values.len() - 1]);
        lemma_none_reaching(values, s, from + 1);
    }
}

/// Where the last value reaches `s`, the value found reaches it, and the
/// value before it, if the search went past it, does not.
pub proof fn lemma_first_reaching_reaches(values: Seq<int>, s: int, from: int)
    requires
        0 <= from < values.len(),
        values[values.len() - 1] >= s,
    ensures
        from <= first_reaching(values, s, from) < values.len(),
        values[first_reaching(values, s, from)] >= s,
        first_reaching(values, s, from) > from ==> values[first_reaching(values, s, from) - 1] < s,
    decreases values.len() - from,
{
    if from < values.len() - 1 && values[from] < s {
        lemma_first_reaching_reaches(values, s, from + 1);
    }
}

/// The first index at or after `from` whose value exceeds `v`, or the
/// length if none does.
pub open spec fn first_exceeding(values: Seq<int>, v: int, from: int) -> int
    decreases values.len() - from,
{
    if from >= values.len() || values[from] > v {
        from
    } else {
        first_exceeding(values, v, from + 1)
    }
}

/// The index found lies within the sequence; what stands before it does
/// not exceed `v`, and what stands at it does.
pub proof fn lemma_first_exceeding(values: Seq<int>, v: int, from: int)
    requires
        0 <= from <= values.len(),
    ensures
        from <= first_exceeding(values, v, from) <= values.len(),
        forall|i: int| from <= i < first_exceeding(values, v, from) ==> values[i] <= v,
        first_exceeding(values, v, from) < values.len() ==> values[first_exceeding(
            values,
            v,
            from,
        )] > v,
    decreases values.len() - from,
{
    if from < values.len() && values[from] <= v {
        lemma_first_exceeding(values, v, from + 1);
    }
}

/// The search may start behind any stretch of values that do not exceed
/// `v`.
pub proof fn lemma_first_exceeding_skip(values: Seq<int>, v: int, from: int, to: int)
    requires
        0 <= from <= to <= values.len(),
        forall|i: int| from <= i < to ==> values[i] <= v,
    ensures
        first_exceeding(values, v, from) == first_exceeding(values, v, to),
    decreases to - from,
{
    if from < to {
        lemma_first_exceeding_skip(values, v, from + 1, to);
    }
}

/// In a sequence that never decreases, the index whose value exceeds `v`
/// while the value before it does not is the first that exceeds it.
pub proof fn lemma_first_exceeding_is(values: Seq<int>, v: int, from: int, i: int)
    requires
        non_decreasing(values),
        0 <= from <= i <= values.len(),
        i < values.len() ==> values[i] > v,
        i > from ==> values[i - 1] <= v,
    ensures
        first_exceeding(values, v, from) == i,
    decreases i - from,
{
    if from < i {
        assert(values[from] <= values[i - 1]);
        lemma_first_exceeding_is(values, v, from + 1, i);
    }
}

/// Time of the `k`-th frame after the start of a segment, in microseconds.
pub open spec fn frame_offset(k: int, frame_rate: int) -> int {
    k * 1_000_000 / frame_rate
}

/// Number of frames that fall strictly inside a segment of `dt`
/// microseconds.
pub open spec fn interior_count(dt: int, frame_rate: int) -> int {
    if dt <= 0 || frame_rate <= 0 {
        0
    } else {
        (dt * frame_rate - 1) / 1_000_000
    }
}

/// The number of interior frames is never negative.
pub proof fn lemma_interior_count(dt: int, frame_rate: int)
    ensures
        interior_count(dt, frame_rate) >= 0,
{
    if dt > 0 && frame_rate > 0 {
        assert(dt * frame_rate >= 1) by (nonlinear_arith)
            requires
                dt >= 1,
                frame_rate >= 1,
        ;
        vstd::arithmetic::div_mod::lemma_div_pos_is_pos(dt * frame_rate - 1, 1_000_000);
    }
}

/// The frames inside a segment come at times that never decrease, start
/// with the segment and end before its end.
pub proof fn lemma_frame_offset(dt: int, frame_rate: int, j: int, k: int)
    requires
        dt > 0,
        frame_rate > 0,
        0 <= j <= k <= interior_count(dt, frame_rate),
    ensures
        0 <= frame_offset(j, frame_rate) <= frame_offset(k, frame_rate) < dt,
        frame_offset(0, frame_rate) == 0,
{
    let count = interior_count(dt, frame_rate);
    vstd::arithmetic::div_mod::lemma_fundamental_div_mod(dt * frame_rate - 1, 1_000_000);
    vstd::arithmetic::div_mod::lemma_mod_bound(dt * frame_rate - 1, 1_000_000);
    assert(count * 1_000_000 <= dt * frame_rate - 1);
    lemma_div_monotone(0, j * 1_000_000, frame_rate);
    lemma_div_monotone(j * 1_000_000, k * 1_000_000, frame_rate);
    lemma_div_monotone(k * 1_000_000, dt * frame_rate - 1, frame_rate);
    vstd::arithmetic::div_mod::lemma_div_basics(frame_rate);
    assert(dt * frame_rate - 1 == frame_rate * (dt - 1) + (frame_rate - 1)) by (nonlinear_arith);
    vstd::arithmetic::div_mod::lemma_fundamental_div_mod_converse(
        dt * frame_rate - 1,
        frame_rate,
        dt - 1,
        frame_rate - 1,
    );
    assert(0int / frame_rate == 0);
    assert(0int * 1_000_000 == 0);
}

} // verus!
