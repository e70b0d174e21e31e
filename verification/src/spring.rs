//! The spring follower: a damped spring that pulls the cursor after a
//! stream of targets, integrated in small steps.
use crate::fixed::{clamp_int, clamp_wide, div_floor, lemma_div_bound, lemma_mul_bounded};
use crate::types::{all_in_range, path_in_range, CPoint, PathPoint, COORD_MAX, UNIT, VELOCITY_MAX};
use vstd::prelude::*;

verus! {

/// Settling time at responsiveness zero, in microseconds.
pub const SETTLING_SLOW_US: i64 = 400_000;

/// Settling time at full responsiveness, in microseconds.
pub const SETTLING_FAST_US: i64 = 60_000;

/// Damping ratio at smoothness zero, in thousandths.
pub const DAMPING_MIN_MILLI: i64 = 700;

/// Damping ratio at full smoothness, in thousandths.
pub const DAMPING_MAX_MILLI: i64 = 1500;

/// The physical constants of the spring. The mass is one.
#[derive(Clone, Copy, Debug, PartialEq, Eq, Structural)]
pub struct SpringParams {
    /// Time to settle, in microseconds.
    pub settling_us: i64,
    /// Damping ratio, in thousandths.
    pub damping_milli: i64,
    /// Natural frequency in radians per second, with 16 fractional bits.
    pub omega: i64,
}

/// A perceptual parameter as a fraction of `UNIT`: anything above counts
/// as `UNIT`.
pub open spec fn unit_fraction(v: u32) -> int {
    if v > UNIT {
        UNIT as int
    } else {
        v as int
    }
}

/// Settling time for a responsiveness: from `SETTLING_SLOW_US` at zero
/// down to `SETTLING_FAST_US` at one, in proportion.
pub open spec fn settling_time(responsiveness: u32) -> int {
    SETTLING_SLOW_US - (SETTLING_SLOW_US - SETTLING_FAST_US) * unit_fraction(responsiveness)
        / 65536
}

/// Damping ratio for a smoothness: from `DAMPING_MIN_MILLI` at zero up to
/// `DAMPING_MAX_MILLI` at one, in proportion.
pub open spec fn damping_ratio(smoothness: u32) -> int {
    DAMPING_MIN_MILLI + (DAMPING_MAX_MILLI - DAMPING_MIN_MILLI) * unit_fraction(smoothness)
        / 65536
}

/// Natural frequency `4 / (ζ T)` for a damping ratio in thousandths and a
/// settling time in microseconds, with 16 fractional bits.
pub open spec fn natural_frequency(damping_milli: int, settling_us: int) -> int {
    262_144_000_000_000int / (damping_milli * settling_us)
}

/// The spring for the two perceptual parameters.
pub open spec fn spring_params(responsiveness: u32, smoothness: u32) -> SpringParams {
    SpringParams {
        settling_us: settling_time(responsiveness) as i64,
        damping_milli: damping_ratio(smoothness) as i64,
        omega: natural_frequency(damping_ratio(smoothness), settling_time(responsiveness)) as i64,
    }
}

impl SpringParams {
    /// The constants lie in the ranges that the perceptual parameters map
    /// to.
    pub open spec fn in_range(self) -> bool {
        &&& SETTLING_FAST_US <= self.settling_us <= SETTLING_SLOW_US
        &&& DAMPING_MIN_MILLI <= self.damping_milli <= DAMPING_MAX_MILLI
        &&& 0 < self.omega <= 0x80_0000
    }

    /// Maps responsiveness to the settling time and smoothness to the
    /// damping ratio, and derives the natural frequency.
    pub fn from_perceptual(responsiveness: u32, smoothness: u32) -> (params: SpringParams)
        ensures
            params == spring_params(responsiveness, smoothness),
            params.in_range(),
    {
        let r: i64 = if responsiveness > UNIT {
            UNIT as i64
        } else {
            responsiveness as i64
        };
        let s: i64 = if smoothness > UNIT {
            UNIT as i64
        } else {
            smoothness as i64
        };
        let settling_us: i64 = SETTLING_SLOW_US - (SETTLING_SLOW_US - SETTLING_FAST_US) * r
            / 65536;
        let damping_milli: i64 = DAMPING_MIN_MILLI + (DAMPING_MAX_MILLI - DAMPING_MIN_MILLI) * s
            / 65536;
        proof {
            lemma_mul_bounded(damping_milli as int, 1500, settling_us as int, 400_000);
            assert(damping_milli * settling_us >= 700 * 60_000) by (nonlinear_arith)
                requires
                    damping_milli >= 700,
                    settling_us >= 60_000,
            ;
            let den = damping_milli * settling_us;
            let num = 4_000_000_000int * 65536;
            vstd::arithmetic::div_mod::lemma_fundamental_div_mod(num, den);
            vstd::arithmetic::div_mod::lemma_mod_bound(num, den);
            let q = num / den;
            assert(q > 0 && q <= 0x80_0000) by (nonlinear_arith)
                requires
                    num == den * q + num % den,
                    0 <= num % den < den,
                    700 * 60_000 <= den <= 1500 * 400_000,
                    num == 4_000_000_000int * 65536,
            ;
        }
        let omega: i64 = 4_000_000_000 * 65536 / (damping_milli * settling_us);
        SpringParams { settling_us, damping_milli, omega }
    }
}

/// Stiffness of the spring, `ω²`, with 32 fractional bits.
pub open spec fn stiffness(params: SpringParams) -> int {
    params.omega * params.omega
}

/// Damping coefficient of the spring, `2ζω`, in thousandths and with 16
/// fractional bits.
pub open spec fn damping(params: SpringParams) -> int {
    2 * params.damping_milli * params.omega
}

/// Acceleration of the unit mass at displacement `dx` from the target and
/// velocity `v`: the stiffness times the displacement less the damping
/// times the velocity, rounded down.
pub open spec fn acceleration(params: SpringParams, dx: int, v: int) -> int {
    ((1000 * stiffness(params)) * dx - (65536 * damping(params)) * v) / 4_294_967_296_000int
}

/// The change of a quantity over one of `n` equal steps of a span of
/// `dt` microseconds, at `rate` per second.
pub open spec fn step_change(rate: int, dt: int, n: int) -> int {
    rate * dt / (n * 1_000_000)
}

/// One step of the integrator on one axis: the velocity takes up the
/// acceleration first, then the position moves with the new velocity. Both
/// are kept within their ranges.
pub open spec fn axis_step(params: SpringParams, state: (int, int), target: int, dt: int, n: int) -> (
    int,
    int,
) {
    let (pos, vel) = state;
    let a = acceleration(params, target - pos, vel);
    let vel2 = clamp_int(vel + step_change(a, dt, n), -VELOCITY_MAX, VELOCITY_MAX as int);
    let pos2 = clamp_int(pos + step_change(vel2, dt, n), -COORD_MAX, COORD_MAX as int);
    (pos2, vel2)
}

/// Position and velocity on one axis after `count` of the `n` steps.
pub open spec fn axis_run(
    params: SpringParams,
    state: (int, int),
    target: int,
    dt: int,
    n: int,
    count: int,
) -> (int, int)
    decreases count,
{
    if count <= 0 {
        state
    } else {
        axis_step(params, axis_run(params, state, target, dt, n, count - 1), target, dt, n)
    }
}

/// `a / b` rounded up, for a positive `b`.
pub open spec fn ceil_div(a: int, b: int) -> int {
    (a + b - 1) / b
}

/// Number of steps for a span of `dt` microseconds: enough that no step is
/// longer than two frames, and that the natural frequency times the step
/// is at most one eighth; at least one.
pub open spec fn substep_count(params: SpringParams, dt: int, frame_rate: int) -> int {
    let by_frames = ceil_div(dt * frame_rate, 2_000_000);
    let by_frequency = ceil_div(dt * params.omega * 8, 65_536_000_000);
    vstd::math::max(1, vstd::math::max(by_frames, by_frequency))
}

/// Time that passes between two targets, in microseconds: none where the
/// second is not later than the first.
pub open spec fn time_step(t_prev: int, t_target: int) -> int {
    if t_target > t_prev {
        t_target - t_prev
    } else {
        0
    }
}

/// The state of the follower: position and velocity on both axes.
pub struct SpringState {
    pub x: int,
    pub y: int,
    pub vx: int,
    pub vy: int,
}

/// The state of the follower when it has reached target `i`: it starts at
/// rest on the first target and from there runs after each target for
/// the time that lies between that target and the one before.
pub open spec fn spring_state(
    targets: Seq<CPoint>,
    params: SpringParams,
    frame_rate: int,
    i: int,
) -> SpringState
    decreases i,
{
    if i <= 0 {
        SpringState { x: targets[0].x as int, y: targets[0].y as int, vx: 0, vy: 0 }
    } else {
        let prev = spring_state(targets, params, frame_rate, i - 1);
        let dt = time_step(targets[i - 1].timestamp_us as int, targets[i].timestamp_us as int);
        let n = substep_count(params, dt, frame_rate);
        let (x, vx) = axis_run(params, (prev.x, prev.vx), targets[i].x as int, dt, n, n);
        let (y, vy) = axis_run(params, (prev.y, prev.vy), targets[i].y as int, dt, n, n);
        SpringState { x, y, vx, vy }
    }
}

/// The path point that the follower emits for target `i`: its state, at
/// the target's timestamp.
pub open spec fn spring_point(
    targets: Seq<CPoint>,
    params: SpringParams,
    frame_rate: int,
    i: int,
) -> PathPoint {
    let state = spring_state(targets, params, frame_rate, i);
    PathPoint {
        x: state.x as i64,
        y: state.y as i64,
        timestamp_us: targets[i].timestamp_us,
        vx: state.vx as i64,
        vy: state.vy as i64,
    }
}

/// The whole path of the follower.
pub open spec fn spring_path(
    targets: Seq<CPoint>,
    responsiveness: u32,
    smoothness: u32,
    frame_rate: int,
) -> Seq<PathPoint> {
    Seq::new(
        targets.len(),
        |i: int| spring_point(targets, spring_params(responsiveness, smoothness), frame_rate, i),
    )
}

/// A follower at rest on its target stays there.
pub proof fn lemma_axis_rest(params: SpringParams, pos: int, dt: int, n: int, count: int)
    requires
        -COORD_MAX <= pos <= COORD_MAX,
        n >= 1,
        count >= 0,
    ensures
        axis_run(params, (pos, 0), pos, dt, n, count) == (pos, 0int),
    decreases count,
{
    if count > 0 {
        lemma_axis_rest(params, pos, dt, n, count - 1);
        let k = 1000 * stiffness(params);
        let c = 65536 * damping(params);
        assert(k * 0 - c * 0 == 0) by (nonlinear_arith);
        assert(acceleration(params, 0, 0) == 0);
        assert(0int * dt == 0);
        assert(n * 1_000_000 > 0) by (nonlinear_arith)
            requires
                n >= 1,
        ;
        assert(0int / (n * 1_000_000) == 0) by {
            vstd::arithmetic::div_mod::lemma_div_basics(n * 1_000_000);
        }
        assert(step_change(0, dt, n) == 0);
    }
}

/// While every target lies where the first one lies, the follower stays
/// on that spot, at rest.
pub proof fn lemma_spring_holds_still(
    targets: Seq<CPoint>,
    params: SpringParams,
    frame_rate: int,
    i: int,
)
    requires
        0 <= i < targets.len(),
        targets[0].in_range(),
        forall|j: int| 0 <= j <= i ==> (#[trigger] targets[j]).same_place(targets[0]),
    ensures
        spring_point(targets, params, frame_rate, i).x == targets[0].x,
        spring_point(targets, params, frame_rate, i).y == targets[0].y,
        spring_point(targets, params, frame_rate, i).vx == 0,
        spring_point(targets, params, frame_rate, i).vy == 0,
    decreases i,
{
    if i > 0 {
        lemma_spring_holds_still(targets, params, frame_rate, i - 1);
        assert(targets[i].same_place(targets[0]));
        let dt = time_step(targets[i - 1].timestamp_us as int, targets[i].timestamp_us as int);
        let n = substep_count(params, dt, frame_rate);
        lemma_axis_rest(params, targets[0].x as int, dt, n, n);
        lemma_axis_rest(params, targets[0].y as int, dt, n, n);
    }
}

/// With the chosen number of steps, the natural frequency times the
/// length of one step is at most one eighth.
pub proof fn lemma_substep_bound(params: SpringParams, dt: int, frame_rate: int)
    requires
        params.omega >= 0,
        dt >= 0,
    ensures
        substep_count(params, dt, frame_rate) >= 1,
        8 * (params.omega * dt) <= substep_count(params, dt, frame_rate) * (65536 * 1_000_000),
{
    let n = substep_count(params, dt, frame_rate);
    let den = 65536 * 1_000_000int;
    let a = dt * params.omega * 8;
    let q = ceil_div(a, den);
    vstd::arithmetic::div_mod::lemma_fundamental_div_mod(a + den - 1, den);
    vstd::arithmetic::div_mod::lemma_mod_bound(a + den - 1, den);
    assert(a <= q * den) by (nonlinear_arith)
        requires
            a + den - 1 == den * q + (a + den - 1) % den,
            0 <= (a + den - 1) % den < den,
    ;
    assert(q * den <= n * den) by (nonlinear_arith)
        requires
            q <= n,
            den > 0,
    ;
    assert(a == 8 * (params.omega * dt)) by (nonlinear_arith)
        requires
            a == dt * params.omega * 8,
    ;
}

/// With the chosen number of steps, the natural frequency times the
/// length of one step stays below one eighth, unless eight times the
/// frequency times the span is a whole number: then the steps are exactly
/// that many and the product is one eighth.
pub proof fn lemma_substep_bound_strict(params: SpringParams, dt: int, frame_rate: int)
    requires
        params.omega >= 0,
        dt >= 0,
        (dt * params.omega * 8) % 65_536_000_000 != 0,
    ensures
        8 * (params.omega * dt) < substep_count(params, dt, frame_rate) * (65536 * 1_000_000),
{
    let n = substep_count(params, dt, frame_rate);
    let den = 65_536_000_000int;
    let a = dt * params.omega * 8;
    let q = ceil_div(a, den);
    let m = a / den;
    let r = a % den;
    vstd::arithmetic::div_mod::lemma_fundamental_div_mod(a, den);
    vstd::arithmetic::div_mod::lemma_mod_bound(a, den);
    assert(a + den - 1 == den * (m + 1) + (r - 1));
    vstd::arithmetic::div_mod::lemma_fundamental_div_mod_converse(
        a + den - 1,
        den,
        m + 1,
        r - 1,
    );
    assert(q == m + 1);
    assert(a < q * den) by (nonlinear_arith)
        requires
            a == den * m + r,
            r < den,
            q == m + 1,
    ;
    assert(q * den <= n * den) by (nonlinear_arith)
        requires
            q <= n,
            den > 0,
    ;
    assert(a == 8 * (params.omega * dt)) by (nonlinear_arith)
        requires
            a == dt * params.omega * 8,
    ;
}

/// One step of the integrator on one axis: position and velocity after
/// one of `n` equal steps of a span of `dt` microseconds towards `target`.
pub fn integrate_axis_step(params: &SpringParams, pos: i64, vel: i64, target: i64, dt: i64, n: u64) -> (r: (
    i64,
    i64,
))
    requires
        params.in_range(),
        -COORD_MAX <= pos <= COORD_MAX,
        -VELOCITY_MAX <= vel <= VELOCITY_MAX,
        -COORD_MAX <= target <= COORD_MAX,
        0 <= dt <= 0x20_0000_0000_0000,
        n >= 1,
    ensures
        (r.0 as int, r.1 as int) == axis_step(
            *params,
            (pos as int, vel as int),
            target as int,
            dt as int,
            n as int,
        ),
        -COORD_MAX <= r.0 <= COORD_MAX,
        -VELOCITY_MAX <= r.1 <= VELOCITY_MAX,
{
    let omega: i128 = params.omega as i128;
    let zeta: i128 = params.damping_milli as i128;
    let dx: i128 = target as i128 - pos as i128;
    let v: i128 = vel as i128;
    proof {
        lemma_mul_bounded(omega as int, 0x80_0000, omega as int, 0x80_0000);
        lemma_mul_bounded(2 * zeta, 3000, omega as int, 0x80_0000);
    }
    let k: i128 = omega * omega;
    let c: i128 = 2 * zeta * omega;
    proof {
        lemma_mul_bounded(1000 * k, 1000int * 0x4000_0000_0000, dx as int, 0x20_0000_0000);
        lemma_mul_bounded(65536 * c, 65536int * 3000 * 0x80_0000, v as int, 0x100_0000_0000);
    }
    let pull: i128 = (1000 * k) * dx;
    let drag: i128 = (65536 * c) * v;
    let a: i128 = div_floor(pull - drag, 4_294_967_296_000);
    let den: i128 = (n as i128) * 1_000_000;
    proof {
        vstd::arithmetic::div_mod::lemma_fundamental_div_mod(
            (pull - drag) as int,
            4_294_967_296_000,
        );
        vstd::arithmetic::div_mod::lemma_mod_bound((pull - drag) as int, 4_294_967_296_000);
        assert(-0x40_0000_0000_0000 <= a <= 0x40_0000_0000_0000);
        lemma_mul_bounded(a as int, 0x40_0000_0000_0000, dt as int, 0x20_0000_0000_0000);
    }
    let dv: i128 = div_floor(a * (dt as i128), den);
    proof {
        lemma_div_bound(a * dt, 0x40_0000_0000_0000int * 0x20_0000_0000_0000, den as int);
    }
    let vel2: i64 = clamp_wide(v + dv, -VELOCITY_MAX, VELOCITY_MAX);
    proof {
        lemma_mul_bounded(vel2 as int, 0x100_0000_0000, dt as int, 0x20_0000_0000_0000);
        lemma_div_bound(vel2 * dt, 0x100_0000_0000int * 0x20_0000_0000_0000, den as int);
    }
    let dp: i128 = div_floor((vel2 as i128) * (dt as i128), den);
    let pos2: i64 = clamp_wide(pos as i128 + dp, -COORD_MAX, COORD_MAX);
    (pos2, vel2)
}

/// Number of steps in which the integrator crosses a span of `dt`
/// microseconds.
pub fn substeps_for(params: &SpringParams, dt: i64, frame_rate: i32) -> (n: u64)
    requires
        params.in_range(),
        0 <= dt <= 0x20_0000_0000_0000,
    ensures
        n == substep_count(*params, dt as int, frame_rate as int),
        n >= 1,
{
    proof {
        lemma_mul_bounded(dt as int, 0x20_0000_0000_0000, frame_rate as int, 0x8000_0000);
        lemma_mul_bounded(dt as int, 0x20_0000_0000_0000, params.omega as int, 0x80_0000);
    }
    let by_frames: i128 = div_floor((dt as i128) * (frame_rate as i128) + 1_999_999, 2_000_000);
    let by_frequency: i128 = div_floor(
        (dt as i128) * (params.omega as i128) * 8 + 65_535_999_999,
        65_536_000_000,
    );
    proof {
        lemma_div_bound(
            dt * frame_rate + 1_999_999,
            0x20_0000_0000_0000int * 0x8000_0000 + 1_999_999,
            2_000_000,
        );
        vstd::arithmetic::div_mod::lemma_fundamental_div_mod(
            dt * frame_rate + 1_999_999,
            2_000_000,
        );
        vstd::arithmetic::div_mod::lemma_mod_bound(dt * frame_rate + 1_999_999, 2_000_000);
        vstd::arithmetic::div_mod::lemma_fundamental_div_mod(
            dt * params.omega * 8 + 65_535_999_999,
            65_536_000_000,
        );
        vstd::arithmetic::div_mod::lemma_mod_bound(
            dt * params.omega * 8 + 65_535_999_999,
            65_536_000_000,
        );
    }
    let mut n: i128 = 1;
    if by_frames > n {
        n = by_frames;
    }
    if by_frequency > n {
        n = by_frequency;
    }
    n as u64
}

/// Runs the spring follower over a stream of targets: a unit mass on a
/// damped spring, at rest on the first target, is pulled towards each
/// target in turn for the time that separates it from the one before.
/// One path point comes back for each target, with the target's timestamp
/// and the follower's position and velocity at that moment.
pub fn apply_physics_filter(
    raw_points: &[CPoint],
    responsiveness: u32,
    smoothness: u32,
    frame_rate: i32,
) -> (path: Vec<PathPoint>)
    requires
        all_in_range(raw_points@),
    ensures
        path@ == spring_path(raw_points@, responsiveness, smoothness, frame_rate as int),
        path@.len() == raw_points@.len(),
        path_in_range(path@),
        forall|i: int|
            0 <= i < path@.len() ==> (#[trigger] path@[i]).timestamp_us
                == raw_points@[i].timestamp_us,
{
    let params: SpringParams = SpringParams::from_perceptual(responsiveness, smoothness);
    let mut path: Vec<PathPoint> = Vec::new();
    let n_points: usize = raw_points.len();
    if n_points == 0 {
        assert(path@ =~= spring_path(raw_points@, responsiveness, smoothness, frame_rate as int));
        return path;
    }
    let first: CPoint = raw_points[0];
    let mut x: i64 = first.x;
    let mut y: i64 = first.y;
    let mut vx: i64 = 0;
    let mut vy: i64 = 0;
    path.push(PathPoint { x, y, timestamp_us: first.timestamp_us, vx, vy });
    let mut i: usize = 1;
    while i < n_points
        invariant
            n_points == raw_points.len(),
            all_in_range(raw_points@),
            params == spring_params(responsiveness, smoothness),
            params.in_range(),
            1 <= i <= n_points,
            path.len() == i,
            spring_state(raw_points@, params, frame_rate as int, i - 1) == (SpringState {
                x: x as int,
                y: y as int,
                vx: vx as int,
                vy: vy as int,
            }),
            -COORD_MAX <= x <= COORD_MAX,
            -COORD_MAX <= y <= COORD_MAX,
            -VELOCITY_MAX <= vx <= VELOCITY_MAX,
            -VELOCITY_MAX <= vy <= VELOCITY_MAX,
            forall|j: int|
                0 <= j < i ==> #[trigger] path@[j] == spring_point(
                    raw_points@,
                    params,
                    frame_rate as int,
                    j,
                ),
            path_in_range(path@),
        decreases n_points - i,
    {
        let target: CPoint = raw_points[i];
        let prev_t: i64 = raw_points[i - 1].timestamp_us;
        assert(raw_points@[i - 1].in_range());
        let dt: i64 = if target.timestamp_us > prev_t {
            target.timestamp_us - prev_t
        } else {
            0
        };
        let n: u64 = substeps_for(&params, dt, frame_rate);
        let ghost start_x = (x as int, vx as int);
        let ghost start_y = (y as int, vy as int);
        let mut k: u64 = 0;
        while k < n
            invariant
                params.in_range(),
                target.in_range(),
                0 <= dt <= 0x20_0000_0000_0000,
                n >= 1,
                k <= n,
                (x as int, vx as int) == axis_run(
                    params,
                    start_x,
                    target.x as int,
                    dt as int,
                    n as int,
                    k as int,
                ),
                (y as int, vy as int) == axis_run(
                    params,
                    start_y,
                    target.y as int,
                    dt as int,
                    n as int,
                    k as int,
                ),
                -COORD_MAX <= x <= COORD_MAX,
                -COORD_MAX <= y <= COORD_MAX,
                -VELOCITY_MAX <= vx <= VELOCITY_MAX,
                -VELOCITY_MAX <= vy <= VELOCITY_MAX,
            decreases n - k,
        {
            let (nx, nvx) = integrate_axis_step(&params, x, vx, target.x, dt, n);
            let (ny, nvy) = integrate_axis_step(&params, y, vy, target.y, dt, n);
            x = nx;
            vx = nvx;
            y = ny;
            vy = nvy;
            k += 1;
        }
        path.push(PathPoint { x, y, timestamp_us: target.timestamp_us, vx, vy });
        i += 1;
    }
    assert(path@ =~= spring_path(raw_points@, responsiveness, smoothness, frame_rate as int));
    path
}

} // verus!
