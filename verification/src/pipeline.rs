//! The whole chain from raw samples to a path, and the decisions of the
//! frame loop: status codes, progress, replacement timestamps, and what
//! to draw on each frame.
use crate::aligner::{
    AlignmentModel, AlignmentState, ALIGNMENT_MAX_WINDOW_US, ALIGNMENT_SAMPLE_COUNT,
};
use crate::arc_length::{cumulative_length, lemma_cumulative_length_at, ArcLengthTable};
use crate::fixed::{
    clamp_int, clamp_wide, lemma_mul_bounded, lemma_scale_span_monotone, lemma_scale_span_range,
};
use crate::kinematic::{
    generate_kinematic_targets, kinematic_targets, lemma_targets_at, lemma_targets_hold_anchors,
    lemma_targets_sorted,
};
use crate::oracle::{
    find_position_for_timestamp_dbg, oracle_clamped, oracle_position, path_sorted, timestamps,
};
use crate::renderer::{
    composite_cursor_subpixel, composited, placement, CursorSprite,
};
use crate::spline::{
    extended, frame_chain, lemma_frame_chain_at, smooth_cursor_path_internal,
    lemma_frame_chain_starts,
};
use crate::spring::{apply_physics_filter, lemma_spring_holds_still, spring_params, spring_path};
use crate::types::{
    all_at, all_in_range, path_in_range, times_sorted, CPoint, PathPoint, VideoProcessingConfig,
    COORD_MAX, TIME_MAX, VELOCITY_MAX,
};
use vstd::prelude::*;

verus! {

/// Why smoothing gave no path.
#[derive(Clone, Copy, Debug, PartialEq, Eq, Structural)]
pub enum SmoothingError {
    /// There are fewer than four raw samples.
    InsufficientInput,
}

/// Why a processing run ended without a video.
#[derive(Clone, Copy, Debug, PartialEq, Eq, Structural)]
pub enum ProcessError {
    /// A required path or input is absent.
    MissingInput,
    /// A path is not valid text.
    InvalidPath,
    /// Smoothing gave no path.
    Smoothing,
    /// Decoding, rendering or encoding failed.
    MediaIo,
}

/// The status code that stands for an outcome.
pub open spec fn status_of(outcome: Result<(), ProcessError>) -> int {
    match outcome {
        Ok(_) => 0,
        Err(ProcessError::MissingInput) => -1,
        Err(ProcessError::InvalidPath) => -2,
        Err(ProcessError::Smoothing) => -3,
        Err(ProcessError::MediaIo) => -4,
    }
}

/// The status code of a run: zero for success, and a negative number that
/// names the kind of failure.
pub fn status_code(outcome: Result<(), ProcessError>) -> (code: i32)
    ensures
        code == status_of(outcome),
{
    match outcome {
        Ok(_) => 0,
        Err(ProcessError::MissingInput) => -1,
        Err(ProcessError::InvalidPath) => -2,
        Err(ProcessError::Smoothing) => -3,
        Err(ProcessError::MediaIo) => -4,
    }
}

/// What the entry of a run makes of its arguments before any work is
/// done: an absent argument ends the run as missing input; with all of
/// them present, a path that is not valid text ends it as an invalid
/// path; otherwise the run goes on.
pub fn check_entry(all_present: bool, all_valid_text: bool) -> (r: Result<(), ProcessError>)
    ensures
        !all_present ==> r == Err::<(), ProcessError>(ProcessError::MissingInput),
        all_present && !all_valid_text ==> r == Err::<(), ProcessError>(
            ProcessError::InvalidPath,
        ),
        all_present && all_valid_text ==> r == Ok::<(), ProcessError>(()),
{
    if !all_present {
        Err(ProcessError::MissingInput)
    } else if !all_valid_text {
        Err(ProcessError::InvalidPath)
    } else {
        Ok(())
    }
}

/// The cumulative lengths of a curve.
pub open spec fn length_table(spline: Seq<CPoint>) -> Seq<int> {
    Seq::new(spline.len(), |i: int| cumulative_length(spline, i))
}

/// The targets for the raw samples: the curve through them at the frame
/// cadence, with the kinematic profile laid over it between each sample
/// and the next.
pub open spec fn smoothed_targets(raw: Seq<CPoint>, frame_rate: int, alpha: u32) -> Seq<CPoint> {
    let spline = frame_chain(extended(raw), frame_rate, alpha, (raw.len() - 1) as nat);
    if spline.len() < 2 {
        spline
    } else {
        kinematic_targets(spline, length_table(spline), raw, frame_rate, (raw.len() - 1) as nat)
    }
}

/// The path for the raw samples: the spring follower run over the targets.
pub open spec fn smoothed_path(
    raw: Seq<CPoint>,
    frame_rate: int,
    responsiveness: u32,
    smoothness: u32,
    alpha: u32,
) -> Seq<PathPoint> {
    spring_path(smoothed_targets(raw, frame_rate, alpha), responsiveness, smoothness, frame_rate)
}

/// Where the curve through the samples has two points or more, every raw
/// sample stands among the targets, position and timestamp unchanged.
/// (A curve of a single point is handed on as it is.)
pub proof fn lemma_smoothed_targets_hold_samples(
    raw: Seq<CPoint>,
    frame_rate: int,
    alpha: u32,
    i: int,
)
    requires
        raw.len() >= 2,
        0 <= i < raw.len(),
        frame_chain(extended(raw), frame_rate, alpha, (raw.len() - 1) as nat).len() >= 2,
    ensures
        0 <= crate::kinematic::anchor_index(raw, frame_rate, i) < smoothed_targets(
            raw,
            frame_rate,
            alpha,
        ).len(),
        smoothed_targets(raw, frame_rate, alpha)[crate::kinematic::anchor_index(
            raw,
            frame_rate,
            i,
        )] == raw[i],
{
    let segs = (raw.len() - 1) as nat;
    let spline = frame_chain(extended(raw), frame_rate, alpha, segs);
    lemma_targets_hold_anchors(spline, length_table(spline), raw, frame_rate, segs, i);
}

/// A cursor that rests does not drift: where all raw samples lie at one
/// place, every point of the path lies at that place, at rest.
pub proof fn lemma_resting_stream(
    raw: Seq<CPoint>,
    frame_rate: int,
    responsiveness: u32,
    smoothness: u32,
    alpha: u32,
    i: int,
)
    requires
        raw.len() >= 4,
        all_in_range(raw),
        all_at(raw, raw[0]),
        0 <= i < smoothed_path(raw, frame_rate, responsiveness, smoothness, alpha).len(),
    ensures
        smoothed_path(raw, frame_rate, responsiveness, smoothness, alpha)[i].x == raw[0].x,
        smoothed_path(raw, frame_rate, responsiveness, smoothness, alpha)[i].y == raw[0].y,
        smoothed_path(raw, frame_rate, responsiveness, smoothness, alpha)[i].vx == 0,
        smoothed_path(raw, frame_rate, responsiveness, smoothness, alpha)[i].vy == 0,
{
    let spot = raw[0];
    let segs = (raw.len() - 1) as nat;
    let spline = frame_chain(extended(raw), frame_rate, alpha, segs);
    lemma_frame_chain_at(raw, frame_rate, alpha, segs);
    lemma_frame_chain_starts(raw, frame_rate, alpha, segs);
    let lengths = length_table(spline);
    assert forall|k: int| 0 <= k < lengths.len() implies #[trigger] lengths[k] == 0 by {
        lemma_cumulative_length_at(spline, spot, k);
    }
    let targets = smoothed_targets(raw, frame_rate, alpha);
    if spline.len() >= 2 {
        lemma_targets_at(spline, lengths, raw, frame_rate, segs, spot);
        lemma_targets_hold_anchors(spline, lengths, raw, frame_rate, segs, 0);
        assert(targets[0] == raw[0]);
    } else {
        assert(targets[0] == raw[0]);
    }
    assert(all_at(targets, spot));
    assert forall|j: int| 0 <= j <= i implies (#[trigger] targets[j]).same_place(targets[0]) by {
        assert(targets[j].same_place(spot));
    }
    lemma_spring_holds_still(
        targets,
        spring_params(responsiveness, smoothness),
        frame_rate,
        i,
    );
}

/// Turns raw cursor samples into the path that the renderer follows:
/// the spline through the samples, its arc lengths, the kinematic targets
/// between the samples, and the spring follower over the targets. Fewer
/// than four samples are refused; four or more always give a path of at
/// least one point.
pub fn smooth_samples(
    raw_points: &[CPoint],
    frame_rate: i32,
    responsiveness: u32,
    smoothness: u32,
    spline_alpha: u32,
) -> (r: Result<Vec<PathPoint>, SmoothingError>)
    requires
        all_in_range(raw_points@),
    ensures
        match r {
            Ok(path) => {
                &&& raw_points.len() >= 4
                &&& path@ == smoothed_path(
                    raw_points@,
                    frame_rate as int,
                    responsiveness,
                    smoothness,
                    spline_alpha,
                )
                &&& path@.len() >= 1
                &&& path_in_range(path@)
                &&& times_sorted(raw_points@) ==> path_sorted(path@)
            },
            Err(e) => raw_points.len() < 4 && e == SmoothingError::InsufficientInput,
        },
{
    if raw_points.len() < 4 {
        return Err(SmoothingError::InsufficientInput);
    }
    let spline: Vec<CPoint> = smooth_cursor_path_internal(raw_points, frame_rate, spline_alpha);
    proof {
        lemma_frame_chain_starts(
            raw_points@,
            frame_rate as int,
            spline_alpha,
            (raw_points.len() - 1) as nat,
        );
    }
    let table: ArcLengthTable = ArcLengthTable::build(spline.as_slice());
    assert(table@ =~= length_table(spline@));
    let targets: Vec<CPoint> = generate_kinematic_targets(
        spline.as_slice(),
        &table,
        raw_points,
        frame_rate,
    );
    proof {
        if spline@.len() >= 2 {
            if times_sorted(raw_points@) {
                lemma_targets_sorted(
                    spline@,
                    table@,
                    raw_points@,
                    frame_rate as int,
                    (raw_points.len() - 1) as nat,
                );
            }
            lemma_targets_hold_anchors(
                spline@,
                table@,
                raw_points@,
                frame_rate as int,
                (raw_points.len() - 1) as nat,
                0,
            );
        }
    }
    let path: Vec<PathPoint> = apply_physics_filter(
        targets.as_slice(),
        responsiveness,
        smoothness,
        frame_rate,
    );
    proof {
        if times_sorted(raw_points@) {
            let stamps = timestamps(path@);
            assert forall|i: int, j: int| 0 <= i <= j < stamps.len() implies #[trigger] stamps[i]
                <= #[trigger] stamps[j] by {
                assert(stamps[i] == path@[i].timestamp_us);
                assert(stamps[j] == path@[j].timestamp_us);
                assert(targets@[i].timestamp_us <= targets@[j].timestamp_us);
            }
        }
    }
    Ok(path)
}

/// The samples on the timeline that starts at zero with the first sample.
pub open spec fn normalized_points(points: Seq<CPoint>) -> Seq<CPoint> {
    Seq::new(
        points.len(),
        |i: int|
            CPoint {
                x: points[i].x,
                y: points[i].y,
                timestamp_us: normalized_time(points, i) as i64,
            },
    )
}

/// Samples in range stay in range on the new timeline, and samples whose
/// timestamps never decrease keep that order.
pub proof fn lemma_normalized_points(points: Seq<CPoint>)
    requires
        all_in_range(points),
    ensures
        all_in_range(normalized_points(points)),
        times_sorted(points) ==> times_sorted(normalized_points(points)),
        forall|i: int|
            0 <= i < points.len() ==> (#[trigger] normalized_points(points)[i]).same_place(
                points[i],
            ),
{
    let out = normalized_points(points);
    assert forall|i: int| 0 <= i < out.len() implies (#[trigger] out[i]).in_range() by {
        assert(points[i].in_range());
    }
    if times_sorted(points) {
        assert forall|i: int, j: int| 0 <= i <= j < out.len() implies (
        #[trigger] out[i]).timestamp_us <= (#[trigger] out[j]).timestamp_us by {
            assert(points[i].timestamp_us <= points[j].timestamp_us);
        }
    }
}

/// Smooths samples whose timestamps may count from any origin, and may
/// count seconds: the samples are first put on the timeline that
/// `normalize_to_relative_ms` gives, and the path is that of the samples
/// on that timeline. Fewer than four samples are refused.
pub fn smooth_cursor_path_dual_pass(
    raw_points: &[CPoint],
    frame_rate: i32,
    responsiveness: u32,
    smoothness: u32,
    spline_alpha: u32,
) -> (r: Result<Vec<PathPoint>, SmoothingError>)
    requires
        all_in_range(raw_points@),
    ensures
        match r {
            Ok(path) => {
                &&& raw_points.len() >= 4
                &&& path@ == smoothed_path(
                    normalized_points(raw_points@),
                    frame_rate as int,
                    responsiveness,
                    smoothness,
                    spline_alpha,
                )
                &&& path@.len() >= 1
                &&& path_in_range(path@)
                &&& times_sorted(raw_points@) ==> path_sorted(path@)
            },
            Err(e) => raw_points.len() < 4 && e == SmoothingError::InsufficientInput,
        },
{
    let normalized: Vec<CPoint> = normalize_to_relative_ms(raw_points);
    proof {
        lemma_normalized_points(raw_points@);
    }
    smooth_samples(normalized.as_slice(), frame_rate, responsiveness, smoothness, spline_alpha)
}

/// Time of point `i` after that of the first point, kept within the
/// range of timestamps.
pub open spec fn rebased_time(points: Seq<CPoint>, i: int) -> int {
    clamp_int(points[i].timestamp_us - points[0].timestamp_us, -TIME_MAX, TIME_MAX as int)
}

/// Whether the timestamps are taken to count seconds where milliseconds
/// were expected: the whole recording would be shorter than a second.
pub open spec fn counts_seconds(points: Seq<CPoint>) -> bool {
    points.len() > 0 && 0 < rebased_time(points, points.len() - 1) < 1_000_000
}

/// Timestamp of point `i` on the timeline that starts with the first
/// point, a thousand times longer where the timestamps count seconds.
pub open spec fn normalized_time(points: Seq<CPoint>, i: int) -> int {
    if counts_seconds(points) {
        clamp_int(rebased_time(points, i) * 1000, -TIME_MAX, TIME_MAX as int)
    } else {
        rebased_time(points, i)
    }
}

/// Puts the samples on a timeline that starts at zero with the first
/// sample, and stretches it a thousandfold where the last sample comes
/// less than a second after the first: such timestamps count seconds.
pub fn normalize_to_relative_ms(points: &[CPoint]) -> (normalized: Vec<CPoint>)
    ensures
        normalized@ == normalized_points(points@),
{
    let mut normalized: Vec<CPoint> = Vec::new();
    let n: usize = points.len();
    if n == 0 {
        assert(normalized@ =~= normalized_points(points@));
        return normalized;
    }
    let start: i128 = points[0].timestamp_us as i128;
    let span: i64 = clamp_wide(points[n - 1].timestamp_us as i128 - start, -TIME_MAX, TIME_MAX);
    let stretch: bool = 0 < span && span < 1_000_000;
    let mut i: usize = 0;
    while i < n
        invariant
            n == points.len(),
            n > 0,
            start == points@[0].timestamp_us,
            stretch == counts_seconds(points@),
            i <= n,
            normalized@.len() == i,
            forall|j: int|
                0 <= j < i ==> #[trigger] normalized@[j] == (CPoint {
                    x: points@[j].x,
                    y: points@[j].y,
                    timestamp_us: normalized_time(points@, j) as i64,
                }),
        decreases n - i,
    {
        let p: CPoint = points[i];
        let relative: i64 = clamp_wide(p.timestamp_us as i128 - start, -TIME_MAX, TIME_MAX);
        let timestamp_us: i64 = if stretch {
            clamp_wide((relative as i128) * 1000, -TIME_MAX, TIME_MAX)
        } else {
            relative
        };
        normalized.push(CPoint { x: p.x, y: p.y, timestamp_us });
        i += 1;
    }
    assert(normalized@ =~= normalized_points(points@));
    normalized
}

/// Whether every point lies within the supported ranges.
pub fn points_in_range(points: &[CPoint]) -> (ok: bool)
    ensures
        ok == all_in_range(points@),
{
    let mut i: usize = 0;
    while i < points.len()
        invariant
            i <= points.len(),
            forall|j: int| 0 <= j < i ==> (#[trigger] points@[j]).in_range(),
        decreases points.len() - i,
    {
        let p: CPoint = points[i];
        if p.x < -COORD_MAX || p.x > COORD_MAX || p.y
            < -COORD_MAX || p.y > COORD_MAX || p.timestamp_us
            < -TIME_MAX || p.timestamp_us > TIME_MAX {
            return false;
        }
        i += 1;
    }
    true
}

/// Whether the timestamps of the points never decrease.
pub fn points_sorted(points: &[CPoint]) -> (ok: bool)
    ensures
        ok == times_sorted(points@),
{
    let mut i: usize = 1;
    while i < points.len()
        invariant
            1 <= i,
            forall|j: int|
                1 <= j < i && j < points.len() ==> (#[trigger] points@[j - 1]).timestamp_us
                    <= points@[j].timestamp_us,
        decreases points.len() - i,
    {
        if points[i - 1].timestamp_us > points[i].timestamp_us {
            return false;
        }
        i += 1;
    }
    proof {
        assert forall|a: int, b: int| 0 <= a <= b < points@.len() implies (
        #[trigger] points@[a]).timestamp_us <= (#[trigger] points@[b]).timestamp_us by {
            lemma_steps_sorted(points@, a, b);
        }
    }
    true
}

/// Points of which none is earlier than the one before are sorted by time.
proof fn lemma_steps_sorted(points: Seq<CPoint>, a: int, b: int)
    requires
        0 <= a <= b < points.len(),
        forall|j: int|
            1 <= j < points.len() ==> (#[trigger] points[j - 1]).timestamp_us
                <= points[j].timestamp_us,
    ensures
        points[a].timestamp_us <= points[b].timestamp_us,
    decreases b - a,
{
    if a < b {
        lemma_steps_sorted(points, a, b - 1);
        assert(points[b - 1].timestamp_us <= points[b].timestamp_us);
    }
}

/// Whether a path can be handed to the frame loop: every point in range,
/// and no timestamp earlier than the one before.
pub fn path_is_usable(path: &[PathPoint]) -> (ok: bool)
    ensures
        ok == (path_in_range(path@) && path_sorted(path@)),
{
    let ghost stamps = timestamps(path@);
    let mut i: usize = 0;
    while i < path.len()
        invariant
            i <= path.len(),
            stamps == timestamps(path@),
            forall|j: int| 0 <= j < i ==> (#[trigger] path@[j]).in_range(),
            forall|j: int| 1 <= j < i ==> #[trigger] stamps[j - 1] <= stamps[j],
        decreases path.len() - i,
    {
        let p: PathPoint = path[i];
        let inside: bool = -COORD_MAX <= p.x && p.x <= COORD_MAX
            && -COORD_MAX <= p.y && p.y <= COORD_MAX && -TIME_MAX
            <= p.timestamp_us && p.timestamp_us <= TIME_MAX && -VELOCITY_MAX <= p.vx
            && p.vx <= VELOCITY_MAX && -VELOCITY_MAX <= p.vy && p.vy
            <= VELOCITY_MAX;
        if !inside {
            return false;
        }
        if i > 0 {
            assert(stamps[i - 1] == path@[i - 1].timestamp_us);
            assert(stamps[i as int] == path@[i as int].timestamp_us);
            if path[i - 1].timestamp_us > p.timestamp_us {
                return false;
            }
        }
        i += 1;
    }
    proof {
        assert forall|a: int, b: int| 0 <= a <= b < stamps.len() implies #[trigger] stamps[a]
            <= #[trigger] stamps[b] by {
            lemma_steps_non_decreasing(stamps, a, b);
        }
    }
    true
}

/// Values of which none is smaller than the one before never decrease.
proof fn lemma_steps_non_decreasing(values: Seq<int>, a: int, b: int)
    requires
        0 <= a <= b < values.len(),
        forall|j: int| 1 <= j < values.len() ==> #[trigger] values[j - 1] <= values[j],
    ensures
        values[a] <= values[b],
    decreases b - a,
{
    if a < b {
        lemma_steps_non_decreasing(values, a, b - 1);
        assert(values[b - 1] <= values[b]);
    }
}

/// Timestamp, in microseconds, of the frame with the given index at a
/// frame rate of `rate_num / rate_den` frames per second; at sixty frames
/// per second where that is no positive rate. The timestamp is cut off at
/// `TIME_MAX`.
pub open spec fn frame_time(index: int, rate_num: int, rate_den: int) -> int {
    let t = if rate_num > 0 && rate_den > 0 {
        index * 1_000_000 * rate_den / rate_num
    } else {
        index * 1_000_000 / 60
    };
    if t > TIME_MAX {
        TIME_MAX as int
    } else {
        t
    }
}

/// A timestamp for a decoded frame that carries none, from its index and
/// the frame rate.
pub fn frame_time_from_index(index: u64, rate_num: i32, rate_den: i32) -> (t: i64)
    ensures
        t == frame_time(index as int, rate_num as int, rate_den as int),
        0 <= t <= TIME_MAX,
{
    let i: i128 = index as i128;
    let t: i128 = if rate_num > 0 && rate_den > 0 {
        proof {
            lemma_mul_bounded(
                i * 1_000_000,
                0x1_0000_0000_0000_0000int * 1_000_000,
                rate_den as int,
                0x8000_0000,
            );
            assert(i * 1_000_000 * rate_den >= 0) by (nonlinear_arith)
                requires
                    i >= 0,
                    rate_den > 0,
            ;
            vstd::arithmetic::div_mod::lemma_div_pos_is_pos(
                i * 1_000_000 * rate_den,
                rate_num as int,
            );
        }
        i * 1_000_000 * (rate_den as i128) / (rate_num as i128)
    } else {
        i * 1_000_000 / 60
    };
    if t > TIME_MAX as i128 {
        TIME_MAX
    } else {
        t as i64
    }
}

/// The whole number of frames per second to work with: the source's rate
/// `rate_num / rate_den`, rounded to the nearest whole number and at least
/// one, or `fallback` where the source gives no positive rate.
pub open spec fn chosen_frame_rate(rate_num: int, rate_den: int, fallback: int) -> int {
    if rate_num > 0 && rate_den > 0 {
        if (2 * rate_num + rate_den) / (2 * rate_den) < 1 {
            1
        } else {
            (2 * rate_num + rate_den) / (2 * rate_den)
        }
    } else {
        fallback
    }
}

/// The frame rate at which the cursor path is laid out: that of the
/// source, or that of the configuration where the source could not be
/// read or has none.
pub fn effective_frame_rate(rate_num: i32, rate_den: i32, fallback: i32) -> (rate: i32)
    ensures
        rate == chosen_frame_rate(rate_num as int, rate_den as int, fallback as int),
        rate_num > 0 && rate_den > 0 ==> rate >= 1,
{
    if rate_num > 0 && rate_den > 0 {
        let num: i64 = 2 * (rate_num as i64) + rate_den as i64;
        let den: i64 = 2 * (rate_den as i64);
        proof {
            vstd::arithmetic::div_mod::lemma_fundamental_div_mod(num as int, den as int);
            vstd::arithmetic::div_mod::lemma_mod_bound(num as int, den as int);
            vstd::arithmetic::div_mod::lemma_div_pos_is_pos(num as int, den as int);
            let q = num as int / den as int;
            assert(q <= 0x7fff_ffff) by (nonlinear_arith)
                requires
                    num == den * q + num as int % den as int,
                    0 <= num as int % den as int,
                    den >= 2,
                    num <= 2 * 0x7fff_ffff + den / 2,
                    q >= 0,
            ;
        }
        let rounded: i64 = num / den;
        if rounded < 1 {
            1
        } else {
            rounded as i32
        }
    } else {
        fallback
    }
}

/// The number of frames to expect of a run: the count that the source
/// states, or where it states none the number that the span of the path
/// takes at the frame rate.
pub fn expected_frames(source_frames: i64, path: &[PathPoint], frame_rate: i32) -> (frames: u64)
    ensures
        source_frames > 0 ==> frames == source_frames,
        source_frames <= 0 && path.len() == 0 ==> frames == 0,
        source_frames <= 0 && path.len() > 0 ==> frames as int == vstd::math::min(
            estimated_frames(
                path@[0].timestamp_us as int,
                path@[path.len() - 1].timestamp_us as int,
                frame_rate as int,
            ),
            u64::MAX as int,
        ),
{
    if source_frames > 0 {
        source_frames as u64
    } else {
        estimate_frames(path, frame_rate)
    }
}

/// Number of frames that a path of the given span takes at `frame_rate`
/// frames per second, rounded down; none for a span or a rate that is not
/// positive.
pub open spec fn estimated_frames(start_us: int, end_us: int, frame_rate: int) -> int {
    if end_us > start_us && frame_rate > 0 {
        (end_us - start_us) * frame_rate / 1_000_000
    } else {
        0
    }
}

/// The number of frames to expect for a path, for the progress report.
pub fn estimate_frames(path: &[PathPoint], frame_rate: i32) -> (frames: u64)
    ensures
        path.len() == 0 ==> frames == 0,
        path.len() > 0 ==> frames as int == vstd::math::min(
            estimated_frames(
                path@[0].timestamp_us as int,
                path@[path.len() - 1].timestamp_us as int,
                frame_rate as int,
            ),
            u64::MAX as int,
        ),
{
    if path.len() == 0 {
        return 0;
    }
    let start: i128 = path[0].timestamp_us as i128;
    let end: i128 = path[path.len() - 1].timestamp_us as i128;
    if end > start && frame_rate > 0 {
        proof {
            lemma_mul_bounded(end - start, 0x1_0000_0000_0000_0000, frame_rate as int, 0x8000_0000);
            assert((end - start) * frame_rate >= 0) by (nonlinear_arith)
                requires
                    end - start > 0,
                    frame_rate > 0,
            ;
            vstd::arithmetic::div_mod::lemma_div_pos_is_pos(
                (end - start) * frame_rate,
                1_000_000,
            );
        }
        let frames: i128 = (end - start) * (frame_rate as i128) / 1_000_000;
        if frames > u64::MAX as i128 {
            u64::MAX
        } else {
            frames as u64
        }
    } else {
        0
    }
}

/// Progress at the start of a run, as a fraction of 65536.
pub const PROGRESS_START: u32 = 0;

/// Progress when smoothing is done: a tenth.
pub const PROGRESS_SMOOTHED: u32 = 6554;

/// Share of the progress that encoding accounts for: 85 hundredths.
pub const PROGRESS_ENCODE_SPAN: u32 = 55706;

/// Progress at success.
pub const PROGRESS_DONE: u32 = 65536;

/// Progress while encoding, as a fraction of 65536: a tenth, and 85
/// hundredths in proportion to the frames emitted of those estimated.
/// More frames than estimated count as all of them.
pub open spec fn encode_progress(frames_emitted: int, frames_estimated: int) -> int {
    let done = if frames_emitted > frames_estimated {
        frames_estimated
    } else {
        frames_emitted
    };
    PROGRESS_SMOOTHED + PROGRESS_ENCODE_SPAN * done / frames_estimated
}

/// The progress to report after a frame; none where no frames were
/// estimated.
pub fn progress_during_encode(frames_emitted: u64, frames_estimated: u64) -> (progress: Option<
    u32,
>)
    ensures
        frames_estimated == 0 ==> progress.is_none(),
        frames_estimated > 0 ==> progress == Some(
            encode_progress(frames_emitted as int, frames_estimated as int) as u32,
        ) && PROGRESS_SMOOTHED <= progress.unwrap() <= PROGRESS_SMOOTHED + PROGRESS_ENCODE_SPAN,
{
    if frames_estimated == 0 {
        return None;
    }
    let done: u64 = if frames_emitted > frames_estimated {
        frames_estimated
    } else {
        frames_emitted
    };
    proof {
        lemma_scale_span_range(
            PROGRESS_ENCODE_SPAN as int,
            done as int,
            frames_estimated as int,
        );
        lemma_mul_bounded(PROGRESS_ENCODE_SPAN as int, 55706, done as int, 0xffff_ffff_ffff_ffff);
    }
    let part: u128 = (PROGRESS_ENCODE_SPAN as u128) * (done as u128) / (frames_estimated as u128);
    Some(PROGRESS_SMOOTHED + part as u32)
}

/// The progress never goes back as frames are emitted.
pub proof fn lemma_progress_monotone(a: int, b: int, frames_estimated: int)
    requires
        0 <= a <= b,
        frames_estimated > 0,
    ensures
        PROGRESS_SMOOTHED <= encode_progress(a, frames_estimated) <= encode_progress(
            b,
            frames_estimated,
        ) <= PROGRESS_SMOOTHED + PROGRESS_ENCODE_SPAN,
{
    let da = if a > frames_estimated {
        frames_estimated
    } else {
        a
    };
    let db = if b > frames_estimated {
        frames_estimated
    } else {
        b
    };
    lemma_scale_span_range(PROGRESS_ENCODE_SPAN as int, da, frames_estimated);
    lemma_scale_span_range(PROGRESS_ENCODE_SPAN as int, db, frames_estimated);
    lemma_scale_span_monotone(PROGRESS_ENCODE_SPAN as int, da, db, frames_estimated);
}

/// What the frame loop does with one frame.
#[derive(Clone, Copy, Debug, PartialEq, Eq, Structural)]
pub struct FrameDecision {
    /// The frame's time on the clock of the path.
    pub aligned_us: i64,
    /// What the path says of that time.
    pub position: Option<CPoint>,
    /// Whether that position is an end of the path taken in place of an
    /// interpolated one.
    pub clamped: bool,
}

impl FrameDecision {
    /// Where to draw the cursor: at the position, unless there is none or
    /// it is a clamped one.
    pub open spec fn overlay(self) -> Option<CPoint> {
        if self.clamped {
            None
        } else {
            self.position
        }
    }

    /// Where to draw the cursor, if at all.
    pub fn overlay_position(&self) -> (at: Option<CPoint>)
        ensures
            at == self.overlay(),
    {
        if self.clamped {
            None
        } else {
            self.position
        }
    }
}

/// The timestamp at which a path starts; zero for an empty path.
pub open spec fn path_start(path: Seq<PathPoint>) -> int {
    if path.len() == 0 {
        0
    } else {
        path[0].timestamp_us as int
    }
}

/// Decides what to do with a decoded frame: the aligner takes note of
/// the frame, its offset brings the frame's timestamp onto the clock of
/// the path, and the path is asked for the position at that time.
pub fn frame_step(aligner: &mut AlignmentState, path: &[PathPoint], frame_us: i64) -> (decision:
    FrameDecision)
    requires
        old(aligner).wf(),
        path_in_range(path@),
        path_sorted(path@),
        -TIME_MAX <= frame_us <= TIME_MAX,
    ensures
        final(aligner).wf(),
        final(aligner)@ == old(aligner)@.step(frame_us as int, path_start(path@)),
        decision.aligned_us == frame_us + final(aligner)@.offset(),
        decision.position == oracle_position(path@, decision.aligned_us as int),
        decision.clamped == oracle_clamped(path@, decision.aligned_us as int),
{
    let start: i64 = if path.len() == 0 {
        0
    } else {
        path[0].timestamp_us
    };
    aligner.add_sample(frame_us, start);
    let offset: i64 = aligner.get_offset();
    let aligned_us: i64 = frame_us + offset;
    let mut clamped: bool = false;
    let position: Option<CPoint> = find_position_for_timestamp_dbg(path, aligned_us, &mut clamped);
    FrameDecision { aligned_us, position, clamped }
}

/// The decisions for the frames of a run, in order, from the state
/// `aligner` on.
pub open spec fn planned_decisions(
    aligner: AlignmentModel,
    path: Seq<PathPoint>,
    frames: Seq<i64>,
) -> Seq<FrameDecision>
    decreases frames.len(),
{
    if frames.len() == 0 {
        Seq::empty()
    } else {
        let next = aligner.step(frames[0] as int, path_start(path));
        let aligned = frames[0] + next.offset();
        seq![
            FrameDecision {
                aligned_us: aligned as i64,
                position: oracle_position(path, aligned),
                clamped: oracle_clamped(path, aligned),
            },
        ] + planned_decisions(next, path, frames.skip(1))
    }
}

/// The decisions for a whole run: what the frame loop does with each of
/// the frames, given their timestamps in the order of decoding. The
/// decisions depend on the path and the timestamps alone.
pub fn plan_overlays(path: &[PathPoint], frames: &[i64]) -> (decisions: Vec<FrameDecision>)
    requires
        path_in_range(path@),
        path_sorted(path@),
        forall|i: int| 0 <= i < frames.len() ==> -TIME_MAX <= #[trigger] frames@[i] <= TIME_MAX,
    ensures
        decisions@ == planned_decisions(
            AlignmentModel::initial(
                ALIGNMENT_SAMPLE_COUNT as int,
                ALIGNMENT_MAX_WINDOW_US as int,
            ),
            path@,
            frames@,
        ),
        decisions@.len() == frames@.len(),
{
    let mut aligner: AlignmentState = AlignmentState::new();
    let mut decisions: Vec<FrameDecision> = Vec::new();
    let ghost start = aligner@;
    assert(frames@.skip(0) =~= frames@);
    assert(decisions@ + planned_decisions(start, path@, frames@) =~= planned_decisions(
        start,
        path@,
        frames@,
    ));
    let mut i: usize = 0;
    while i < frames.len()
        invariant
            i <= frames.len(),
            aligner.wf(),
            path_in_range(path@),
            path_sorted(path@),
            forall|j: int| 0 <= j < frames.len() ==> -TIME_MAX <= #[trigger] frames@[j] <= TIME_MAX,
            decisions@.len() == i,
            decisions@ + planned_decisions(aligner@, path@, frames@.skip(i as int))
                == planned_decisions(start, path@, frames@),
        decreases frames.len() - i,
    {
        let ghost before = aligner@;
        let ghost rest = frames@.skip(i as int);
        let ghost done = decisions@;
        assert(rest[0] == frames@[i as int]);
        assert(rest.skip(1) == frames@.skip(i + 1));
        let decision: FrameDecision = frame_step(&mut aligner, path, frames[i]);
        decisions.push(decision);
        assert(planned_decisions(before, path@, rest) == seq![decision] + planned_decisions(
            aligner@,
            path@,
            rest.skip(1),
        ));
        assert(decisions@ == done + seq![decision]);
        assert(done + (seq![decision] + planned_decisions(aligner@, path@, rest.skip(1)))
            == (done + seq![decision]) + planned_decisions(aligner@, path@, rest.skip(1)));
        i += 1;
    }
    assert(frames@.skip(frames.len() as int).len() == 0);
    assert(decisions@ + Seq::<FrameDecision>::empty() == decisions@);
    decisions
}

/// Deals with one decoded frame: decides where the cursor is at the
/// frame's time and draws the sprite there, with its top left corner on
/// the position. Nothing is drawn where the path has no position for the
/// frame or only a clamped one.
pub fn render_frame(
    frame: &mut Vec<u8>,
    frame_width: u32,
    frame_height: u32,
    stride: usize,
    cursor: &CursorSprite,
    aligner: &mut AlignmentState,
    path: &[PathPoint],
    frame_us: i64,
) -> (decision: FrameDecision)
    requires
        cursor.wf(),
        old(aligner).wf(),
        path_in_range(path@),
        path_sorted(path@),
        -TIME_MAX <= frame_us <= TIME_MAX,
    ensures
        final(aligner).wf(),
        final(aligner)@ == old(aligner)@.step(frame_us as int, path_start(path@)),
        decision.aligned_us == frame_us + final(aligner)@.offset(),
        decision.position == oracle_position(path@, decision.aligned_us as int),
        decision.clamped == oracle_clamped(path@, decision.aligned_us as int),
        match decision.overlay() {
            Some(at) => final(frame)@ == composited(
                old(frame)@,
                cursor.data@,
                placement(
                    old(frame)@.len() as int,
                    frame_width as int,
                    frame_height as int,
                    stride as int,
                    cursor.width as int,
                    cursor.height as int,
                    at.x as int,
                    at.y as int,
                ),
            ),
            None => final(frame)@ == old(frame)@,
        },
{
    let decision: FrameDecision = frame_step(aligner, path, frame_us);
    match decision.overlay_position() {
        Some(at) => {
            composite_cursor_subpixel(frame, frame_width, frame_height, stride, cursor, at.x, at.y);
        },
        None => {},
    }
    decision
}

/// The smoothing stage of a run: the path for the raw samples with the
/// settings of a configuration, or the failure that ends the run.
pub fn smoothing_stage(raw_points: &[CPoint], config: &VideoProcessingConfig) -> (r: Result<
    Vec<PathPoint>,
    ProcessError,
>)
    requires
        all_in_range(raw_points@),
    ensures
        match r {
            Ok(path) => {
                &&& raw_points.len() >= 4
                &&& path@ == smoothed_path(
                    raw_points@,
                    config.frame_rate as int,
                    config.responsiveness,
                    config.smoothness,
                    config.smoothing_alpha,
                )
                &&& path@.len() >= 1
                &&& path_in_range(path@)
                &&& times_sorted(raw_points@) ==> path_sorted(path@)
            },
            Err(e) => raw_points.len() < 4 && e == ProcessError::Smoothing,
        },
{
    match smooth_samples(
        raw_points,
        config.frame_rate,
        config.responsiveness,
        config.smoothness,
        config.smoothing_alpha,
    ) {
        Ok(path) => Ok(path),
        Err(_) => Err(ProcessError::Smoothing),
    }
}

} // verus!
