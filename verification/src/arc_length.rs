//! Distance along a sampled curve: the table of cumulative lengths, the
//! position at a given distance, and the sample nearest to a point.
use crate::fixed::{
    clamp_int, first_reaching, isqrt, lemma_first_reaching, lemma_mul_bounded,
    lemma_scale_span_range, non_decreasing, scale_span, scale_span_exec,
};
use crate::spline::{chord_length, lemma_chord_length};
use crate::types::{all_at, all_in_range, CPoint, COORD_MAX};
use vstd::prelude::*;

verus! {

/// Largest cumulative length that the table holds; longer curves count as
/// this long.
pub const LENGTH_MAX: i64 = 0x4_0000_0000_0000;

/// Length of the curve from its first sample to sample `i`, cut off at
/// `LENGTH_MAX`.
pub open spec fn cumulative_length(points: Seq<CPoint>, i: int) -> int
    decreases i,
{
    if i <= 0 {
        0
    } else {
        let sum = cumulative_length(points, i - 1) + chord_length(points[i - 1], points[i]);
        if sum > LENGTH_MAX {
            LENGTH_MAX as int
        } else {
            sum
        }
    }
}

/// The cumulative lengths never decrease along the curve, start at zero and
/// stay within `[0, LENGTH_MAX]`.
pub proof fn lemma_cumulative_length_monotone(points: Seq<CPoint>, i: int, j: int)
    requires
        all_in_range(points),
        0 <= i <= j < points.len(),
    ensures
        0 <= cumulative_length(points, i) <= cumulative_length(points, j) <= LENGTH_MAX,
        cumulative_length(points, 0) == 0,
    decreases j,
{
    if j > 0 {
        lemma_chord_length(points[j - 1], points[j]);
        if i < j {
            lemma_cumulative_length_monotone(points, i, j - 1);
        } else {
            lemma_cumulative_length_monotone(points, i - 1, j - 1);
        }
    }
}

/// A sequence of lengths that starts at zero, never decreases and stays
/// within `[0, LENGTH_MAX]`.
pub open spec fn is_length_table(lengths: Seq<int>) -> bool {
    &&& lengths.len() > 0 ==> lengths[0] == 0
    &&& forall|i: int| 0 <= i < lengths.len() ==> 0 <= #[trigger] lengths[i] <= LENGTH_MAX
    &&& non_decreasing(lengths)
}

/// The point at distance `s` along the curve: `s` is first limited to the
/// length of the curve; the point lies between the first sample whose
/// cumulative length reaches `s` and the sample before it, in proportion
/// to the distances to both.
pub open spec fn point_at_distance(points: Seq<CPoint>, lengths: Seq<int>, s: int) -> (int, int) {
    let target = clamp_int(s, 0, lengths[lengths.len() - 1]);
    let i = first_reaching(lengths, target, 0);
    if i == 0 {
        (points[0].x as int, points[0].y as int)
    } else {
        let span = lengths[i] - lengths[i - 1];
        let part = target - lengths[i - 1];
        (
            points[i - 1].x + scale_span(points[i].x - points[i - 1].x, part, span),
            points[i - 1].y + scale_span(points[i].y - points[i - 1].y, part, span),
        )
    }
}

/// Squared distance between two points.
pub open spec fn distance_squared(p: CPoint, q: CPoint) -> int {
    (q.x - p.x) * (q.x - p.x) + (q.y - p.y) * (q.y - p.y)
}

/// Index of the sample nearest to `a` among the first `n`, the earliest
/// where several are equally near.
pub open spec fn nearest_in_prefix(points: Seq<CPoint>, a: CPoint, n: int) -> int
    decreases n,
{
    if n <= 1 {
        0
    } else {
        let best = nearest_in_prefix(points, a, n - 1);
        if distance_squared(points[n - 1], a) < distance_squared(points[best], a) {
            n - 1
        } else {
            best
        }
    }
}

/// Index of the sample nearest to `a`.
pub open spec fn nearest_index(points: Seq<CPoint>, a: CPoint) -> int {
    nearest_in_prefix(points, a, points.len() as int)
}

/// The nearest sample among the first `n` is one of them, no sample among
/// them is nearer, and every earlier one is farther.
pub proof fn lemma_nearest_in_prefix(points: Seq<CPoint>, a: CPoint, n: int)
    requires
        1 <= n <= points.len(),
    ensures
        0 <= nearest_in_prefix(points, a, n) < n,
        forall|j: int|
            0 <= j < n ==> distance_squared(points[nearest_in_prefix(points, a, n)], a)
                <= #[trigger] distance_squared(points[j], a),
        forall|j: int|
            0 <= j < nearest_in_prefix(points, a, n) ==> distance_squared(
                points[nearest_in_prefix(points, a, n)],
                a,
            ) < #[trigger] distance_squared(points[j], a),
    decreases n,
{
    if n > 1 {
        lemma_nearest_in_prefix(points, a, n - 1);
    }
}

/// Cumulative lengths of a sampled curve, one for each sample.
pub struct ArcLengthTable {
    lengths: Vec<i64>,
}

impl ArcLengthTable {
    /// The lengths as mathematical integers.
    pub closed spec fn view(&self) -> Seq<int> {
        self.lengths@.map_values(|v: i64| v as int)
    }

    /// The table starts at zero and never decreases.
    pub open spec fn wf(&self) -> bool {
        is_length_table(self@)
    }

    /// The table holds the cumulative lengths of `points`.
    pub open spec fn describes(&self, points: Seq<CPoint>) -> bool {
        &&& self@.len() == points.len()
        &&& forall|i: int|
            0 <= i < points.len() ==> #[trigger] self@[i] == cumulative_length(points, i)
    }

    /// Measures the curve through `points`.
    pub fn build(points: &[CPoint]) -> (table: ArcLengthTable)
        requires
            all_in_range(points@),
        ensures
            table.describes(points@),
            table.wf(),
    {
        let mut lengths: Vec<i64> = Vec::new();
        let mut i: usize = 0;
        let mut total: i64 = 0;
        while i < points.len()
            invariant
                all_in_range(points@),
                i <= points.len(),
                lengths.len() == i,
                i > 0 ==> total == cumulative_length(points@, i - 1),
                i == 0 ==> total == 0,
                0 <= total <= LENGTH_MAX,
                forall|j: int| 0 <= j < i ==> #[trigger] lengths[j] == cumulative_length(points@, j),
            decreases points.len() - i,
        {
            if i > 0 {
                let step: i64 = distance(&points[i - 1], &points[i]);
                total = if step > LENGTH_MAX - total {
                    LENGTH_MAX
                } else {
                    total + step
                };
            }
            lengths.push(total);
            i += 1;
        }
        let table = ArcLengthTable { lengths };
        proof {
            assert(table@.len() == points.len());
            assert forall|j: int| 0 <= j < points.len() implies #[trigger] table@[j]
                == cumulative_length(points@, j) by {
                assert(table@[j] == table.lengths@[j] as int);
            }
            assert forall|a: int, b: int| 0 <= a <= b < table@.len() implies #[trigger] table@[a]
                <= #[trigger] table@[b] by {
                lemma_cumulative_length_monotone(points@, a, b);
            }
            assert forall|a: int| 0 <= a < table@.len() implies 0 <= #[trigger] table@[a]
                <= LENGTH_MAX by {
                lemma_cumulative_length_monotone(points@, a, a);
            }
        }
        table
    }

    /// Number of entries.
    pub fn len(&self) -> (n: usize)
        ensures
            n == self@.len(),
    {
        self.lengths.len()
    }

    /// The cumulative length at sample `i`.
    pub fn length_at(&self, i: usize) -> (s: i64)
        requires
            i < self@.len(),
        ensures
            s == self@[i as int],
    {
        self.lengths[i]
    }

    /// Length of the whole curve; zero for an empty table.
    pub fn total_length(&self) -> (s: i64)
        ensures
            self@.len() == 0 ==> s == 0,
            self@.len() > 0 ==> s == self@[self@.len() - 1],
    {
        if self.lengths.len() == 0 {
            0
        } else {
            self.lengths[self.lengths.len() - 1]
        }
    }
}

/// Euclidean distance between two points, rounded down.
pub fn distance(p: &CPoint, q: &CPoint) -> (d: i64)
    requires
        p.in_range(),
        q.in_range(),
    ensures
        d == chord_length(*p, *q),
        0 <= d < 0x40_0000_0000,
{
    let dx: i128 = q.x as i128 - p.x as i128;
    let dy: i128 = q.y as i128 - p.y as i128;
    proof {
        lemma_mul_bounded(dx as int, 0x20_0000_0000, dx as int, 0x20_0000_0000);
        lemma_mul_bounded(dy as int, 0x20_0000_0000, dy as int, 0x20_0000_0000);
        assert(dx * dx >= 0 && dy * dy >= 0) by (nonlinear_arith);
        lemma_chord_length(*p, *q);
    }
    let sum: i128 = dx * dx + dy * dy;
    isqrt(sum as u128) as i64
}

/// The position at distance `s` along the curve through `points`, whose
/// cumulative lengths `table` holds. A distance below zero counts as zero,
/// one beyond the end as the whole length. An empty curve has no position.
pub fn position_at_distance(points: &[CPoint], table: &ArcLengthTable, s: i64) -> (position: Option<
    (i64, i64),
>)
    requires
        all_in_range(points@),
        table.wf(),
        table@.len() == points.len(),
    ensures
        points.len() == 0 ==> position.is_none(),
        points.len() > 0 ==> position.is_some() && (
        position.unwrap().0 as int,
        position.unwrap().1 as int,
        ) == point_at_distance(points@, table@, s as int),
        position.is_some() ==> -COORD_MAX <= position.unwrap().0 <= COORD_MAX && -COORD_MAX
            <= position.unwrap().1 <= COORD_MAX,
{
    let n: usize = points.len();
    if n == 0 {
        return None;
    }
    let total: i64 = table.length_at(n - 1);
    let target: i64 = if s < 0 {
        0
    } else if s > total {
        total
    } else {
        s
    };
    assert(target == clamp_int(s as int, 0, table@[table@.len() - 1]));
    // Binary search for the first index whose length reaches the target.
    let mut lo: usize = 0;
    let mut hi: usize = n - 1;
    while lo < hi
        invariant
            table.wf(),
            table@.len() == n,
            0 <= lo <= hi < n,
            table@[hi as int] >= target,
            lo > 0 ==> table@[lo - 1] < target,
        decreases hi - lo,
    {
        let mid: usize = lo + (hi - lo) / 2;
        if table.length_at(mid) >= target {
            hi = mid;
        } else {
            lo = mid + 1;
        }
    }
    proof {
        lemma_first_reaching(table@, target as int, 0, lo as int);
    }
    if lo == 0 {
        Some((points[0].x, points[0].y))
    } else {
        let before: i64 = table.length_at(lo - 1);
        let span: i64 = table.length_at(lo) - before;
        let part: i64 = target - before;
        let a: CPoint = points[lo - 1];
        let b: CPoint = points[lo];
        proof {
            lemma_scale_span_range(b.x - a.x, part as int, span as int);
            lemma_scale_span_range(b.y - a.y, part as int, span as int);
        }
        let x: i128 = a.x as i128 + scale_span_exec(
            b.x as i128 - a.x as i128,
            part as u64,
            span as u64,
        );
        let y: i128 = a.y as i128 + scale_span_exec(
            b.y as i128 - a.y as i128,
            part as u64,
            span as u64,
        );
        Some((x as i64, y as i64))
    }
}

/// Index of the sample of `points` nearest to `a`, the earliest where
/// several are equally near; zero for an empty curve.
pub fn nearest_sample(points: &[CPoint], a: &CPoint) -> (index: usize)
    requires
        all_in_range(points@),
        a.in_range(),
    ensures
        index == nearest_index(points@, *a),
        points.len() > 0 ==> index < points.len(),
{
    let n: usize = points.len();
    if n == 0 {
        return 0;
    }
    let mut best: usize = 0;
    let mut best_d: i128 = squared_distance(&points[0], a);
    let mut i: usize = 1;
    while i < n
        invariant
            n == points.len(),
            all_in_range(points@),
            a.in_range(),
            1 <= i <= n,
            best == nearest_in_prefix(points@, *a, i as int),
            0 <= best < i,
            best_d == distance_squared(points@[best as int], *a),
        decreases n - i,
    {
        let d: i128 = squared_distance(&points[i], a);
        if d < best_d {
            best = i;
            best_d = d;
        }
        i += 1;
    }
    best
}

/// Squared distance of two points in range.
fn squared_distance(p: &CPoint, q: &CPoint) -> (d: i128)
    requires
        p.in_range(),
        q.in_range(),
    ensures
        d == distance_squared(*p, *q),
{
    let dx: i128 = q.x as i128 - p.x as i128;
    let dy: i128 = q.y as i128 - p.y as i128;
    proof {
        lemma_mul_bounded(dx as int, 0x20_0000_0000, dx as int, 0x20_0000_0000);
        lemma_mul_bounded(dy as int, 0x20_0000_0000, dy as int, 0x20_0000_0000);
    }
    dx * dx + dy * dy
}

/// A curve whose samples all lie at one place has no length.
pub proof fn lemma_cumulative_length_at(points: Seq<CPoint>, spot: CPoint, i: int)
    requires
        all_at(points, spot),
        0 <= i < points.len(),
    ensures
        cumulative_length(points, i) == 0,
    decreases i,
{
    if i > 0 {
        lemma_cumulative_length_at(points, spot, i - 1);
        assert(points[i - 1].same_place(spot));
        assert(points[i].same_place(spot));
        let dx = points[i].x - points[i - 1].x;
        let dy = points[i].y - points[i - 1].y;
        assert(dx * dx + dy * dy == 0) by (nonlinear_arith)
            requires
                dx == 0,
                dy == 0,
        ;
        assert(chord_length(points[i - 1], points[i]) == 0);
    }
}

/// On a curve whose samples all lie at one place, every distance leads to
/// that place.
pub proof fn lemma_point_at_distance_at(
    points: Seq<CPoint>,
    lengths: Seq<int>,
    spot: CPoint,
    s: int,
)
    requires
        points.len() > 0,
        lengths.len() == points.len(),
        all_at(points, spot),
        forall|i: int| 0 <= i < lengths.len() ==> #[trigger] lengths[i] == 0,
    ensures
        point_at_distance(points, lengths, s) == (spot.x as int, spot.y as int),
{
    assert(lengths[lengths.len() - 1] == 0);
    assert(lengths[0] == 0);
    assert(clamp_int(s, 0, 0) == 0);
    assert(first_reaching(lengths, 0, 0) == 0);
    assert(points[0].same_place(spot));
}

} // verus!
