//! Alignment of the video's clock with the clock of the cursor samples:
//! the median of the first few differences between the two, fixed once it
//! has been computed.
use crate::fixed::{div_floor, first_exceeding, lemma_first_exceeding, non_decreasing};
use crate::types::TIME_MAX;
use vstd::prelude::*;

verus! {

/// Number of frames whose offsets are collected before the median is taken.
pub const ALIGNMENT_SAMPLE_COUNT: usize = 10;

/// Span of video time, in microseconds, after which the median is taken of
/// what has been collected.
pub const ALIGNMENT_MAX_WINDOW_US: i64 = 500_000;

/// The median of a sorted sequence: the middle value, the mean of the two
/// middle values (rounded down) where the length is even, and zero for an
/// empty sequence.
pub open spec fn median(sorted: Seq<int>) -> int {
    let n = sorted.len() as int;
    if n == 0 {
        0
    } else if n % 2 == 1 {
        sorted[n / 2]
    } else {
        (sorted[n / 2 - 1] + sorted[n / 2]) / 2
    }
}

/// `sorted` with `v` put in behind the values that do not exceed it.
pub open spec fn insert_sorted(sorted: Seq<int>, v: int) -> Seq<int> {
    sorted.insert(first_exceeding(sorted, v, 0), v)
}

/// Putting a value into a sorted sequence leaves it sorted, one longer,
/// and with that value added to its contents.
pub proof fn lemma_insert_sorted(sorted: Seq<int>, v: int)
    requires
        non_decreasing(sorted),
    ensures
        non_decreasing(insert_sorted(sorted, v)),
        insert_sorted(sorted, v).len() == sorted.len() + 1,
        insert_sorted(sorted, v).to_multiset() == sorted.to_multiset().insert(v),
{
    lemma_first_exceeding(sorted, v, 0);
    let k = first_exceeding(sorted, v, 0);
    let out = insert_sorted(sorted, v);
    assert forall|i: int, j: int| 0 <= i <= j < out.len() implies #[trigger] out[i]
        <= #[trigger] out[j] by {
        if j < k {
            assert(out[i] == sorted[i] && out[j] == sorted[j]);
        } else if j == k {
            if i < k {
                assert(out[i] == sorted[i]);
            }
        } else {
            assert(out[j] == sorted[j - 1]);
            if i < k {
                assert(out[i] == sorted[i]);
            } else if i == k {
                assert(sorted[k] <= sorted[j - 1]);
            } else {
                assert(out[i] == sorted[i - 1]);
            }
        }
    }
    vstd::seq_lib::to_multiset_insert(sorted, k, v);
}

/// What an alignment state holds.
pub struct AlignmentModel {
    /// The offsets collected so far, sorted.
    pub samples: Seq<int>,
    /// Number of offsets at which the median is taken.
    pub max_samples: int,
    /// Span of video time after which the median is taken.
    pub max_window: int,
    /// Timestamp of the first frame seen.
    pub first_frame: Option<int>,
    /// The offset, once it has been computed.
    pub computed: Option<int>,
}

impl AlignmentModel {
    /// The state before any frame.
    pub open spec fn initial(max_samples: int, max_window: int) -> AlignmentModel {
        AlignmentModel {
            samples: Seq::empty(),
            max_samples,
            max_window,
            first_frame: None,
            computed: None,
        }
    }

    /// The state after a frame with timestamp `frame`, for a path that
    /// starts at `path_start`. A computed offset stays. Otherwise a frame
    /// later than the window after the first frame, with offsets at hand,
    /// has the median taken of those; any other frame adds its offset
    /// `path_start - frame`, and the median is taken if that was the last
    /// one to collect.
    pub open spec fn step(self, frame: int, path_start: int) -> AlignmentModel {
        if self.computed.is_some() {
            self
        } else {
            let first = match self.first_frame {
                Some(f) => f,
                None => frame,
            };
            if frame - first > self.max_window && self.samples.len() > 0 {
                AlignmentModel {
                    first_frame: Some(first),
                    computed: Some(median(self.samples)),
                    ..self
                }
            } else {
                let samples = insert_sorted(self.samples, path_start - frame);
                AlignmentModel {
                    samples,
                    first_frame: Some(first),
                    computed: if samples.len() >= self.max_samples {
                        Some(median(samples))
                    } else {
                        None
                    },
                    ..self
                }
            }
        }
    }

    /// The offset to add to a frame's timestamp: the computed one, or the
    /// median of what has been collected so far.
    pub open spec fn offset(self) -> int {
        match self.computed {
            Some(o) => o,
            None => median(self.samples),
        }
    }

    /// The state after all the frames of `frames`, in order.
    pub open spec fn run(self, frames: Seq<int>, path_start: int) -> AlignmentModel
        decreases frames.len(),
    {
        if frames.len() == 0 {
            self
        } else {
            self.step(frames[0], path_start).run(frames.skip(1), path_start)
        }
    }
}

/// Once the offset has been computed, no further frame changes the state,
/// so every later query gives the same offset.
pub proof fn lemma_offset_frozen(state: AlignmentModel, frames: Seq<int>, path_start: int)
    requires
        state.computed.is_some(),
    ensures
        state.run(frames, path_start) == state,
        state.run(frames, path_start).offset() == state.offset(),
    decreases frames.len(),
{
    if frames.len() > 0 {
        lemma_offset_frozen(state, frames.skip(1), path_start);
    }
}

/// The median of offsets that are all the same is that offset.
pub proof fn lemma_median_of_equal(sorted: Seq<int>, v: int)
    requires
        sorted.len() > 0,
        forall|i: int| 0 <= i < sorted.len() ==> sorted[i] == v,
    ensures
        median(sorted) == v,
{
    let n = sorted.len() as int;
    if n % 2 == 0 {
        assert(sorted[n / 2 - 1] == v);
        assert(sorted[n / 2] == v);
    } else {
        assert(sorted[n / 2] == v);
    }
}

/// Collects the offsets of the first frames and fixes their median.
pub struct AlignmentState {
    samples: Vec<i64>,
    max_samples: usize,
    max_window_us: i64,
    first_frame_us: Option<i64>,
    computed_offset: Option<i64>,
}

impl AlignmentState {
    /// What the state holds.
    pub closed spec fn view(&self) -> AlignmentModel {
        AlignmentModel {
            samples: self.samples@.map_values(|v: i64| v as int),
            max_samples: self.max_samples as int,
            max_window: self.max_window_us as int,
            first_frame: match self.first_frame_us {
                Some(f) => Some(f as int),
                None => None,
            },
            computed: match self.computed_offset {
                Some(o) => Some(o as int),
                None => None,
            },
        }
    }

    /// The collected offsets are sorted and each is the difference of two
    /// timestamps in range.
    pub closed spec fn wf(&self) -> bool {
        &&& non_decreasing(self@.samples)
        &&& forall|i: int|
            0 <= i < self.samples@.len() ==> -2 * TIME_MAX <= #[trigger] self.samples@[i] <= 2
                * TIME_MAX
        &&& self.first_frame_us.is_some() ==> -TIME_MAX <= self.first_frame_us.unwrap() <= TIME_MAX
        &&& self.computed_offset.is_some() ==> -2 * TIME_MAX <= self.computed_offset.unwrap() <= 2
            * TIME_MAX
    }

    /// A state that takes the median of ten offsets, or of those seen
    /// within half a second of video.
    pub fn new() -> (state: AlignmentState)
        ensures
            state@ == AlignmentModel::initial(
                ALIGNMENT_SAMPLE_COUNT as int,
                ALIGNMENT_MAX_WINDOW_US as int,
            ),
            state.wf(),
    {
        AlignmentState::with_limits(ALIGNMENT_SAMPLE_COUNT, ALIGNMENT_MAX_WINDOW_US)
    }

    /// A state that takes the median of `max_samples` offsets, or of those
    /// seen within `max_window_us` of video.
    pub fn with_limits(max_samples: usize, max_window_us: i64) -> (state: AlignmentState)
        ensures
            state@ == AlignmentModel::initial(max_samples as int, max_window_us as int),
            state.wf(),
    {
        let state = AlignmentState {
            samples: Vec::new(),
            max_samples,
            max_window_us,
            first_frame_us: None,
            computed_offset: None,
        };
        assert(state@.samples =~= Seq::empty());
        state
    }

    /// Whether the offset has been computed.
    pub fn is_ready(&self) -> (ready: bool)
        ensures
            ready == self@.computed.is_some(),
    {
        self.computed_offset.is_some()
    }

    /// Number of offsets collected.
    pub fn sample_count(&self) -> (n: usize)
        ensures
            n == self@.samples.len(),
    {
        self.samples.len()
    }

    /// The median of the collected offsets.
    fn current_median(&self) -> (m: i64)
        requires
            self.wf(),
        ensures
            m == median(self@.samples),
            -2 * TIME_MAX <= m <= 2 * TIME_MAX,
    {
        let n: usize = self.samples.len();
        if n == 0 {
            0
        } else if n % 2 == 1 {
            assert(self@.samples[n as int / 2] == self.samples@[n as int / 2]);
            self.samples[n / 2]
        } else {
            assert(self@.samples[n as int / 2] == self.samples@[n as int / 2]);
            assert(self@.samples[n as int / 2 - 1] == self.samples@[n as int / 2 - 1]);
            let a: i128 = self.samples[n / 2 - 1] as i128;
            let b: i128 = self.samples[n / 2] as i128;
            div_floor(a + b, 2) as i64
        }
    }

    /// Takes note of a decoded frame with timestamp `frame_us`, for a path
    /// whose first point has timestamp `path_start_us`.
    pub fn add_sample(&mut self, frame_us: i64, path_start_us: i64)
        requires
            old(self).wf(),
            -TIME_MAX <= frame_us <= TIME_MAX,
            -TIME_MAX <= path_start_us <= TIME_MAX,
        ensures
            final(self)@ == old(self)@.step(frame_us as int, path_start_us as int),
            final(self).wf(),
    {
        if self.computed_offset.is_some() {
            return;
        }
        let first: i64 = match self.first_frame_us {
            Some(f) => f,
            None => frame_us,
        };
        self.first_frame_us = Some(first);
        if frame_us - first > self.max_window_us && self.samples.len() > 0 {
            let m: i64 = self.current_median();
            self.computed_offset = Some(m);
            return;
        }
        let offset: i64 = path_start_us - frame_us;
        let ghost before = self@.samples;
        let mut k: usize = 0;
        while k < self.samples.len() && self.samples[k] <= offset
            invariant
                k <= self.samples.len(),
                self@.samples == before,
                first_exceeding(before, offset as int, k as int) == first_exceeding(
                    before,
                    offset as int,
                    0,
                ),
            decreases self.samples.len() - k,
        {
            assert(before[k as int] == self.samples@[k as int]);
            k += 1;
        }
        proof {
            if k < self.samples.len() {
                assert(before[k as int] == self.samples@[k as int]);
            }
            lemma_insert_sorted(before, offset as int);
        }
        self.samples.insert(k, offset);
        assert(self@.samples =~= insert_sorted(before, offset as int));
        assert forall|i: int| 0 <= i < self.samples@.len() implies -2 * TIME_MAX
            <= #[trigger] self.samples@[i] <= 2 * TIME_MAX by {
            if i < k {
                assert(self.samples@[i] == old(self).samples@[i]);
            } else if i > k {
                assert(self.samples@[i] == old(self).samples@[i - 1]);
            }
        }
        if self.samples.len() >= self.max_samples {
            let m: i64 = self.current_median();
            self.computed_offset = Some(m);
        }
    }

    /// The offset to add to a frame's timestamp to get the time on the
    /// path's clock: the computed offset, or until then the median of the
    /// offsets seen so far, which is zero before the first frame.
    pub fn get_offset(&self) -> (offset: i64)
        requires
            self.wf(),
        ensures
            offset == self@.offset(),
            -2 * TIME_MAX <= offset <= 2 * TIME_MAX,
    {
        match self.computed_offset {
            Some(o) => o,
            None => self.current_median(),
        }
    }
}

} // verus!
