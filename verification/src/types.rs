//! Points, path points and the processing configuration.
use vstd::prelude::*;

verus! {

/// One pixel, in position units.
pub const PIXEL: i64 = 65536;

/// Largest magnitude of a coordinate: 2^20 pixels.
pub const COORD_MAX: i64 = 0x10_0000_0000;

/// Largest magnitude of a timestamp, in microseconds.
pub const TIME_MAX: i64 = 0x10_0000_0000_0000;

/// Largest magnitude of a velocity component: 2^24 pixels per second.
pub const VELOCITY_MAX: i64 = 0x100_0000_0000;

/// The value 1.0 of a perceptual parameter or of the spline exponent.
pub const UNIT: u32 = 65536;

/// Microseconds in a second.
pub const MICROS_PER_SEC: i64 = 1_000_000;

/// A cursor position at a moment in time.
///
/// `x` and `y` count 1/65536 of a pixel; `timestamp_us` counts microseconds.
#[derive(Clone, Copy, Debug, PartialEq, Eq, Structural)]
pub struct CPoint {
    pub x: i64,
    pub y: i64,
    pub timestamp_us: i64,
}

impl CPoint {
    /// The coordinates and the timestamp lie within the supported ranges.
    pub open spec fn in_range(self) -> bool {
        &&& -COORD_MAX <= self.x <= COORD_MAX
        &&& -COORD_MAX <= self.y <= COORD_MAX
        &&& -TIME_MAX <= self.timestamp_us <= TIME_MAX
    }

    /// The two points have the same position.
    pub open spec fn same_place(self, other: CPoint) -> bool {
        self.x == other.x && self.y == other.y
    }
}

/// Every point of the sequence is in range.
pub open spec fn all_in_range(points: Seq<CPoint>) -> bool {
    forall|i: int| 0 <= i < points.len() ==> (#[trigger] points[i]).in_range()
}

/// The timestamps of the points never decrease.
pub open spec fn times_sorted(points: Seq<CPoint>) -> bool {
    forall|i: int, j: int|
        0 <= i <= j < points.len() ==> (#[trigger] points[i]).timestamp_us <= (
        #[trigger] points[j]).timestamp_us
}

/// The timestamps of a sequence of points.
pub open spec fn point_times(points: Seq<CPoint>) -> Seq<int> {
    points.map_values(|p: CPoint| p.timestamp_us as int)
}

/// Every point lies at the place of `spot`.
pub open spec fn all_at(points: Seq<CPoint>, spot: CPoint) -> bool {
    forall|i: int| 0 <= i < points.len() ==> (#[trigger] points[i]).same_place(spot)
}

/// A position with the velocity at which the cursor passes through it,
/// in position units per second.
#[derive(Clone, Copy, Debug, PartialEq, Eq, Structural)]
pub struct PathPoint {
    pub x: i64,
    pub y: i64,
    pub timestamp_us: i64,
    pub vx: i64,
    pub vy: i64,
}

impl PathPoint {
    /// Position, timestamp and velocity lie within the supported ranges.
    pub open spec fn in_range(self) -> bool {
        &&& -COORD_MAX <= self.x <= COORD_MAX
        &&& -COORD_MAX <= self.y <= COORD_MAX
        &&& -TIME_MAX <= self.timestamp_us <= TIME_MAX
        &&& -VELOCITY_MAX <= self.vx <= VELOCITY_MAX
        &&& -VELOCITY_MAX <= self.vy <= VELOCITY_MAX
    }

    /// The point without its velocity.
    pub open spec fn position(self) -> CPoint {
        CPoint { x: self.x, y: self.y, timestamp_us: self.timestamp_us }
    }

    /// A path point at rest.
    pub fn new(x: i64, y: i64, timestamp_us: i64) -> (p: PathPoint)
        ensures
            p == (PathPoint { x, y, timestamp_us, vx: 0, vy: 0 }),
    {
        PathPoint { x, y, timestamp_us, vx: 0, vy: 0 }
    }

    /// A path point that moves with the given velocity.
    pub fn with_velocity(x: i64, y: i64, timestamp_us: i64, vx: i64, vy: i64) -> (p: PathPoint)
        ensures
            p == (PathPoint { x, y, timestamp_us, vx, vy }),
    {
        PathPoint { x, y, timestamp_us, vx, vy }
    }

    /// Drops the velocity.
    pub fn to_cpoint(&self) -> (p: CPoint)
        ensures
            p == self.position(),
    {
        CPoint { x: self.x, y: self.y, timestamp_us: self.timestamp_us }
    }
}

impl From<CPoint> for PathPoint {
    fn from(p: CPoint) -> (r: PathPoint) {
        PathPoint::new(p.x, p.y, p.timestamp_us)
    }
}

impl vstd::std_specs::convert::FromSpecImpl<CPoint> for PathPoint {
    open spec fn obeys_from_spec() -> bool {
        true
    }

    open spec fn from_spec(p: CPoint) -> PathPoint {
        PathPoint { x: p.x, y: p.y, timestamp_us: p.timestamp_us, vx: 0, vy: 0 }
    }
}

/// Every path point of the sequence is in range.
pub open spec fn path_in_range(path: Seq<PathPoint>) -> bool {
    forall|i: int| 0 <= i < path.len() ==> (#[trigger] path[i]).in_range()
}

/// Settings of one processing run.
///
/// `smoothing_alpha`, `responsiveness` and `smoothness` are fractions of
/// `UNIT`; values above `UNIT` count as `UNIT`.
#[derive(Clone, Copy, Debug, PartialEq, Eq, Structural)]
pub struct VideoProcessingConfig {
    /// Exponent of the spline's knot spacing: 0 uniform, `UNIT / 2`
    /// centripetal, `UNIT` chordal.
    pub smoothing_alpha: u32,
    /// How quickly the cursor follows its target.
    pub responsiveness: u32,
    /// How strongly the motion is damped.
    pub smoothness: u32,
    /// Frames per second of the output.
    pub frame_rate: i32,
    /// Verbosity, from 0 (silent) to 5 (trace).
    pub log_level: i32,
}

impl VideoProcessingConfig {
    /// The frame rate is positive and the log level is one of the six known.
    pub open spec fn is_valid(self) -> bool {
        self.frame_rate > 0 && 0 <= self.log_level <= 5
    }

    /// Whether the frame rate is positive and the log level is one of the
    /// six known.
    pub fn validate(&self) -> (ok: bool)
        ensures
            ok == self.is_valid(),
    {
        self.frame_rate > 0 && 0 <= self.log_level && self.log_level <= 5
    }
}

/// How much is logged.
#[derive(Clone, Copy, Debug, PartialEq, Eq, Structural)]
pub enum Verbosity {
    Off,
    Error,
    Warn,
    Info,
    Debug,
    Trace,
}

impl Verbosity {
    /// The verbosity that a log level stands for: 0 for none, 1 for
    /// errors, 2 for warnings, 3 for information, 4 for debugging and 5
    /// for tracing.
    pub open spec fn of_level(level: int) -> Option<Verbosity> {
        if level == 0 {
            Some(Verbosity::Off)
        } else if level == 1 {
            Some(Verbosity::Error)
        } else if level == 2 {
            Some(Verbosity::Warn)
        } else if level == 3 {
            Some(Verbosity::Info)
        } else if level == 4 {
            Some(Verbosity::Debug)
        } else if level == 5 {
            Some(Verbosity::Trace)
        } else {
            None
        }
    }

    /// The verbosity for a log level; none for a number that is no level.
    pub fn from_level(level: i32) -> (v: Option<Verbosity>)
        ensures
            v == Verbosity::of_level(level as int),
    {
        if level == 0 {
            Some(Verbosity::Off)
        } else if level == 1 {
            Some(Verbosity::Error)
        } else if level == 2 {
            Some(Verbosity::Warn)
        } else if level == 3 {
            Some(Verbosity::Info)
        } else if level == 4 {
            Some(Verbosity::Debug)
        } else if level == 5 {
            Some(Verbosity::Trace)
        } else {
            None
        }
    }

    /// Whether tables of the intermediate point sequences are written
    /// out: only when tracing.
    pub fn writes_debug_tables(&self) -> (yes: bool)
        ensures
            yes == (*self == Verbosity::Trace),
    {
        match self {
            Verbosity::Trace => true,
            _ => false,
        }
    }
}

impl Default for VideoProcessingConfig {
    fn default() -> (c: VideoProcessingConfig)
        ensures
            c == (VideoProcessingConfig {
                smoothing_alpha: 32768,
                responsiveness: 32768,
                smoothness: 45875,
                frame_rate: 60,
                log_level: 3,
            }),
    {
        VideoProcessingConfig {
            smoothing_alpha: 32768,
            responsiveness: 32768,
            smoothness: 45875,
            frame_rate: 60,
            log_level: 3,
        }
    }
}

} // verus!
