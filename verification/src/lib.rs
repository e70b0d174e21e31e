//! Cursor-motion reconstruction and time-aligned compositing in exact
//! fixed-point arithmetic.
//!
//! Raw cursor samples become a smooth path in four stages: a centripetal
//! Catmull-Rom curve through the samples (`spline`), the distances along
//! that curve (`arc_length`), a trapezoidal speed profile between each
//! sample and the next (`kinematic`), and a damped spring that follows the
//! profile (`spring`). For each frame of the video, the frame's time is
//! brought onto the clock of the samples (`aligner`), the path is asked
//! for the cursor's position at that time (`oracle`), and the cursor
//! sprite is drawn there (`renderer`). `pipeline` strings the stages
//! together.
//!
//! Positions are signed fixed-point numbers with 16 fractional bits
//! (65536 units per pixel), velocities are the same units per second, and
//! timestamps are whole microseconds.
pub mod aligner;
pub mod arc_length;
pub mod fixed;
pub mod kinematic;
pub mod linkage;
pub mod oracle;
pub mod pipeline;
pub mod renderer;
pub mod spline;
pub mod spring;
pub mod types;
