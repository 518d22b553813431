//! Verified core of a stereo golf launch monitor: frame buffers, ball
//! detection by background subtraction, detection filtering, and the
//! integer bookkeeping of the shared-memory frame ring.

pub mod ball_detector;
pub mod calibration;
pub mod frame;
pub mod frame_source;
pub mod pipeline;
pub mod report;
pub mod spin;
pub mod triangulation;

pub use ball_detector::{BallDetection, BallDetector, DetectionError};
pub use frame::GrayFrame;
pub use frame_source::SourceState;
pub use pipeline::{DetectionPair, FrameDetection, LaunchInputError};
pub use report::Tier;
pub use triangulation::TriangulationError;
