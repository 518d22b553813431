//! Where stereo frames come from, and the integer bookkeeping of the
//! shared-memory source.

pub mod shared_memory;

use vstd::prelude::*;

verus! {

/// The state of a frame source as the pipeline sees it.
#[derive(Debug, Clone, Copy, PartialEq, Eq, Structural)]
pub enum SourceState {
    Disconnected,
    Idle,
    Ready,
    Streaming,
    Complete,
}

} // verus!
