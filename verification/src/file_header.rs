//! The layout of a stream's header: the frame rate, then the frames.

use vstd::prelude::*;

verus! {

/// Where the frame rate stands in a stream.
pub const FPS_OFFSET: usize = 0;

/// Bytes taken by the frame rate.
pub const FPS_SIZE: usize = 2;

/// Where the first frame starts in a stream.
pub const DATA_START: usize = 2;

} // verus!
