//! The rectangle record, the unit of the encoding.

use vstd::prelude::*;

verus! {

/// An axis-aligned block of active pixels. A record with zero width and zero
/// height is reserved as the end-of-frame marker.
#[derive(Debug, Copy, Clone, PartialEq, Eq, Structural)]
pub struct PixelRect {
    pub x: u16,
    pub y: u16,
    pub w: u16,
    pub h: u16,
}

impl PixelRect {
    /// The record that closes a frame in the stream.
    pub open spec fn marker() -> PixelRect {
        PixelRect { x: 0, y: 0, w: 0, h: 0 }
    }

    /// Builds the record that closes a frame in the stream.
    pub fn eos_marker() -> (m: PixelRect)
        ensures
            m == Self::marker(),
            m.is_marker(),
    {
        PixelRect { x: 0, y: 0, w: 0, h: 0 }
    }

    /// Whether this record is the end-of-frame marker.
    pub open spec fn is_marker(self) -> bool {
        self.w == 0 && self.h == 0
    }

    #[inline]
    pub fn is_frame_end(&self) -> (b: bool)
        ensures
            b == self.is_marker(),
    {
        self.w == 0 && self.h == 0
    }
}

} // verus!
