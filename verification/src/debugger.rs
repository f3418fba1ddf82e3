//! Playing a stream back for inspection: where the stream lies in a file,
//! how large the canvas is, and what each frame paints.
//!
//! A stream is inspected either on its own or inside a built archive. The
//! window, the clock and the file are the caller's.

use crate::archive::PayloadFooter;
use crate::codec::{marker_from, read_frame, records_between};
use crate::extract::painted;
use crate::raster::{render_frame, BLACK, WHITE};
use vstd::prelude::*;

verus! {

/// The canvas width assumed for a stream that comes without a footer.
pub const DEFAULT_WIDTH: usize = 1920;

/// The canvas height assumed for a stream that comes without a footer.
pub const DEFAULT_HEIGHT: usize = 1080;

/// One inspection: the file to play.
#[derive(Debug, Clone)]
pub struct DebugJob {
    pub file_path: String,
}

/// What an inspection tells its caller.
#[derive(Debug, Clone)]
pub enum DebugStatus {
    Starting,
    Playing { frame: usize, rect_count: usize },
    Finished,
    Error(String),
}

/// What a caller may fix in advance of an inspection.
pub struct DebugArgs {
    pub project_name: Option<String>,
    pub file_name: Option<String>,
}

/// The canvas for a playback: the sides that the archive's footer names, or
/// 1920 by 1080 for a stream on its own.
pub fn playback_size(footer: &Option<PayloadFooter>) -> (size: (usize, usize))
    ensures
        size == match *footer {
            Some(f) => (f.width as usize, f.height as usize),
            None => (1920usize, 1080usize),
        },
{
    match footer {
        Some(f) => (f.width as usize, f.height as usize),
        None => (DEFAULT_WIDTH, DEFAULT_HEIGHT),
    }
}

/// Where the stream starts in the file: at the offset that the archive's
/// footer names, or at the start for a stream on its own.
pub fn stream_start(footer: &Option<PayloadFooter>) -> (offset: u64)
    ensures
        offset == match *footer {
            Some(f) => f.video_offset,
            None => 0u64,
        },
{
    match footer {
        Some(f) => f.video_offset,
        None => 0,
    }
}

/// Whether the caller is told of this frame: once for every second of
/// playback, that is whenever the frame's index is a multiple of the frame
/// rate.
pub fn should_announce(frame_idx: usize, fps: u16) -> (due: bool)
    requires
        fps > 0,
    ensures
        due == (frame_idx % (fps as usize) == 0),
{
    frame_idx % (fps as usize) == 0
}

/// Plays the frame that starts at `pos`: the canvas is cleared and the
/// frame's rectangles are painted. Returns the position of the next frame and
/// the number of rectangles painted. Where the bytes end before the frame's
/// marker, the stream is over: nothing is painted and `None` is returned.
pub fn play_frame(bytes: &[u8], pos: usize, buffer: &mut [u32], width: usize, height: usize) -> (r:
    Option<(usize, usize)>)
    requires
        old(buffer)@.len() == width * height,
    ensures
        final(buffer)@.len() == old(buffer)@.len(),
        match marker_from(bytes@, pos as int) {
            None => r.is_none() && final(buffer)@ == old(buffer)@,
            Some(end) => {
                &&& r == Some(((end + 8) as usize, records_between(bytes@, pos as int, end).len() as usize))
                &&& forall|row: int, col: int|
                    0 <= row < height && 0 <= col < width ==> final(buffer)@[row * width + col]
                        == if painted(records_between(bytes@, pos as int, end), row, col) {
                        WHITE
                    } else {
                        BLACK
                    }
            },
        },
{
    match read_frame(bytes, pos) {
        None => None,
        Some((rects, next)) => {
            render_frame(&rects, buffer, width, height);
            Some((next, rects.len()))
        },
    }
}

} // verus!
