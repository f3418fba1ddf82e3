//! The stages of a conversion that come before the writer: numbering the
//! frames as they are read, extracting each one, and recycling the pixel
//! buffers. The stages run on threads of the caller's; what each one decides
//! is decided here.

use crate::builder::{bin_file_name, bin_name, named, resolution_dimensions};
use crate::builder::{resolution_height, resolution_width};
use crate::codec::{encode_frame, encode_header, frames_bytes, frames_view, stream_bytes};
use crate::extract::{extract_rects_optimized, frame_of, is_extraction};
use crate::le::u16_le;
use crate::rect::PixelRect;
use crate::writer::ProcessedFrame;
use vstd::prelude::*;

verus! {

/// Slots in each queue between two stages, and buffers in the pool.
pub const QUEUE_SIZE: usize = 64;

/// The luminance from which a pixel counts as active.
pub const THRESHOLD: u8 = 127;

/// Progress is reported whenever this many more frames have been written.
pub const REPORT_EVERY: u64 = 30;

/// Progress is reported once more than this many milliseconds have passed
/// since the last report.
pub const REPORT_AFTER_MS: u128 = 100;

/// One conversion: a source video to one stream file.
#[derive(Debug, Clone)]
pub struct ConvertJob {
    pub input_path: String,
    pub output_path: String,
    pub width: u32,
    pub height: u32,
    pub fps: u16,
    pub use_gpu: bool,
}

/// What a caller may fix in advance of a conversion.
pub struct ConvertArgs {
    pub project_name: Option<String>,
    pub resolutions: Option<String>,
    pub use_gpu: bool,
}

/// A conversion as the contracts see it.
pub struct JobModel {
    pub input_path: Seq<char>,
    pub output_path: Seq<char>,
    pub width: u32,
    pub height: u32,
    pub fps: u16,
    pub use_gpu: bool,
}

impl View for ConvertJob {
    type V = JobModel;

    open spec fn view(&self) -> JobModel {
        JobModel {
            input_path: self.input_path@,
            output_path: self.output_path@,
            width: self.width,
            height: self.height,
            fps: self.fps,
            use_gpu: self.use_gpu,
        }
    }
}

/// The conversions for the first `n` of the resolutions asked for: one for
/// each name that is a known resolution, in the order asked.
pub open spec fn planned(
    project: Seq<char>,
    input_path: Seq<char>,
    resolutions: Seq<String>,
    fps: u16,
    use_gpu: bool,
    n: int,
) -> Seq<JobModel>
    decreases n,
{
    if n <= 0 {
        Seq::empty()
    } else {
        let before = planned(project, input_path, resolutions, fps, use_gpu, n - 1);
        match named(resolutions[n - 1]@, 0) {
            Some(i) => before.push(
                JobModel {
                    input_path,
                    output_path: bin_name(project, resolutions[n - 1]@),
                    width: resolution_width(i) as u32,
                    height: resolution_height(i) as u32,
                    fps,
                    use_gpu,
                },
            ),
            None => before,
        }
    }
}

/// The views of a list of conversions.
pub open spec fn jobs_view(jobs: Seq<ConvertJob>) -> Seq<JobModel> {
    Seq::new(jobs.len(), |i: int| jobs[i]@)
}

/// Plans the conversions of one source video: one for each resolution asked
/// for that is a known one, in the order asked. Each writes the stream file
/// named `<project>_<resolution>.bin`. Names that are no known resolution are
/// passed over.
pub fn plan_conversions(
    project: &str,
    input_path: &str,
    resolutions: &Vec<String>,
    fps: u16,
    use_gpu: bool,
) -> (jobs: Vec<ConvertJob>)
    ensures
        jobs_view(jobs@) == planned(
            project@,
            input_path@,
            resolutions@,
            fps,
            use_gpu,
            resolutions@.len() as int,
        ),
{
    let mut jobs: Vec<ConvertJob> = Vec::new();
    assert(jobs_view(jobs@) =~= planned(project@, input_path@, resolutions@, fps, use_gpu, 0));
    let mut i: usize = 0;
    while i < resolutions.len()
        invariant
            i <= resolutions.len(),
            jobs_view(jobs@) == planned(
                project@,
                input_path@,
                resolutions@,
                fps,
                use_gpu,
                i as int,
            ),
        decreases resolutions.len() - i,
    {
        let name = resolutions[i].as_str();
        match resolution_dimensions(name) {
            Some((w, h)) => {
                let ghost before = jobs_view(jobs@);
                let job = ConvertJob {
                    input_path: input_path.to_owned(),
                    output_path: bin_file_name(project, name),
                    width: w as u32,
                    height: h as u32,
                    fps,
                    use_gpu,
                };
                let ghost added = job@;
                jobs.push(job);
                assert(jobs_view(jobs@) =~= before.push(added));
            },
            None => {},
        }
        i = i + 1;
    }
    jobs
}

/// A frame as read: its number and its pixels.
pub struct RawFrame {
    pub id: u64,
    pub data: Vec<u8>,
}

/// The bytes of one frame, where that number fits the machine.
pub fn frame_size(width: u32, height: u32) -> (size: Option<usize>)
    ensures
        size == if width * height <= usize::MAX {
            Some((width * height) as usize)
        } else {
            None::<usize>
        },
{
    assert(width * height <= 0xffff_ffff * 0xffff_ffff) by (nonlinear_arith)
        requires
            0 <= width <= 0xffff_ffff,
            0 <= height <= 0xffff_ffff,
    ;
    let total: u64 = (width as u64) * (height as u64);
    if total <= usize::MAX as u64 {
        Some(total as usize)
    } else {
        None
    }
}

/// Whether progress is due: on every thirtieth frame, and whenever the last
/// report is more than a tenth of a second old.
pub fn should_report(frames_written: u64, millis_since_report: u128) -> (due: bool)
    ensures
        due == (frames_written % 30 == 0 || millis_since_report > 100),
{
    frames_written % REPORT_EVERY == 0 || millis_since_report > REPORT_AFTER_MS
}

/// The reading stage's counter: frames are numbered 0, 1, 2, ... in the order
/// in which they are read.
pub struct FrameReader {
    next_id: u64,
    frame_size: usize,
}

impl FrameReader {
    /// The number that the next frame gets.
    pub closed spec fn next_id(&self) -> u64 {
        self.next_id
    }

    /// The bytes that make a whole frame.
    pub closed spec fn frame_len(&self) -> usize {
        self.frame_size
    }

    /// A reader that has read nothing yet.
    pub fn new(frame_size: usize) -> (r: FrameReader)
        ensures
            r.next_id() == 0,
            r.frame_len() == frame_size,
    {
        FrameReader { next_id: 0, frame_size }
    }

    /// The number that the next frame gets.
    pub fn frames_read(&self) -> (n: u64)
        ensures
            n == self.next_id(),
    {
        self.next_id
    }

    /// Whether a read that filled `filled` bytes of `buffer` gave a whole
    /// frame that can still be numbered.
    pub open spec fn takes(&self, buffer: Seq<u8>, filled: usize) -> bool {
        &&& filled == self.frame_len()
        &&& buffer.len() == self.frame_len()
        &&& self.next_id() < u64::MAX
    }

    /// Decides what becomes of a read. A whole frame gets the next number
    /// and goes on to extraction. Anything less ends the input: the buffer is
    /// dropped and the reader stays as it was.
    pub fn submit(&mut self, buffer: Vec<u8>, filled: usize) -> (r: Option<RawFrame>)
        ensures
            r.is_some() == old(self).takes(buffer@, filled),
            final(self).frame_len() == old(self).frame_len(),
            r.is_some() ==> {
                &&& r.unwrap().id == old(self).next_id()
                &&& r.unwrap().data@ == buffer@
                &&& final(self).next_id() == old(self).next_id() + 1
            },
            r.is_none() ==> final(self).next_id() == old(self).next_id(),
    {
        if filled != self.frame_size || buffer.len() != self.frame_size || self.next_id
            == u64::MAX {
            return None;
        }
        let id = self.next_id;
        self.next_id = self.next_id + 1;
        Some(RawFrame { id, data: buffer })
    }
}

/// Whether a buffer of `data_len` bytes is a frame of the given sides that
/// the extractor takes: one byte per pixel, and sides that fit a rectangle's
/// 16-bit fields.
pub fn frame_fits(data_len: usize, width: u32, height: u32) -> (ok: bool)
    ensures
        ok == (width <= u16::MAX && height <= u16::MAX && data_len == width * height),
{
    if width > 0xffff || height > 0xffff {
        return false;
    }
    assert(width * height <= 0xffff * 0xffff) by (nonlinear_arith)
        requires
            0 <= width <= 0xffff,
            0 <= height <= 0xffff,
    ;
    let total: u64 = (width as u64) * (height as u64);
    data_len as u64 == total
}

/// A scratch array of `width` entries, none of which names a rectangle.
pub fn new_scratch(width: u32) -> (scratch: Vec<isize>)
    ensures
        scratch@.len() == width,
        forall|i: int| 0 <= i < scratch@.len() ==> scratch@[i] == -1,
{
    let mut scratch: Vec<isize> = Vec::new();
    let mut i: u32 = 0;
    while i < width
        invariant
            i <= width,
            scratch@.len() == i,
            forall|k: int| 0 <= k < scratch@.len() ==> scratch@[k] == -1,
        decreases width - i,
    {
        scratch.push(-1);
        i = i + 1;
    }
    scratch
}

/// The extracting stage's work on one frame. `scratch` belongs to the worker
/// and is kept from frame to frame; it is made anew when its length is not
/// the frame's width. The frame keeps its number, and its pixel buffer comes
/// back for recycling.
pub fn process_frame(
    raw: RawFrame,
    width: u32,
    height: u32,
    threshold: u8,
    scratch: &mut Vec<isize>,
) -> (done: ProcessedFrame)
    requires
        width <= u16::MAX,
        height <= u16::MAX,
        raw.data@.len() == width * height,
    ensures
        done.id == raw.id,
        done.recycled_buffer@ == raw.data@,
        is_extraction(frame_of(raw.data@, width, height, threshold), done.rects@),
        final(scratch)@.len() == width,
{
    if scratch.len() != width as usize {
        *scratch = new_scratch(width);
    }
    let rects = extract_rects_optimized(raw.data.as_slice(), width, height, threshold, scratch);
    ProcessedFrame { id: raw.id, rects, recycled_buffer: raw.data }
}

/// What a conversion produces, stage by stage: the rectangles of each frame,
/// and the stream that holds them.
pub struct Conversion {
    pub frames: Vec<Vec<PixelRect>>,
    pub stream: Vec<u8>,
}

/// Every buffer is a frame of the given sides.
pub open spec fn all_fit(frames: Seq<Vec<u8>>, width: u32, height: u32) -> bool {
    forall|i: int| 0 <= i < frames.len() ==> (#[trigger] frames[i])@.len() == width * height
}

/// Converts a sequence of frames in one go, without threads: the stream is
/// the frame rate followed by the rectangles of each frame in the order of the
/// frames, each frame closed by the marker. This is what the stages of the
/// pipeline produce together, whatever the order in which the workers finish.
pub fn convert_frames(frames: &Vec<Vec<u8>>, width: u32, height: u32, fps: u16, threshold: u8) -> (done:
    Conversion)
    requires
        width <= u16::MAX,
        height <= u16::MAX,
        all_fit(frames@, width, height),
    ensures
        done.frames@.len() == frames@.len(),
        forall|i: int|
            0 <= i < frames@.len() ==> is_extraction(
                frame_of(frames@[i]@, width, height, threshold),
                #[trigger] done.frames@[i]@,
            ),
        done.stream@ == stream_bytes(fps, frames_view(done.frames@)),
{
    let mut stream: Vec<u8> = Vec::new();
    encode_header(fps, &mut stream);
    let mut lists: Vec<Vec<PixelRect>> = Vec::new();
    let mut scratch = new_scratch(width);
    assert(frames_view(lists@) =~= Seq::<Seq<PixelRect>>::empty());
    let mut i: usize = 0;
    while i < frames.len()
        invariant
            width <= u16::MAX,
            height <= u16::MAX,
            all_fit(frames@, width, height),
            i <= frames.len(),
            scratch@.len() == width,
            lists@.len() == i,
            forall|k: int|
                0 <= k < i ==> is_extraction(
                    frame_of(frames@[k]@, width, height, threshold),
                    #[trigger] lists@[k]@,
                ),
            stream@ == u16_le(fps) + frames_bytes(frames_view(lists@)),
        decreases frames.len() - i,
    {
        let rects = extract_rects_optimized(
            frames[i].as_slice(),
            width,
            height,
            threshold,
            &mut scratch,
        );
        encode_frame(&rects, &mut stream);
        let ghost before = frames_view(lists@);
        let ghost found = rects@;
        lists.push(rects);
        proof {
            let after = frames_view(lists@);
            assert(after.drop_last() =~= before);
            assert(after.last() == found);
            assert(stream@ =~= u16_le(fps) + frames_bytes(after));
        }
        i = i + 1;
    }
    Conversion { frames: lists, stream }
}

/// A bounded stock of pixel buffers, each the size of one frame. Buffers that
/// the writer is done with come back here, so that a long conversion does not
/// allocate one buffer per frame.
pub struct BufferPool {
    buffers: Vec<Vec<u8>>,
    bound: usize,
    frame_size: usize,
}

/// `len` bytes, all zero.
pub open spec fn zeroed(len: nat) -> Seq<u8> {
    Seq::new(len, |i: int| 0u8)
}

impl BufferPool {
    /// The pool holds no more buffers than its bound, and each has the size
    /// of one frame.
    pub closed spec fn wf(&self) -> bool {
        &&& self.buffers@.len() <= self.bound
        &&& forall|i: int|
            0 <= i < self.buffers@.len() ==> (#[trigger] self.buffers@[i])@.len() == self.frame_size
    }

    /// The buffers in stock; the last one is handed out first.
    pub closed spec fn stock(&self) -> Seq<Seq<u8>> {
        Seq::new(self.buffers@.len(), |i: int| self.buffers@[i]@)
    }

    /// How many buffers are in stock.
    pub open spec fn available(&self) -> nat {
        self.stock().len()
    }

    /// The most buffers that the pool keeps.
    pub closed spec fn bound(&self) -> usize {
        self.bound
    }

    /// The bytes of each buffer.
    pub closed spec fn frame_len(&self) -> usize {
        self.frame_size
    }

    /// A pool filled to its bound with zeroed buffers.
    pub fn new(bound: usize, frame_size: usize) -> (pool: BufferPool)
        ensures
            pool.wf(),
            pool.bound() == bound,
            pool.frame_len() == frame_size,
            pool.stock() == Seq::new(bound as nat, |i: int| zeroed(frame_size as nat)),
    {
        let mut buffers: Vec<Vec<u8>> = Vec::new();
        let mut i: usize = 0;
        while i < bound
            invariant
                i <= bound,
                buffers@.len() == i,
                forall|k: int| 0 <= k < buffers@.len() ==> (#[trigger] buffers@[k])@ == zeroed(
                    frame_size as nat,
                ),
            decreases bound - i,
        {
            buffers.push(fresh_buffer(frame_size));
            i = i + 1;
        }
        let pool = BufferPool { buffers, bound, frame_size };
        assert(pool.stock() =~= Seq::new(bound as nat, |i: int| zeroed(frame_size as nat)));
        pool
    }

    /// How many buffers are in stock.
    pub fn len(&self) -> (n: usize)
        ensures
            n == self.available(),
    {
        self.buffers.len()
    }

    /// Hands out a buffer of one frame's size: the last one of the stock, as
    /// it was given back, where there is one, else a zeroed one.
    pub fn acquire(&mut self) -> (buffer: Vec<u8>)
        requires
            old(self).wf(),
        ensures
            final(self).wf(),
            buffer@.len() == old(self).frame_len(),
            final(self).bound() == old(self).bound(),
            final(self).frame_len() == old(self).frame_len(),
            old(self).available() > 0 ==> buffer@ == old(self).stock().last() && final(self).stock()
                == old(self).stock().drop_last(),
            old(self).available() == 0 ==> buffer@ == zeroed(old(self).frame_len() as nat)
                && final(self).stock() == old(self).stock(),
    {
        let ghost before = self.stock();
        match self.buffers.pop() {
            Some(buffer) => {
                assert(self.stock() =~= before.drop_last());
                buffer
            },
            None => {
                assert(self.stock() =~= before);
                fresh_buffer(self.frame_size)
            },
        }
    }

    /// Takes a buffer back. It is kept when it has one frame's size and the
    /// pool is below its bound, and dropped otherwise.
    pub fn release(&mut self, buffer: Vec<u8>) -> (kept: bool)
        requires
            old(self).wf(),
        ensures
            final(self).wf(),
            final(self).bound() == old(self).bound(),
            final(self).frame_len() == old(self).frame_len(),
            kept == (buffer@.len() == old(self).frame_len() && old(self).available() < old(
                self,
            ).bound()),
            final(self).stock() == if kept {
                old(self).stock().push(buffer@)
            } else {
                old(self).stock()
            },
    {
        let ghost before = self.stock();
        if buffer.len() == self.frame_size && self.buffers.len() < self.bound {
            self.buffers.push(buffer);
            assert(self.stock() =~= before.push(buffer@));
            true
        } else {
            false
        }
    }
}

/// A zeroed buffer of `frame_size` bytes.
pub fn fresh_buffer(frame_size: usize) -> (buffer: Vec<u8>)
    ensures
        buffer@ == zeroed(frame_size as nat),
{
    let mut buffer: Vec<u8> = Vec::new();
    let mut i: usize = 0;
    while i < frame_size
        invariant
            i <= frame_size,
            buffer@.len() == i,
            forall|k: int| 0 <= k < buffer@.len() ==> buffer@[k] == 0,
        decreases frame_size - i,
    {
        buffer.push(0);
        i = i + 1;
    }
    assert(buffer@ =~= zeroed(frame_size as nat));
    buffer
}

} // verus!
