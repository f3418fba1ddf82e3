//! The rectangle stream: a 16-bit frame rate, then for every frame its
//! rectangles as 8-byte records followed by one marker record.
//!
//! All fields are little-endian. No frame count is stored: a reader takes
//! frames until the bytes run out, and drops records that no marker closes.

use crate::file_header::{DATA_START, FPS_SIZE};
use crate::le::{le_u16, lemma_u16_round_trip, push_u16, read_u16, u16_le};
use crate::rect::PixelRect;
use vstd::prelude::*;
use vstd::slice::slice_subrange;

verus! {

/// Bytes taken by one rectangle record.
pub const RECORD_SIZE: usize = 8;

/// The eight bytes of one record: `x`, `y`, `w`, `h`.
pub open spec fn rect_bytes(r: PixelRect) -> Seq<u8> {
    u16_le(r.x) + u16_le(r.y) + u16_le(r.w) + u16_le(r.h)
}

/// The records of `rects`, one after the other.
pub open spec fn rects_bytes(rects: Seq<PixelRect>) -> Seq<u8>
    decreases rects.len(),
{
    if rects.len() == 0 {
        Seq::empty()
    } else {
        rects_bytes(rects.drop_last()) + rect_bytes(rects.last())
    }
}

/// One frame in the stream: its records, then the marker.
pub open spec fn frame_bytes(rects: Seq<PixelRect>) -> Seq<u8> {
    rects_bytes(rects) + rect_bytes(PixelRect::marker())
}

/// The frames of a stream, one after the other.
pub open spec fn frames_bytes(frames: Seq<Seq<PixelRect>>) -> Seq<u8>
    decreases frames.len(),
{
    if frames.len() == 0 {
        Seq::empty()
    } else {
        frames_bytes(frames.drop_last()) + frame_bytes(frames.last())
    }
}

/// A whole stream: the frame rate, then the frames.
pub open spec fn stream_bytes(fps: u16, frames: Seq<Seq<PixelRect>>) -> Seq<u8> {
    u16_le(fps) + frames_bytes(frames)
}

/// The 16-bit number stored at `pos`.
pub open spec fn u16_at(bytes: Seq<u8>, pos: int) -> u16 {
    le_u16(bytes.subrange(pos, bytes.len() as int)) as u16
}

/// The record stored at `pos`.
pub open spec fn record_at(bytes: Seq<u8>, pos: int) -> PixelRect {
    PixelRect {
        x: u16_at(bytes, pos),
        y: u16_at(bytes, pos + 2),
        w: u16_at(bytes, pos + 4),
        h: u16_at(bytes, pos + 6),
    }
}

/// Where the first marker at or after `pos` stands, stepping record by
/// record; `None` when the bytes end before one is found.
pub open spec fn marker_from(bytes: Seq<u8>, pos: int) -> Option<int>
    decreases bytes.len() - pos,
{
    if pos < 0 || pos + 8 > bytes.len() {
        None
    } else if record_at(bytes, pos).is_marker() {
        Some(pos)
    } else {
        marker_from(bytes, pos + 8)
    }
}

/// The records that stand from `pos` up to `end`.
pub open spec fn records_between(bytes: Seq<u8>, pos: int, end: int) -> Seq<PixelRect> {
    Seq::new(((end - pos) / 8) as nat, |i: int| record_at(bytes, pos + 8 * i))
}

/// The complete frames that stand from `pos` on. Records after the last
/// marker belong to no frame.
pub open spec fn frames_from(bytes: Seq<u8>, pos: int) -> Seq<Seq<PixelRect>>
    decreases bytes.len() - pos,
{
    match marker_from(bytes, pos) {
        None => Seq::empty(),
        Some(end) => if pos <= end && end + 8 <= bytes.len() {
            seq![records_between(bytes, pos, end)] + frames_from(bytes, end + 8)
        } else {
            Seq::empty()
        },
    }
}

/// The rectangle lists held by a vector of frames.
pub open spec fn frames_view(frames: Seq<Vec<PixelRect>>) -> Seq<Seq<PixelRect>> {
    Seq::new(frames.len(), |i: int| frames[i]@)
}

/// Where the last complete frame from `pos` on ends: just after its marker,
/// or at `pos` when no frame is complete.
pub open spec fn frames_end(bytes: Seq<u8>, pos: int) -> int
    decreases bytes.len() - pos,
{
    match marker_from(bytes, pos) {
        None => pos,
        Some(end) => if pos <= end && end + 8 <= bytes.len() {
            frames_end(bytes, end + 8)
        } else {
            pos
        },
    }
}

/// A decoded stream: the frame rate, the complete frames, and the number of
/// bytes after the last complete frame. A stream that was cut off inside a
/// frame has a `trailing` other than 0.
#[derive(Debug)]
pub struct CodecStream {
    pub fps: u16,
    pub frames: Vec<Vec<PixelRect>>,
    pub trailing: usize,
}

/// The first marker found from `pos` stands at or after `pos`, on a record
/// boundary, and no record before it is a marker.
pub proof fn lemma_marker_from(bytes: Seq<u8>, pos: int)
    requires
        0 <= pos,
    ensures
        match marker_from(bytes, pos) {
            None => true,
            Some(end) => {
                &&& pos <= end
                &&& end + 8 <= bytes.len()
                &&& (end - pos) % 8 == 0
                &&& record_at(bytes, end).is_marker()
                &&& forall|i: int|
                    0 <= i < (end - pos) / 8 ==> !(#[trigger] record_at(
                        bytes,
                        pos + 8 * i,
                    )).is_marker()
            },
        },
    decreases bytes.len() - pos,
{
    if pos + 8 > bytes.len() {
    } else if record_at(bytes, pos).is_marker() {
    } else {
        lemma_marker_from(bytes, pos + 8);
        match marker_from(bytes, pos + 8) {
            None => {},
            Some(end) => {
                assert forall|i: int| 0 <= i < (end - pos) / 8 implies !(#[trigger] record_at(
                    bytes,
                    pos + 8 * i,
                )).is_marker() by {
                    if i > 0 {
                        assert(pos + 8 * i == (pos + 8) + 8 * (i - 1));
                        assert(!record_at(bytes, (pos + 8) + 8 * (i - 1)).is_marker());
                    }
                }
            },
        }
    }
}

/// Appends the frame rate that opens a stream.
pub fn encode_header(fps: u16, out: &mut Vec<u8>)
    ensures
        final(out)@ == old(out)@ + u16_le(fps),
{
    push_u16(out, fps);
}

/// Appends one record.
pub fn encode_rect(rect: &PixelRect, out: &mut Vec<u8>)
    ensures
        final(out)@ == old(out)@ + rect_bytes(*rect),
{
    let ghost before = out@;
    push_u16(out, rect.x);
    push_u16(out, rect.y);
    push_u16(out, rect.w);
    push_u16(out, rect.h);
    assert(out@ =~= before + rect_bytes(*rect));
}

/// Appends one frame: every rectangle of `rects` in order, then the marker.
pub fn encode_frame(rects: &Vec<PixelRect>, out: &mut Vec<u8>)
    ensures
        final(out)@ == old(out)@ + frame_bytes(rects@),
{
    let ghost before = out@;
    let mut i: usize = 0;
    while i < rects.len()
        invariant
            i <= rects.len(),
            out@ == before + rects_bytes(rects@.subrange(0, i as int)),
        decreases rects.len() - i,
    {
        encode_rect(&rects[i], out);
        proof {
            let next = rects@.subrange(0, i as int + 1);
            assert(next.drop_last() =~= rects@.subrange(0, i as int));
            assert(next.last() == rects@[i as int]);
            assert(out@ =~= before + rects_bytes(next));
        }
        i = i + 1;
    }
    assert(rects@.subrange(0, i as int) =~= rects@);
    let marker = PixelRect::eos_marker();
    encode_rect(&marker, out);
    assert(out@ =~= before + frame_bytes(rects@));
}

/// Reads the record stored at `pos`, when eight bytes stand there.
pub fn decode_rect(bytes: &[u8], pos: usize) -> (r: Option<PixelRect>)
    ensures
        r == if pos + 8 <= bytes@.len() {
            Some(record_at(bytes@, pos as int))
        } else {
            None::<PixelRect>
        },
{
    let len = bytes.len();
    if len < RECORD_SIZE || pos > len - RECORD_SIZE {
        return None;
    }
    let x = read_u16(slice_subrange(bytes, pos, len));
    let y = read_u16(slice_subrange(bytes, pos + 2, len));
    let w = read_u16(slice_subrange(bytes, pos + 4, len));
    let h = read_u16(slice_subrange(bytes, pos + 6, len));
    Some(PixelRect { x, y, w, h })
}

/// Reads the frame rate that opens a stream, when two bytes stand there.
pub fn decode_header(bytes: &[u8]) -> (r: Option<u16>)
    ensures
        r == if bytes@.len() >= 2 {
            Some(u16_at(bytes@, 0))
        } else {
            None::<u16>
        },
{
    if bytes.len() < FPS_SIZE {
        return None;
    }
    assert(bytes@.subrange(0, bytes@.len() as int) =~= bytes@);
    Some(read_u16(bytes))
}

/// Reads the frame that starts at `pos`: its rectangles, and the position
/// just after its marker. `None` when the bytes end before a marker is found;
/// the records read up to there are dropped.
pub fn read_frame(bytes: &[u8], pos: usize) -> (r: Option<(Vec<PixelRect>, usize)>)
    ensures
        match marker_from(bytes@, pos as int) {
            None => r.is_none(),
            Some(end) => {
                &&& r.is_some()
                &&& r.unwrap().0@ == records_between(bytes@, pos as int, end)
                &&& r.unwrap().1 == end + 8
            },
        },
{
    let len = bytes.len();
    let mut rects: Vec<PixelRect> = Vec::new();
    let mut at: usize = pos;
    loop
        invariant
            len == bytes@.len(),
            pos <= at,
            (at - pos) % 8 == 0,
            rects@ == records_between(bytes@, pos as int, at as int),
            marker_from(bytes@, pos as int) == marker_from(bytes@, at as int),
        decreases bytes@.len() - at,
    {
        match decode_rect(bytes, at) {
            None => {
                return None;
            },
            Some(rect) => {
                if rect.is_frame_end() {
                    return Some((rects, at + 8));
                }
                rects.push(rect);
                proof {
                    let next = records_between(bytes@, pos as int, at as int + 8);
                    assert((at + 8 - pos) / 8 == (at - pos) / 8 + 1);
                    assert(pos + 8 * ((at - pos) / 8) == at);
                    assert(rects@ =~= next);
                }
                at = at + 8;
            },
        }
    }
}

/// Decodes a stream: the frame rate and every complete frame. `None` when the
/// bytes are too few to hold a frame rate. Records that no marker closes are
/// dropped and counted in `trailing`.
pub fn decode_stream(bytes: &[u8]) -> (r: Option<CodecStream>)
    ensures
        r.is_some() == (bytes@.len() >= 2),
        r.is_some() ==> {
            &&& r.unwrap().fps == u16_at(bytes@, 0)
            &&& frames_view(r.unwrap().frames@) == frames_from(bytes@, 2)
            &&& r.unwrap().trailing == bytes@.len() - frames_end(bytes@, 2)
        },
{
    let fps = match decode_header(bytes) {
        None => {
            return None;
        },
        Some(fps) => fps,
    };
    let len = bytes.len();
    let mut frames: Vec<Vec<PixelRect>> = Vec::new();
    let mut at: usize = DATA_START;
    loop
        invariant
            len == bytes@.len(),
            fps == u16_at(bytes@, 0),
            2 <= at <= len,
            frames_from(bytes@, 2) == frames_view(frames@) + frames_from(bytes@, at as int),
            frames_end(bytes@, 2) == frames_end(bytes@, at as int),
        decreases len - at,
    {
        proof {
            lemma_marker_from(bytes@, at as int);
        }
        match read_frame(bytes, at) {
            None => {
                assert(frames_from(bytes@, at as int) =~= Seq::empty());
                assert(frames_view(frames@) + frames_from(bytes@, at as int) =~= frames_view(
                    frames@,
                ));
                return Some(CodecStream { fps, frames, trailing: len - at });
            },
            Some((rects, next)) => {
                let ghost before = frames_view(frames@);
                let ghost found = rects@;
                frames.push(rects);
                proof {
                    assert(frames_view(frames@) =~= before + seq![found]);
                    assert(frames_from(bytes@, at as int) == seq![found] + frames_from(
                        bytes@,
                        next as int,
                    ));
                    assert(before + (seq![found] + frames_from(bytes@, next as int)) =~= (before
                        + seq![found]) + frames_from(bytes@, next as int));
                }
                at = next;
            },
        }
    }
}

/// Encodes a whole stream: the frame rate, then every frame as its records
/// and the marker.
pub fn encode_stream(fps: u16, frames: &Vec<Vec<PixelRect>>) -> (bytes: Vec<u8>)
    ensures
        bytes@ == stream_bytes(fps, frames_view(frames@)),
{
    let mut out: Vec<u8> = Vec::new();
    encode_header(fps, &mut out);
    let mut i: usize = 0;
    assert(frames_view(frames@).subrange(0, 0) =~= Seq::<Seq<PixelRect>>::empty());
    while i < frames.len()
        invariant
            i <= frames.len(),
            out@ == u16_le(fps) + frames_bytes(frames_view(frames@).subrange(0, i as int)),
        decreases frames.len() - i,
    {
        encode_frame(&frames[i], &mut out);
        proof {
            let next = frames_view(frames@).subrange(0, i as int + 1);
            assert(next.drop_last() =~= frames_view(frames@).subrange(0, i as int));
            assert(next.last() == frames@[i as int]@);
            assert(out@ =~= u16_le(fps) + frames_bytes(next));
        }
        i = i + 1;
    }
    assert(frames_view(frames@).subrange(0, i as int) =~= frames_view(frames@));
    out
}

/// No rectangle of the frame is the marker.
pub open spec fn marker_free(rects: Seq<PixelRect>) -> bool {
    forall|i: int| 0 <= i < rects.len() ==> !(#[trigger] rects[i]).is_marker()
}

/// No rectangle of the frames is the marker.
pub open spec fn no_markers(frames: Seq<Seq<PixelRect>>) -> bool {
    forall|f: int| 0 <= f < frames.len() ==> marker_free(#[trigger] frames[f])
}

/// A record is read back from where it was written, whatever stands around
/// it.
proof fn lemma_record_at(a: Seq<u8>, q: PixelRect, b: Seq<u8>)
    ensures
        rect_bytes(q).len() == 8,
        record_at(a + rect_bytes(q) + b, a.len() as int) == q,
{
    let all = a + rect_bytes(q) + b;
    let p = a.len() as int;
    let end = all.len() as int;
    let r = rect_bytes(q);
    assert(r.len() == 8);
    assert(r[0] == (q.x % 256) as u8 && r[1] == (q.x / 256) as u8);
    assert(r[2] == (q.y % 256) as u8 && r[3] == (q.y / 256) as u8);
    assert(r[4] == (q.w % 256) as u8 && r[5] == (q.w / 256) as u8);
    assert(r[6] == (q.h % 256) as u8 && r[7] == (q.h / 256) as u8);
    assert forall|k: int| 0 <= k < 8 implies all[p + k] == r[k] by {}
    assert(all.subrange(p, end)[0] == all[p + 0] && all.subrange(p, end)[1] == all[p + 1]);
    assert(all.subrange(p + 2, end)[0] == all[p + 2] && all.subrange(p + 2, end)[1] == all[p + 3]);
    assert(all.subrange(p + 4, end)[0] == all[p + 4] && all.subrange(p + 4, end)[1] == all[p + 5]);
    assert(all.subrange(p + 6, end)[0] == all[p + 6] && all.subrange(p + 6, end)[1] == all[p + 7]);
}

/// Each record of a list is read back from its place, whatever stands around
/// the list.
proof fn lemma_records_at(a: Seq<u8>, rects: Seq<PixelRect>, b: Seq<u8>)
    ensures
        rects_bytes(rects).len() == 8 * rects.len(),
        forall|i: int|
            0 <= i < rects.len() ==> #[trigger] record_at(
                a + rects_bytes(rects) + b,
                a.len() + 8 * i,
            ) == rects[i],
    decreases rects.len(),
{
    if rects.len() > 0 {
        let init = rects.drop_last();
        let last = rects.last();
        let all = a + rects_bytes(rects) + b;
        lemma_records_at(a, init, rect_bytes(last) + b);
        lemma_record_at(a + rects_bytes(init), last, b);
        assert(all =~= a + rects_bytes(init) + (rect_bytes(last) + b));
        assert(all =~= (a + rects_bytes(init)) + rect_bytes(last) + b);
        assert forall|i: int| 0 <= i < rects.len() implies #[trigger] record_at(
            all,
            a.len() + 8 * i,
        ) == rects[i] by {
            if i < init.len() {
                assert(record_at(a + rects_bytes(init) + (rect_bytes(last) + b), a.len() + 8 * i)
                    == init[i]);
            } else {
                assert(a.len() + 8 * i == (a + rects_bytes(init)).len());
            }
        }
    }
}

/// A frame without markers among its rectangles is found again where it was
/// written: its marker is the first one met, and the records before it are
/// the frame's rectangles.
proof fn lemma_frame_at(a: Seq<u8>, rects: Seq<PixelRect>, b: Seq<u8>)
    requires
        marker_free(rects),
    ensures
        frame_bytes(rects).len() == 8 * rects.len() + 8,
        marker_from(a + frame_bytes(rects) + b, a.len() as int) == Some(
            (a.len() + 8 * rects.len()) as int,
        ),
        records_between(
            a + frame_bytes(rects) + b,
            a.len() as int,
            (a.len() + 8 * rects.len()) as int,
        ) == rects,
{
    let all = a + frame_bytes(rects) + b;
    let m = PixelRect::marker();
    let stop: int = (a.len() + 8 * rects.len()) as int;
    lemma_records_at(a, rects, rect_bytes(m) + b);
    lemma_record_at(a + rects_bytes(rects), m, b);
    assert(all =~= a + rects_bytes(rects) + (rect_bytes(m) + b));
    assert(all =~= (a + rects_bytes(rects)) + rect_bytes(m) + b);
    assert(record_at(all, stop) == m);
    lemma_scan_to_marker(all, a.len() as int, rects, 0);
    assert(a.len() + 8 * 0 == a.len());
    assert(records_between(all, a.len() as int, stop) =~= rects) by {
        assert((stop - a.len()) / 8 == rects.len());
        assert forall|i: int| 0 <= i < rects.len() implies records_between(
            all,
            a.len() as int,
            stop,
        )[i] == rects[i] by {
            assert(record_at(a + rects_bytes(rects) + (rect_bytes(m) + b), a.len() + 8 * i)
                == rects[i]);
        }
    }
}

/// Scanning from the `from`-th record of a frame goes on to the frame's
/// marker.
proof fn lemma_scan_to_marker(all: Seq<u8>, base: int, rects: Seq<PixelRect>, from: int)
    requires
        0 <= base,
        0 <= from <= rects.len(),
        base + 8 * rects.len() + 8 <= all.len(),
        forall|i: int| 0 <= i < rects.len() ==> !(#[trigger] rects[i]).is_marker(),
        forall|i: int| 0 <= i < rects.len() ==> #[trigger] record_at(all, base + 8 * i) == rects[i],
        record_at(all, base + 8 * rects.len()).is_marker(),
    ensures
        marker_from(all, base + 8 * from) == Some(base + 8 * rects.len()),
    decreases rects.len() - from,
{
    if from < rects.len() {
        assert(record_at(all, base + 8 * from) == rects[from]);
        assert(!rects[from].is_marker());
        lemma_scan_to_marker(all, base, rects, from + 1);
        assert(base + 8 * (from + 1) == base + 8 * from + 8);
    }
}

/// Where the first marker from `pos` on stands at `stop`, the frames from
/// `pos` on are the records up to `stop` and then the frames after the marker.
proof fn lemma_frames_from_step(all: Seq<u8>, pos: int, stop: int)
    requires
        marker_from(all, pos) == Some(stop),
        pos <= stop,
        stop + 8 <= all.len(),
    ensures
        frames_from(all, pos) == seq![records_between(all, pos, stop)] + frames_from(all, stop + 8),
{
}

/// Frames without markers stay so when the last frame is set apart.
proof fn lemma_no_markers_split(frames: Seq<Seq<PixelRect>>)
    requires
        no_markers(frames),
        frames.len() > 0,
    ensures
        no_markers(frames.drop_last()),
        marker_free(frames.last()),
{
    let init = frames.drop_last();
    assert forall|f: int| 0 <= f < init.len() implies marker_free(#[trigger] init[f]) by {
        assert(marker_free(frames[f]));
    }
    assert(marker_free(frames[frames.len() - 1]));
}

/// One more frame behind frames that are found again is found again too.
proof fn lemma_frames_at_step(
    a: Seq<u8>,
    body: Seq<u8>,
    frame: Seq<u8>,
    b: Seq<u8>,
    init: Seq<Seq<PixelRect>>,
    last: Seq<PixelRect>,
)
    requires
        frame.len() == 8 * last.len() + 8,
        frames_from(a + body + (frame + b), a.len() as int) == init + frames_from(
            a + body + (frame + b),
            (a.len() + body.len()) as int,
        ),
        marker_from((a + body) + frame + b, (a + body).len() as int) == Some(
            ((a + body).len() + 8 * last.len()) as int,
        ),
        records_between(
            (a + body) + frame + b,
            (a + body).len() as int,
            ((a + body).len() + 8 * last.len()) as int,
        ) == last,
    ensures
        frames_from(a + (body + frame) + b, a.len() as int) == init.push(last) + frames_from(
            a + (body + frame) + b,
            (a.len() + (body + frame).len()) as int,
        ),
{
    let all = a + (body + frame) + b;
    assert(a + body + (frame + b) =~= all);
    assert((a + body) + frame + b =~= all);
    let p: int = (a.len() + body.len()) as int;
    let stop: int = p + 8 * last.len();
    let rest = frames_from(all, stop + 8);
    lemma_frames_from_step(all, p, stop);
    assert(init + (seq![last] + rest) =~= init.push(last) + rest);
}

/// The frames written into a stream are found again from where they start,
/// followed by whatever the bytes after them hold.
proof fn lemma_frames_at(a: Seq<u8>, frames: Seq<Seq<PixelRect>>, b: Seq<u8>)
    requires
        no_markers(frames),
    ensures
        frames_from(a + frames_bytes(frames) + b, a.len() as int) == frames + frames_from(
            a + frames_bytes(frames) + b,
            (a.len() + frames_bytes(frames).len()) as int,
        ),
    decreases frames.len(),
{
    if frames.len() == 0 {
        let all = a + frames_bytes(frames) + b;
        assert(frames_bytes(frames).len() == 0);
        assert(frames + frames_from(all, a.len() as int) =~= frames_from(all, a.len() as int));
    } else {
        let init = frames.drop_last();
        let last = frames.last();
        lemma_no_markers_split(frames);
        lemma_frames_at(a, init, frame_bytes(last) + b);
        lemma_frame_at(a + frames_bytes(init), last, b);
        lemma_frames_at_step(a, frames_bytes(init), frame_bytes(last), b, init, last);
        assert(init.push(last) =~= frames);
    }
}

/// Decoding an encoded stream gives back the frame rate and the frames, each
/// with its rectangles in order, provided no rectangle is the marker.
pub proof fn stream_round_trip(fps: u16, frames: Seq<Seq<PixelRect>>)
    requires
        no_markers(frames),
    ensures
        stream_bytes(fps, frames).len() >= 2,
        u16_at(stream_bytes(fps, frames), 0) == fps,
        frames_from(stream_bytes(fps, frames), 2) == frames,
{
    let head = u16_le(fps);
    let all = stream_bytes(fps, frames);
    let none = Seq::<u8>::empty();
    lemma_u16_round_trip(fps, frames_bytes(frames));
    assert(all.subrange(0, all.len() as int) =~= all);
    lemma_frames_at(head, frames, none);
    assert(head + frames_bytes(frames) + none =~= all);
    assert(frames_from(all, all.len() as int) =~= Seq::<Seq<PixelRect>>::empty());
    assert(frames + Seq::<Seq<PixelRect>>::empty() =~= frames);
}

/// Records that no marker closes change nothing: a stream cut off inside a
/// frame decodes to the frames that were complete.
pub proof fn truncated_tail_is_dropped(
    fps: u16,
    frames: Seq<Seq<PixelRect>>,
    open_frame: Seq<PixelRect>,
    rest: Seq<u8>,
)
    requires
        no_markers(frames),
        marker_free(open_frame),
        rest.len() < 8,
    ensures
        frames_from(stream_bytes(fps, frames) + rects_bytes(open_frame) + rest, 2) == frames,
{
    let head = u16_le(fps);
    let tail = rects_bytes(open_frame) + rest;
    let all = stream_bytes(fps, frames) + rects_bytes(open_frame) + rest;
    lemma_frames_at(head, frames, tail);
    assert(head + frames_bytes(frames) + tail =~= all);
    let p: int = (head.len() + frames_bytes(frames).len()) as int;
    lemma_records_at(head + frames_bytes(frames), open_frame, rest);
    assert((head + frames_bytes(frames)) + rects_bytes(open_frame) + rest =~= all);
    lemma_scan_to_end(all, p, open_frame, 0);
    assert(p + 8 * 0 == p);
    assert(frames_from(all, p) =~= Seq::<Seq<PixelRect>>::empty());
    assert(frames + Seq::<Seq<PixelRect>>::empty() =~= frames);
}

/// Scanning records that hold no marker and are followed by less than one
/// record finds no marker.
proof fn lemma_scan_to_end(all: Seq<u8>, base: int, rects: Seq<PixelRect>, from: int)
    requires
        0 <= base,
        0 <= from <= rects.len(),
        base + 8 * rects.len() <= all.len() < base + 8 * rects.len() + 8,
        forall|i: int| 0 <= i < rects.len() ==> !(#[trigger] rects[i]).is_marker(),
        forall|i: int| 0 <= i < rects.len() ==> #[trigger] record_at(all, base + 8 * i) == rects[i],
    ensures
        marker_from(all, base + 8 * from).is_none(),
    decreases rects.len() - from,
{
    if from < rects.len() {
        assert(record_at(all, base + 8 * from) == rects[from]);
        assert(!rects[from].is_marker());
        lemma_scan_to_end(all, base, rects, from + 1);
        assert(base + 8 * (from + 1) == base + 8 * from + 8);
    }
}

} // verus!
