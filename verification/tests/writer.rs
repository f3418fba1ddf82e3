use pixel_shell::codec::{decode_stream, encode_header};
use pixel_shell::rect::PixelRect;
use pixel_shell::writer::{FrameWriter, ProcessedFrame};

fn frame(id: u64, tag: u16) -> ProcessedFrame {
    ProcessedFrame {
        id,
        rects: vec![PixelRect { x: tag, y: tag, w: 1, h: 1 }],
        recycled_buffer: vec![tag as u8; 3],
    }
}

fn tags(stream: &[u8]) -> Vec<u16> {
    let mut bytes = Vec::new();
    encode_header(1, &mut bytes);
    bytes.extend_from_slice(stream);
    decode_stream(&bytes).unwrap().frames.iter().map(|f| f[0].x).collect()
}

#[test]
fn new_writer_has_written_nothing() {
    let w = FrameWriter::new();
    assert_eq!(w.frames_written(), 0);
    assert_eq!(w.pending_frames(), 0);
}

#[test]
fn frames_in_order_are_written_at_once() {
    let mut w = FrameWriter::new();
    let mut out = Vec::new();
    for id in 0..4u64 {
        w.accept(frame(id, id as u16 + 100), &mut out);
        assert_eq!(w.frames_written(), id + 1);
        assert_eq!(w.pending_frames(), 0);
    }
    assert_eq!(tags(&out), vec![100, 101, 102, 103]);
}

#[test]
fn early_frame_waits_for_its_turn() {
    let mut w = FrameWriter::new();
    let mut out = Vec::new();
    w.accept(frame(2, 12), &mut out);
    assert!(out.is_empty());
    assert_eq!(w.frames_written(), 0);
    assert_eq!(w.pending_frames(), 1);
    w.accept(frame(1, 11), &mut out);
    assert!(out.is_empty());
    assert_eq!(w.pending_frames(), 2);
    w.accept(frame(0, 10), &mut out);
    assert_eq!(w.frames_written(), 3);
    assert_eq!(w.pending_frames(), 0);
    assert_eq!(tags(&out), vec![10, 11, 12]);
}

#[test]
fn any_arrival_order_gives_the_same_stream() {
    let orders: [[u64; 5]; 4] = [[0, 1, 2, 3, 4], [4, 3, 2, 1, 0], [2, 0, 4, 1, 3], [1, 0, 3, 2, 4]];
    let mut streams = Vec::new();
    for order in orders.iter() {
        let mut w = FrameWriter::new();
        let mut out = Vec::new();
        for id in order.iter() {
            w.accept(frame(*id, *id as u16 * 3), &mut out);
        }
        assert_eq!(w.frames_written(), 5);
        assert_eq!(w.pending_frames(), 0);
        assert_eq!(tags(&out), vec![0, 3, 6, 9, 12]);
        streams.push(out);
    }
    assert_eq!(streams[0], streams[1]);
    assert_eq!(streams[0], streams[2]);
    assert_eq!(streams[0], streams[3]);
}

#[test]
fn buffer_comes_back_at_once() {
    let mut w = FrameWriter::new();
    let mut out = Vec::new();
    let back = w.accept(frame(7, 42), &mut out);
    assert_eq!(back, vec![42u8; 3]);
    assert!(out.is_empty());
}

#[test]
fn output_is_appended_to_what_is_there() {
    let mut w = FrameWriter::new();
    let mut out = vec![30u8, 0];
    w.accept(frame(0, 5), &mut out);
    assert_eq!(out.len(), 2 + 16);
    let stream = decode_stream(&out).unwrap();
    assert_eq!(stream.fps, 30);
    assert_eq!(stream.frames, vec![vec![PixelRect { x: 5, y: 5, w: 1, h: 1 }]]);
}

#[test]
fn gap_holds_back_later_frames() {
    let mut w = FrameWriter::new();
    let mut out = Vec::new();
    w.accept(frame(0, 1), &mut out);
    w.accept(frame(2, 3), &mut out);
    w.accept(frame(3, 4), &mut out);
    assert_eq!(w.frames_written(), 1);
    assert_eq!(w.pending_frames(), 2);
    assert_eq!(tags(&out), vec![1]);
}

#[test]
fn late_duplicate_is_never_written() {
    let mut w = FrameWriter::new();
    let mut out = Vec::new();
    w.accept(frame(0, 1), &mut out);
    w.accept(frame(0, 9), &mut out);
    w.accept(frame(1, 2), &mut out);
    assert_eq!(tags(&out), vec![1, 2]);
    assert_eq!(w.frames_written(), 2);
    assert_eq!(w.pending_frames(), 1);
}
