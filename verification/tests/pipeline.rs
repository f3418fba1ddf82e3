use pixel_shell::pipeline::{
    frame_fits, frame_size, fresh_buffer, new_scratch, process_frame, should_report, BufferPool,
    FrameReader, RawFrame, QUEUE_SIZE, THRESHOLD,
};
use pixel_shell::rect::PixelRect;

#[test]
fn constants_of_the_pipeline() {
    assert_eq!(QUEUE_SIZE, 64);
    assert_eq!(THRESHOLD, 127);
}

#[test]
fn frame_size_is_width_times_height() {
    assert_eq!(frame_size(1920, 1080), Some(2_073_600));
    assert_eq!(frame_size(0, 1080), Some(0));
    assert_eq!(frame_size(3, 5), Some(15));
}

#[test]
fn frame_size_of_the_largest_sides() {
    let expected = (u32::MAX as u64) * (u32::MAX as u64);
    if (usize::MAX as u64) >= expected {
        assert_eq!(frame_size(u32::MAX, u32::MAX), Some(expected as usize));
    } else {
        assert_eq!(frame_size(u32::MAX, u32::MAX), None);
    }
}

#[test]
fn progress_is_due_every_thirtieth_frame() {
    assert!(should_report(30, 0));
    assert!(should_report(60, 5));
    assert!(should_report(0, 0));
    assert!(!should_report(31, 0));
    assert!(!should_report(29, 100));
}

#[test]
fn progress_is_due_after_a_tenth_of_a_second() {
    assert!(should_report(7, 101));
    assert!(should_report(1, 5000));
    assert!(!should_report(7, 100));
}

#[test]
fn reader_numbers_frames_from_zero() {
    let mut reader = FrameReader::new(4);
    assert_eq!(reader.frames_read(), 0);
    for expected in 0..5u64 {
        let frame = reader.submit(vec![expected as u8; 4], 4).unwrap();
        assert_eq!(frame.id, expected);
        assert_eq!(frame.data, vec![expected as u8; 4]);
    }
    assert_eq!(reader.frames_read(), 5);
}

#[test]
fn short_read_ends_the_input() {
    let mut reader = FrameReader::new(4);
    assert!(reader.submit(vec![0; 4], 4).is_some());
    assert!(reader.submit(vec![0; 4], 3).is_none());
    assert!(reader.submit(vec![0; 4], 0).is_none());
    assert!(reader.submit(vec![0; 3], 4).is_none());
    assert_eq!(reader.frames_read(), 1);
}

#[test]
fn frame_fits_checks_length_and_sides() {
    assert!(frame_fits(12, 4, 3));
    assert!(!frame_fits(11, 4, 3));
    assert!(frame_fits(0, 0, 9));
    assert!(!frame_fits(65536, 65536, 1));
    assert!(frame_fits(65535, 65535, 1));
    assert!(!frame_fits(65536, 1, 65536));
}

#[test]
fn new_scratch_names_nothing() {
    assert_eq!(new_scratch(3), vec![-1isize, -1, -1]);
    assert!(new_scratch(0).is_empty());
}

#[test]
fn worker_keeps_number_and_buffer() {
    let raw = RawFrame { id: 17, data: vec![200, 200, 10, 200] };
    let mut scratch = Vec::new();
    let done = process_frame(raw, 4, 1, 127, &mut scratch);
    assert_eq!(done.id, 17);
    assert_eq!(done.recycled_buffer, vec![200, 200, 10, 200]);
    assert_eq!(
        done.rects,
        vec![PixelRect { x: 0, y: 0, w: 2, h: 1 }, PixelRect { x: 3, y: 0, w: 1, h: 1 }]
    );
    assert_eq!(scratch.len(), 4);
}

#[test]
fn worker_reuses_its_scratch() {
    let mut scratch = vec![5isize, 5];
    let a = process_frame(RawFrame { id: 0, data: vec![255, 0, 255, 0] }, 2, 2, 127, &mut scratch);
    let b = process_frame(RawFrame { id: 1, data: vec![0, 255, 0, 255] }, 2, 2, 127, &mut scratch);
    assert_eq!(a.rects, vec![PixelRect { x: 0, y: 0, w: 1, h: 2 }]);
    assert_eq!(b.rects, vec![PixelRect { x: 1, y: 0, w: 1, h: 2 }]);
    assert_eq!(scratch.len(), 2);
}

#[test]
fn fresh_buffer_is_zeroed() {
    assert_eq!(fresh_buffer(4), vec![0u8; 4]);
    assert!(fresh_buffer(0).is_empty());
}

#[test]
fn pool_starts_full() {
    let pool = BufferPool::new(64, 10);
    assert_eq!(pool.len(), 64);
}

#[test]
fn pool_hands_out_and_takes_back() {
    let mut pool = BufferPool::new(2, 3);
    let a = pool.acquire();
    let b = pool.acquire();
    assert_eq!(a.len(), 3);
    assert_eq!(b.len(), 3);
    assert_eq!(pool.len(), 0);
    let c = pool.acquire();
    assert_eq!(c, vec![0u8; 3]);
    assert_eq!(pool.len(), 0);
    assert!(pool.release(a));
    assert!(pool.release(b));
    assert_eq!(pool.len(), 2);
    assert!(!pool.release(c));
    assert_eq!(pool.len(), 2);
}

#[test]
fn pool_drops_buffers_of_the_wrong_size() {
    let mut pool = BufferPool::new(2, 3);
    let _ = pool.acquire();
    assert!(!pool.release(vec![0u8; 4]));
    assert_eq!(pool.len(), 1);
    assert!(pool.release(vec![7u8; 3]));
    assert_eq!(pool.acquire(), vec![7u8; 3]);
}

#[test]
fn one_conversion_per_known_resolution() {
    let wanted = vec!["1080p".to_string(), "480p".to_string(), "720p".to_string(), "".to_string()];
    let jobs = pixel_shell::pipeline::plan_conversions("clip", "/v/clip.mkv", &wanted, 24, true);
    assert_eq!(jobs.len(), 2);
    assert_eq!(jobs[0].input_path, "/v/clip.mkv");
    assert_eq!(jobs[0].output_path, "clip_1080p.bin");
    assert_eq!((jobs[0].width, jobs[0].height), (1920, 1080));
    assert_eq!(jobs[0].fps, 24);
    assert!(jobs[0].use_gpu);
    assert_eq!(jobs[1].output_path, "clip_720p.bin");
    assert_eq!((jobs[1].width, jobs[1].height), (1280, 720));
}

#[test]
fn no_conversion_without_resolutions() {
    assert!(pixel_shell::pipeline::plan_conversions("clip", "in", &vec![], 30, false).is_empty());
}

#[test]
fn pool_hands_out_the_buffer_given_back_last() {
    let mut pool = BufferPool::new(3, 2);
    let _ = pool.acquire();
    let _ = pool.acquire();
    assert!(pool.release(vec![1, 1]));
    assert!(pool.release(vec![2, 2]));
    assert_eq!(pool.acquire(), vec![2, 2]);
    assert_eq!(pool.acquire(), vec![1, 1]);
    assert_eq!(pool.acquire(), vec![0, 0]);
    assert_eq!(pool.acquire(), vec![0, 0]);
    assert_eq!(pool.len(), 0);
}

#[test]
fn whole_conversion_in_one_thread() {
    // three 2x2 frames, extracted out of order, give one stream in order
    let frames: Vec<Vec<u8>> = vec![vec![255, 0, 255, 0], vec![0, 0, 0, 0], vec![255, 255, 0, 255]];
    let mut reader = FrameReader::new(4);
    let mut raws = Vec::new();
    for f in &frames {
        raws.push(reader.submit(f.clone(), 4).unwrap());
    }
    let mut done = Vec::new();
    let mut scratch = Vec::new();
    for raw in raws {
        assert!(frame_fits(raw.data.len(), 2, 2));
        done.push(process_frame(raw, 2, 2, THRESHOLD, &mut scratch));
    }
    done.reverse();
    let mut out = Vec::new();
    pixel_shell::codec::encode_header(30, &mut out);
    let mut writer = pixel_shell::writer::FrameWriter::new();
    for d in done {
        writer.accept(d, &mut out);
    }
    let stream = pixel_shell::codec::decode_stream(&out).unwrap();
    assert_eq!(stream.fps, 30);
    assert_eq!(
        stream.frames,
        vec![
            vec![PixelRect { x: 0, y: 0, w: 1, h: 2 }],
            vec![],
            vec![PixelRect { x: 0, y: 0, w: 2, h: 1 }, PixelRect { x: 1, y: 1, w: 1, h: 1 }],
        ]
    );
}

#[test]
fn conversion_without_threads_gives_the_same_stream() {
    let frames: Vec<Vec<u8>> = vec![vec![255, 0, 255, 0], vec![0, 0, 0, 0], vec![255, 255, 0, 255]];
    let done = pixel_shell::pipeline::convert_frames(&frames, 2, 2, 30, THRESHOLD);
    assert_eq!(
        done.frames,
        vec![
            vec![PixelRect { x: 0, y: 0, w: 1, h: 2 }],
            vec![],
            vec![PixelRect { x: 0, y: 0, w: 2, h: 1 }, PixelRect { x: 1, y: 1, w: 1, h: 1 }],
        ]
    );
    assert_eq!(done.stream, pixel_shell::codec::encode_stream(30, &done.frames));

    let mut reader = FrameReader::new(4);
    let mut scratch = Vec::new();
    let mut processed = Vec::new();
    for f in &frames {
        let raw = reader.submit(f.clone(), 4).unwrap();
        processed.push(process_frame(raw, 2, 2, THRESHOLD, &mut scratch));
    }
    processed.swap(0, 2);
    let mut out = Vec::new();
    pixel_shell::codec::encode_header(30, &mut out);
    let mut writer = pixel_shell::writer::FrameWriter::new();
    for p in processed {
        writer.accept(p, &mut out);
    }
    assert_eq!(out, done.stream);
}

#[test]
fn conversion_of_no_frames_is_the_header() {
    let done = pixel_shell::pipeline::convert_frames(&vec![], 4, 4, 25, THRESHOLD);
    assert!(done.frames.is_empty());
    assert_eq!(done.stream, vec![25, 0]);
}
