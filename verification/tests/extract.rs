use pixel_shell::extract::extract_rects_optimized;
use pixel_shell::raster::{render_frame, BLACK, WHITE};
use pixel_shell::rect::PixelRect;

fn rect(x: u16, y: u16, w: u16, h: u16) -> PixelRect {
    PixelRect { x, y, w, h }
}

fn extract(buffer: &[u8], width: u32, height: u32, threshold: u8) -> Vec<PixelRect> {
    let mut scratch = vec![-1isize; width as usize];
    extract_rects_optimized(buffer, width, height, threshold, &mut scratch)
}

#[test]
fn all_inactive_frame_has_no_rectangles() {
    let frame = [0u8, 10, 126, 50];
    assert_eq!(extract(&frame, 2, 2, 127), vec![]);
}

#[test]
fn one_row_gives_one_rectangle_per_run() {
    let frame = [200u8, 200, 10, 200];
    assert_eq!(extract(&frame, 4, 1, 127), vec![rect(0, 0, 2, 1), rect(3, 0, 1, 1)]);
}

#[test]
fn equal_rows_merge_into_taller_rectangles() {
    let frame = [200u8, 200, 10, 200, 200, 200, 10, 200, 200, 200, 10, 200];
    assert_eq!(extract(&frame, 4, 3, 127), vec![rect(0, 0, 2, 3), rect(3, 0, 1, 3)]);
}

#[test]
fn pixel_at_threshold_is_active() {
    let frame = [126u8, 127, 128];
    assert_eq!(extract(&frame, 3, 1, 127), vec![rect(1, 0, 2, 1)]);
}

#[test]
fn threshold_zero_makes_every_pixel_active() {
    let frame = [0u8, 0, 0, 0, 0, 0];
    assert_eq!(extract(&frame, 3, 2, 0), vec![rect(0, 0, 3, 2)]);
}

#[test]
fn shifted_run_starts_a_new_rectangle() {
    // row 0: columns 0..2, row 1: columns 1..3
    let frame = [255u8, 255, 0, 0, 255, 255];
    assert_eq!(extract(&frame, 3, 2, 127), vec![rect(0, 0, 2, 1), rect(1, 1, 2, 1)]);
}

#[test]
fn resized_run_starts_a_new_rectangle() {
    let frame = [255u8, 255, 0, 255, 255, 255];
    assert_eq!(extract(&frame, 3, 2, 127), vec![rect(0, 0, 2, 1), rect(0, 1, 3, 1)]);
}

#[test]
fn run_does_not_merge_across_a_gap_row() {
    // the same run in rows 0 and 2, nothing active in row 1
    let frame = [255u8, 255, 0, 0, 255, 255];
    assert_eq!(extract(&frame, 2, 3, 127), vec![rect(0, 0, 2, 1), rect(0, 2, 2, 1)]);
}

#[test]
fn run_under_a_wider_run_is_not_merged_with_an_older_one() {
    // row 0: run at columns 1..3; row 1: run 0..4 covers it; row 2: run 1..3 again
    let frame = [0u8, 255, 255, 0, 255, 255, 255, 255, 0, 255, 255, 0];
    assert_eq!(
        extract(&frame, 4, 3, 127),
        vec![rect(1, 0, 2, 1), rect(0, 1, 4, 1), rect(1, 2, 2, 1)]
    );
}

#[test]
fn rectangles_come_in_order_of_their_top_left_corner() {
    let frame = [
        255u8, 0, 255, 0, //
        255, 0, 0, 255, //
        0, 255, 0, 255,
    ];
    assert_eq!(
        extract(&frame, 4, 3, 127),
        vec![rect(0, 0, 1, 2), rect(2, 0, 1, 1), rect(3, 1, 1, 2), rect(1, 2, 1, 1)]
    );
}

#[test]
fn empty_frame_has_no_rectangles() {
    assert_eq!(extract(&[], 0, 0, 127), vec![]);
    assert_eq!(extract(&[], 5, 0, 127), vec![]);
    assert_eq!(extract(&[], 0, 5, 127), vec![]);
}

#[test]
fn stale_scratch_does_not_change_the_result() {
    let frame = [200u8, 200, 10, 200, 200, 200, 10, 200];
    let mut clean = vec![-1isize; 4];
    let first = extract_rects_optimized(&frame, 4, 2, 127, &mut clean);
    let mut dirty = vec![0isize, 7, -5, isize::MAX];
    let second = extract_rects_optimized(&frame, 4, 2, 127, &mut dirty);
    assert_eq!(first, second);
    assert_eq!(first, vec![rect(0, 0, 2, 2), rect(3, 0, 1, 2)]);
    assert_eq!(dirty.len(), 4);
}

#[test]
fn extracting_twice_with_the_same_scratch_gives_the_same_list() {
    let frame = [0u8, 255, 255, 0, 255, 255, 255, 255, 0, 255, 255, 0];
    let mut scratch = vec![-1isize; 4];
    let first = extract_rects_optimized(&frame, 4, 3, 127, &mut scratch);
    let second = extract_rects_optimized(&frame, 4, 3, 127, &mut scratch);
    assert_eq!(first, second);
}

#[test]
fn painting_the_rectangles_gives_back_the_active_pixels() {
    let width = 7usize;
    let height = 5usize;
    let mut frame = vec![0u8; width * height];
    let mut seed: u32 = 12345;
    for p in frame.iter_mut() {
        seed = seed.wrapping_mul(1103515245).wrapping_add(12345);
        *p = (seed >> 16) as u8;
    }
    let rects = extract(&frame, width as u32, height as u32, 127);
    let mut canvas = vec![0u32; width * height];
    render_frame(&rects, &mut canvas, width, height);
    for i in 0..width * height {
        let expected = if frame[i] >= 127 { WHITE } else { BLACK };
        assert_eq!(canvas[i], expected);
    }
}

#[test]
fn rectangles_of_a_frame_do_not_overlap() {
    let frame = [
        255u8, 255, 0, 255, //
        255, 255, 0, 0, //
        0, 255, 255, 255,
    ];
    let rects = extract(&frame, 4, 3, 127);
    let mut hits = vec![0u32; 12];
    for q in &rects {
        for r in q.y..q.y + q.h {
            for c in q.x..q.x + q.w {
                hits[r as usize * 4 + c as usize] += 1;
            }
        }
    }
    for i in 0..12 {
        assert_eq!(hits[i], if frame[i] >= 127 { 1 } else { 0 });
    }
}

#[test]
fn all_inactive_frame_is_written_as_one_marker() {
    let rects = extract(&[0u8, 0, 0, 0], 2, 2, 127);
    let mut out = Vec::new();
    pixel_shell::codec::encode_frame(&rects, &mut out);
    assert_eq!(out, vec![0u8; 8]);
}

#[test]
fn one_row_frame_is_written_as_two_records_and_the_marker() {
    let rects = extract(&[200u8, 200, 10, 200], 4, 1, 127);
    let mut out = Vec::new();
    pixel_shell::codec::encode_frame(&rects, &mut out);
    assert_eq!(
        out,
        vec![
            0, 0, 0, 0, 2, 0, 1, 0, //
            3, 0, 0, 0, 1, 0, 1, 0, //
            0, 0, 0, 0, 0, 0, 0, 0,
        ]
    );
}
