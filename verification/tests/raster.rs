use pixel_shell::raster::{draw_rect, render_frame, BLACK, WHITE};
use pixel_shell::rect::PixelRect;

#[test]
fn rectangle_inside_the_canvas() {
    let mut canvas = vec![0u32; 12];
    draw_rect(&mut canvas, 4, 3, 1, 1, 2, 2);
    assert_eq!(
        canvas,
        vec![
            0, 0, 0, 0, //
            0, WHITE, WHITE, 0, //
            0, WHITE, WHITE, 0,
        ]
    );
}

#[test]
fn rectangle_is_clipped_to_the_canvas() {
    let mut canvas = vec![7u32; 12];
    draw_rect(&mut canvas, 4, 3, 2, 1, 10, 10);
    assert_eq!(
        canvas,
        vec![
            7, 7, 7, 7, //
            7, 7, WHITE, WHITE, //
            7, 7, WHITE, WHITE,
        ]
    );
}

#[test]
fn rectangle_that_starts_outside_paints_nothing() {
    let mut canvas = vec![1u32; 6];
    draw_rect(&mut canvas, 3, 2, 3, 0, 1, 1);
    draw_rect(&mut canvas, 3, 2, 0, 2, 1, 1);
    draw_rect(&mut canvas, 0, 0, 0, 0, 1, 1);
    assert_eq!(canvas, vec![1u32; 6]);
}

#[test]
fn huge_extent_does_not_overflow() {
    let mut canvas = vec![0u32; 4];
    draw_rect(&mut canvas, 2, 2, 1, 1, usize::MAX, usize::MAX);
    assert_eq!(canvas, vec![0, 0, 0, WHITE]);
}

#[test]
fn rows_past_the_end_of_a_short_buffer_are_left_out() {
    let mut canvas = vec![0u32; 6];
    draw_rect(&mut canvas, 4, 3, 0, 0, 2, 3);
    // row 0 ends at index 2 and fits; row 1 ends at 6 and fits; row 2 would end at 10
    assert_eq!(canvas, vec![WHITE, WHITE, 0, 0, WHITE, WHITE]);
}

#[test]
fn empty_rectangle_paints_nothing() {
    let mut canvas = vec![0u32; 4];
    draw_rect(&mut canvas, 2, 2, 0, 0, 0, 2);
    draw_rect(&mut canvas, 2, 2, 0, 0, 2, 0);
    assert_eq!(canvas, vec![0u32; 4]);
}

#[test]
fn frame_is_painted_on_a_black_canvas() {
    let mut canvas = vec![5u32; 6];
    let rects = vec![PixelRect { x: 0, y: 0, w: 2, h: 1 }, PixelRect { x: 2, y: 1, w: 1, h: 1 }];
    render_frame(&rects, &mut canvas, 3, 2);
    assert_eq!(canvas, vec![WHITE, WHITE, BLACK, BLACK, BLACK, WHITE]);
}

#[test]
fn frame_without_rectangles_is_black() {
    let mut canvas = vec![WHITE; 4];
    render_frame(&vec![], &mut canvas, 2, 2);
    assert_eq!(canvas, vec![BLACK; 4]);
}

#[test]
fn colours() {
    assert_eq!(WHITE, 0xFFFFFFFF);
    assert_eq!(BLACK, 0xFF000000);
}
