use pixel_shell::rect::PixelRect;

#[test]
fn marker_is_a_frame_end() {
    let m = PixelRect::eos_marker();
    assert_eq!(m, PixelRect { x: 0, y: 0, w: 0, h: 0 });
    assert!(m.is_frame_end());
}

#[test]
fn zero_area_with_position_is_a_frame_end() {
    assert!(PixelRect { x: 9, y: 4, w: 0, h: 0 }.is_frame_end());
}

#[test]
fn rectangle_with_one_zero_side_is_not_a_frame_end() {
    assert!(!PixelRect { x: 0, y: 0, w: 1, h: 0 }.is_frame_end());
    assert!(!PixelRect { x: 0, y: 0, w: 0, h: 1 }.is_frame_end());
    assert!(!PixelRect { x: 0, y: 0, w: 3, h: 2 }.is_frame_end());
}
