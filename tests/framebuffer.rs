use solar_raster::{color_to_u32, Framebuffer, Rgb, FAR_DEPTH};

#[test]
fn color_to_u32_packs_channels() {
    assert_eq!(color_to_u32(0x12, 0x34, 0x56), 0x123456);
    assert_eq!(color_to_u32(255, 0, 0), 0xFF0000);
    assert_eq!(color_to_u32(0, 0, 0), 0);
    assert_eq!(color_to_u32(255, 255, 255), 0xFFFFFF);
}

#[test]
fn rgb_to_u32_matches_packing() {
    assert_eq!(Rgb::new(1, 2, 3).to_u32(), 0x010203);
}

#[test]
fn new_framebuffer_is_black_and_far() {
    let fb = Framebuffer::new(4, 3);
    assert_eq!(fb.buffer.len(), 12);
    assert_eq!(fb.zbuffer.len(), 12);
    assert!(fb.buffer.iter().all(|&c| c == 0));
    assert!(fb.zbuffer.iter().all(|&z| z == FAR_DEPTH));
    assert_eq!(fb.background_color, 0);
}

#[test]
fn clear_resets_to_background_and_far() {
    let mut fb = Framebuffer::new(5, 4);
    fb.point_with_depth(1, 1, -7, 0xABCDEF);
    fb.point(3, 2, 0x123456);
    fb.set_background_color(0x0000FF);
    fb.clear();
    assert!(fb.buffer.iter().all(|&c| c == 0x0000FF));
    assert!(fb.zbuffer.iter().all(|&z| z == FAR_DEPTH));
}

#[test]
fn clear_uses_last_background() {
    let mut fb = Framebuffer::new(2, 2);
    fb.set_background_color(0x111111);
    fb.set_background_color(0x222222);
    fb.clear();
    assert_eq!(fb.buffer, vec![0x222222; 4]);
}

#[test]
fn point_writes_without_depth_test() {
    let mut fb = Framebuffer::new(3, 2);
    fb.point_with_depth(2, 1, -100, 0x111111);
    fb.point(2, 1, 0x222222);
    assert_eq!(fb.buffer[1 * 3 + 2], 0x222222);
    assert_eq!(fb.zbuffer[1 * 3 + 2], -100);
}

#[test]
fn point_off_image_is_ignored() {
    let mut fb = Framebuffer::new(3, 2);
    fb.point(3, 0, 0xFFFFFF);
    fb.point(0, 2, 0xFFFFFF);
    assert!(fb.buffer.iter().all(|&c| c == 0));
}

#[test]
fn point_with_depth_keeps_nearer() {
    let mut fb = Framebuffer::new(3, 3);
    fb.point_with_depth(1, 2, 10, 0xAA0000);
    fb.point_with_depth(1, 2, 20, 0x00BB00);
    assert_eq!(fb.buffer[7], 0xAA0000);
    assert_eq!(fb.zbuffer[7], 10);
    fb.point_with_depth(1, 2, 5, 0x0000CC);
    assert_eq!(fb.buffer[7], 0x0000CC);
    assert_eq!(fb.zbuffer[7], 5);
}

#[test]
fn point_with_depth_tie_keeps_first() {
    let mut fb = Framebuffer::new(2, 2);
    fb.point_with_depth(0, 0, 3, 0x010101);
    fb.point_with_depth(0, 0, 3, 0x020202);
    assert_eq!(fb.buffer[0], 0x010101);
}

#[test]
fn point_with_depth_at_far_depth_never_writes() {
    let mut fb = Framebuffer::new(2, 2);
    fb.point_with_depth(1, 1, FAR_DEPTH, 0xFFFFFF);
    assert_eq!(fb.buffer[3], 0);
    assert_eq!(fb.zbuffer[3], FAR_DEPTH);
}

#[test]
fn point_with_depth_off_image_is_ignored() {
    let mut fb = Framebuffer::new(2, 2);
    fb.point_with_depth(2, 0, 0, 0xFFFFFF);
    fb.point_with_depth(0, 5, 0, 0xFFFFFF);
    assert!(fb.buffer.iter().all(|&c| c == 0));
    assert!(fb.zbuffer.iter().all(|&z| z == FAR_DEPTH));
}

#[test]
fn empty_framebuffer() {
    let mut fb = Framebuffer::new(0, 7);
    fb.clear();
    fb.point(0, 0, 1);
    assert!(fb.buffer.is_empty());
}
