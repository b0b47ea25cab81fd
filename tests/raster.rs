use solar_raster::{rasterize_triangle, Fragment, Framebuffer, ScreenVertex, FAR_DEPTH};

fn v(x: i32, y: i32, z: i32) -> ScreenVertex {
    ScreenVertex { x, y, z }
}

#[test]
fn single_triangle_end_to_end() {
    let mut fb = Framebuffer::new(800, 600);
    fb.clear();
    rasterize_triangle(&mut fb, v(400, 100, 0), v(200, 500, 0), v(600, 500, 0), |_f: Fragment| 0xFF0000);
    assert_eq!(fb.buffer[300 * 800 + 400], 0xFF0000);
    assert_eq!(fb.buffer[0], fb.background_color);
    assert_eq!(fb.buffer[0], 0);
    assert_eq!(fb.zbuffer[300 * 800 + 400], 0);
}

#[test]
fn triangle_covers_vertices_and_edges_only_inside() {
    let mut fb = Framebuffer::new(10, 10);
    rasterize_triangle(&mut fb, v(0, 0, 0), v(4, 0, 0), v(0, 4, 0), |_f: Fragment| 1);
    let covered: Vec<(usize, usize)> = (0..10)
        .flat_map(|y| (0..10).map(move |x| (x, y)))
        .filter(|&(x, y)| fb.buffer[y * 10 + x] == 1)
        .collect();
    // the right isosceles triangle with legs of 4 pixels holds 15 pixel centres
    assert_eq!(covered.len(), 15);
    for (x, y) in covered {
        assert!(x + y <= 4);
    }
}

#[test]
fn winding_order_does_not_matter() {
    let mut cw = Framebuffer::new(20, 20);
    let mut ccw = Framebuffer::new(20, 20);
    rasterize_triangle(&mut cw, v(2, 3, 0), v(15, 5, 0), v(7, 17, 0), |_f: Fragment| 9);
    rasterize_triangle(&mut ccw, v(2, 3, 0), v(7, 17, 0), v(15, 5, 0), |_f: Fragment| 9);
    assert_eq!(cw.buffer, ccw.buffer);
    assert!(cw.buffer.iter().any(|&c| c == 9));
}

#[test]
fn triangle_off_image_leaves_framebuffer_unchanged() {
    let mut fb = Framebuffer::new(50, 40);
    fb.set_background_color(0x102030);
    fb.clear();
    let before_colors = fb.buffer.clone();
    let before_depths = fb.zbuffer.clone();
    rasterize_triangle(&mut fb, v(-30, 5, 0), v(-5, 10, 0), v(-12, 30, 0), |_f: Fragment| 0xFFFFFF);
    rasterize_triangle(&mut fb, v(60, 5, 0), v(90, 10, 0), v(70, 30, 0), |_f: Fragment| 0xFFFFFF);
    rasterize_triangle(&mut fb, v(5, -60, 0), v(20, -10, 0), v(30, -30, 0), |_f: Fragment| 0xFFFFFF);
    rasterize_triangle(&mut fb, v(5, 40, 0), v(20, 70, 0), v(30, 45, 0), |_f: Fragment| 0xFFFFFF);
    assert_eq!(fb.buffer, before_colors);
    assert_eq!(fb.zbuffer, before_depths);
}

#[test]
fn triangle_partly_off_image_is_clipped() {
    let mut fb = Framebuffer::new(10, 10);
    rasterize_triangle(&mut fb, v(-20, -20, 0), v(30, -20, 0), v(-20, 30, 0), |_f: Fragment| 5);
    assert_eq!(fb.buffer[0], 5);
    assert_eq!(fb.buffer[9 * 10 + 9], 0);
}

#[test]
fn degenerate_triangles_write_nothing() {
    let mut fb = Framebuffer::new(30, 30);
    rasterize_triangle(&mut fb, v(5, 5, 0), v(5, 5, 0), v(20, 25, 0), |_f: Fragment| 1);
    rasterize_triangle(&mut fb, v(3, 3, 0), v(10, 10, 0), v(20, 20, 0), |_f: Fragment| 1);
    rasterize_triangle(&mut fb, v(7, 8, 0), v(7, 8, 0), v(7, 8, 0), |_f: Fragment| 1);
    assert!(fb.buffer.iter().all(|&c| c == 0));
    assert!(fb.zbuffer.iter().all(|&z| z == FAR_DEPTH));
}

fn near_and_far(near_first: bool) -> Framebuffer {
    let mut fb = Framebuffer::new(40, 40);
    fb.clear();
    let near = (v(0, 0, 100), v(39, 0, 100), v(0, 39, 100));
    let far = (v(0, 0, 500), v(39, 0, 500), v(0, 39, 500));
    if near_first {
        rasterize_triangle(&mut fb, near.0, near.1, near.2, |_f: Fragment| 0x00FF00);
        rasterize_triangle(&mut fb, far.0, far.1, far.2, |_f: Fragment| 0x0000FF);
    } else {
        rasterize_triangle(&mut fb, far.0, far.1, far.2, |_f: Fragment| 0x0000FF);
        rasterize_triangle(&mut fb, near.0, near.1, near.2, |_f: Fragment| 0x00FF00);
    }
    fb
}

#[test]
fn nearer_triangle_wins_in_either_order() {
    let a = near_and_far(true);
    let b = near_and_far(false);
    let i = 10 * 40 + 10;
    assert_eq!(a.buffer[i], 0x00FF00);
    assert_eq!(b.buffer[i], 0x00FF00);
    assert_eq!(a.zbuffer[i], 100);
    assert_eq!(b.zbuffer[i], 100);
    assert_eq!(a.buffer, b.buffer);
}

#[test]
fn equal_depth_keeps_first_drawn() {
    let mut fb = Framebuffer::new(20, 20);
    rasterize_triangle(&mut fb, v(0, 0, 42), v(19, 0, 42), v(0, 19, 42), |_f: Fragment| 0xAAAAAA);
    rasterize_triangle(&mut fb, v(0, 0, 42), v(19, 0, 42), v(0, 19, 42), |_f: Fragment| 0xBBBBBB);
    assert_eq!(fb.buffer[5 * 20 + 5], 0xAAAAAA);
    let mut other = Framebuffer::new(20, 20);
    rasterize_triangle(&mut other, v(0, 0, 42), v(19, 0, 42), v(0, 19, 42), |_f: Fragment| 0xBBBBBB);
    rasterize_triangle(&mut other, v(0, 0, 42), v(19, 0, 42), v(0, 19, 42), |_f: Fragment| 0xAAAAAA);
    assert_eq!(other.buffer[5 * 20 + 5], 0xBBBBBB);
}

#[test]
fn depth_is_interpolated_and_rounded_down() {
    let mut fb = Framebuffer::new(11, 11);
    rasterize_triangle(&mut fb, v(0, 0, 0), v(10, 0, 100), v(0, 10, 0), |_f: Fragment| 1);
    assert_eq!(fb.zbuffer[0], 0);
    assert_eq!(fb.zbuffer[5], 50);
    assert_eq!(fb.zbuffer[10], 100);
    let mut neg = Framebuffer::new(4, 4);
    rasterize_triangle(&mut neg, v(0, 0, 0), v(3, 0, -1), v(0, 3, 0), |_f: Fragment| 1);
    // one third of -1 rounds down to -1
    assert_eq!(neg.zbuffer[1], -1);
}

#[test]
fn shader_gets_weights_of_the_pixel() {
    let mut fb = Framebuffer::new(11, 11);
    let shade = |f: Fragment| {
        let (w1, w2, w3) = f.weights;
        assert_eq!(w1 + w2 + w3, f.area);
        assert!(w1 >= 0 && w2 >= 0 && w3 >= 0);
        if f.position == (10, 0) {
            assert_eq!((w1, w2, w3), (0, f.area, 0));
            assert_eq!(f.depth, 100);
            0x777777
        } else {
            1
        }
    };
    rasterize_triangle(&mut fb, v(0, 0, 0), v(10, 0, 100), v(0, 10, 0), shade);
    assert_eq!(fb.buffer[10], 0x777777);
}

#[test]
fn shader_is_not_called_for_hidden_pixels() {
    let mut fb = Framebuffer::new(10, 10);
    rasterize_triangle(&mut fb, v(0, 0, -5), v(9, 0, -5), v(0, 9, -5), |_f: Fragment| 2);
    rasterize_triangle(&mut fb, v(0, 0, 5), v(9, 0, 5), v(0, 9, 5), |_f: Fragment| -> u32 {
        panic!("a hidden fragment was shaded")
    });
    assert_eq!(fb.buffer[0], 2);
}

#[test]
fn clear_after_drawing_restores_background() {
    let mut fb = Framebuffer::new(30, 20);
    rasterize_triangle(&mut fb, v(0, 0, 1), v(29, 0, 1), v(0, 19, 1), |_f: Fragment| 0x123456);
    fb.set_background_color(0x050505);
    fb.clear();
    assert!(fb.buffer.iter().all(|&c| c == 0x050505));
    assert!(fb.zbuffer.iter().all(|&z| z == FAR_DEPTH));
}

#[test]
fn extreme_coordinates_do_not_overflow() {
    let mut fb = Framebuffer::new(8, 8);
    rasterize_triangle(
        &mut fb,
        v(i32::MIN, i32::MIN, i32::MIN),
        v(i32::MAX, i32::MIN, i32::MAX),
        v(i32::MAX, i32::MAX, 0),
        |_f: Fragment| 3,
    );
    assert_eq!(fb.buffer[0], 3);
}
