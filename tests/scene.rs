use solar_raster::{
    draw_sky_star, lattice_hash, planet_palette, random_sky_star_color, sky_star_color, Framebuffer, PlanetType, Rgb,
    FAR_DEPTH,
};

#[test]
fn sky_star_color_is_grey() {
    assert_eq!(sky_star_color(100), 0x646464);
    assert_eq!(sky_star_color(254), 0xFEFEFE);
}

#[test]
fn random_sky_star_color_is_a_grey_in_range() {
    for _ in 0..200 {
        let c = random_sky_star_color();
        let b = c & 0xFF;
        assert_eq!(c, (b << 16) | (b << 8) | b);
        assert!((100..255).contains(&b));
    }
}

#[test]
fn sky_star_square_is_drawn_behind_nearer_pixels() {
    let mut fb = Framebuffer::new(6, 6);
    fb.point_with_depth(3, 3, 10, 0xAA0000);
    draw_sky_star(&mut fb, 2, 2, 2, 999, 0xC8C8C8);
    assert_eq!(fb.buffer[2 * 6 + 2], 0xC8C8C8);
    assert_eq!(fb.buffer[2 * 6 + 3], 0xC8C8C8);
    assert_eq!(fb.buffer[3 * 6 + 2], 0xC8C8C8);
    assert_eq!(fb.buffer[3 * 6 + 3], 0xAA0000);
    assert_eq!(fb.zbuffer[2 * 6 + 2], 999);
    let drawn = fb.buffer.iter().filter(|&&c| c == 0xC8C8C8).count();
    assert_eq!(drawn, 3);
}

#[test]
fn sky_star_square_is_clipped_at_the_border() {
    let mut fb = Framebuffer::new(4, 4);
    draw_sky_star(&mut fb, -1, 3, 2, 0, 7);
    assert_eq!(fb.buffer[3 * 4], 7);
    assert_eq!(fb.buffer.iter().filter(|&&c| c == 7).count(), 1);
    draw_sky_star(&mut fb, i32::MAX, i32::MAX, usize::MAX, 0, 8);
    draw_sky_star(&mut fb, i32::MIN, i32::MIN, 3, 0, 8);
    assert!(fb.buffer.iter().all(|&c| c != 8));
    assert_eq!(fb.zbuffer[0], FAR_DEPTH);
}

#[test]
fn single_pixel_sky_star() {
    let mut fb = Framebuffer::new(3, 3);
    draw_sky_star(&mut fb, 1, 1, 1, 5, 9);
    assert_eq!(fb.buffer, vec![0, 0, 0, 0, 9, 0, 0, 0, 0]);
    draw_sky_star(&mut fb, 0, 0, 0, 5, 9);
    assert_eq!(fb.buffer, vec![0, 0, 0, 0, 9, 0, 0, 0, 0]);
}

#[test]
fn planet_palettes() {
    assert_eq!(planet_palette(PlanetType::Rocky), (Rgb::new(127, 106, 79), Rgb::new(76, 63, 47)));
    assert_eq!(planet_palette(PlanetType::Cloudy), (Rgb::new(173, 216, 230), Rgb::new(255, 255, 255)));
    assert_eq!(planet_palette(PlanetType::Earth), (Rgb::new(0, 117, 44), Rgb::new(0, 121, 241)));
    assert_eq!(planet_palette(PlanetType::Glitter), (Rgb::new(255, 109, 194), Rgb::new(255, 255, 255)));
    assert_eq!(planet_palette(PlanetType::Heart), (Rgb::new(255, 109, 194), Rgb::new(230, 41, 55)));
}

#[test]
fn lattice_hash_values() {
    assert_eq!(lattice_hash(0, 0, 0), 0);
    assert_eq!(lattice_hash(1, 2, 3), 1 + 114 + 339);
    assert_eq!(lattice_hash(-1, -1, -1), -171);
    assert_eq!(lattice_hash(i32::MAX, 1, 0), i32::MAX.wrapping_add(57));
    assert_eq!(lattice_hash(i32::MIN, i32::MIN, i32::MIN), i32::MIN.wrapping_mul(171));
    assert_eq!(
        lattice_hash(12345, -678, 91011),
        12345i32.wrapping_add((-678i32).wrapping_mul(57)).wrapping_add(91011i32.wrapping_mul(113))
    );
}
