use vstd::prelude::*;
use rand::Rng;
use crate::color::{color_to_u32, packed};
use crate::framebuffer::{cell, lemma_cell_in_bounds, lemma_cell_injective, Framebuffer};
use crate::raster::scanned;

verus! {

/// Relies on rand::thread_rng and rand::Rng::gen_range: `gen_range(lo..hi)`
/// returns a value of the half-open range lo..hi, and panics only when that
/// range is empty.
#[verifier::external_body]
fn random_in(lo: u8, hi: u8) -> (r: u8)
    requires
        lo < hi,
    ensures
        lo <= r < hi,
{
    rand::thread_rng().gen_range(lo..hi)
}

/// The grey of a background star of the given brightness.
pub fn sky_star_color(brightness: u8) -> (c: u32)
    ensures
        c == packed(brightness, brightness, brightness),
{
    color_to_u32(brightness, brightness, brightness)
}

/// The colour of a new background star: a grey of random brightness in 100..255.
pub fn random_sky_star_color() -> (c: u32)
    ensures
        exists|b: u8| 100 <= b < 255 && c == packed(b, b, b),
{
    let b = random_in(100, 255);
    let c = sky_star_color(b);
    assert(100 <= b < 255 && c == packed(b, b, b));
    c
}

/// Pixel (px, py) lies in the `size` x `size` square whose top-left pixel is
/// (cx, cy).
pub open spec fn in_square(cx: int, cy: int, size: int, px: int, py: int) -> bool {
    cx <= px < cx + size && cy <= py < cy + size
}

/// What stamping the square does to one pixel: inside the square, where `depth`
/// is strictly below the stored depth, the pixel takes `depth` and `color`;
/// elsewhere nothing changes.
pub open spec fn square_pixel(
    before: Framebuffer,
    after: Framebuffer,
    cx: int,
    cy: int,
    size: int,
    depth: i32,
    color: u32,
    px: int,
    py: int,
) -> bool {
    let i = before.index(px, py);
    if in_square(cx, cy, size, px, py) && depth < before.zbuffer@[i] {
        &&& after.zbuffer@[i] == depth
        &&& after.buffer@[i] == color
    } else {
        &&& after.zbuffer@[i] == before.zbuffer@[i]
        &&& after.buffer@[i] == before.buffer@[i]
    }
}

/// The state of one pixel while the square is stamped row by row.
pub open spec fn square_status(
    before: Framebuffer,
    after: Framebuffer,
    cx: int,
    cy: int,
    size: int,
    depth: i32,
    color: u32,
    px: int,
    py: int,
    done: bool,
) -> bool {
    if done {
        square_pixel(before, after, cx, cy, size, depth, color, px, py)
    } else {
        let i = before.index(px, py);
        &&& after.zbuffer@[i] == before.zbuffer@[i]
        &&& after.buffer@[i] == before.buffer@[i]
    }
}

/// Draws a background star as a `size` x `size` square of `color` whose top-left
/// pixel is (cx, cy), through the depth test at `depth`; the part of the square
/// off the image is dropped.
pub fn draw_sky_star(fb: &mut Framebuffer, cx: i32, cy: i32, size: usize, depth: i32, color: u32)
    requires
        old(fb).wf(),
    ensures
        final(fb).wf(),
        final(fb).width == old(fb).width,
        final(fb).height == old(fb).height,
        final(fb).background_color == old(fb).background_color,
        forall|px: int, py: int|
            old(fb).contains(px, py) ==> #[trigger] square_pixel(
                *old(fb),
                *final(fb),
                cx as int,
                cy as int,
                size as int,
                depth,
                color,
                px,
                py,
            ),
{
    let ghost fb0 = *fb;
    let width = fb.width;
    let height = fb.height;
    let x0: usize = if cx < 0 { 0 } else { cx as usize };
    let y0: usize = if cy < 0 { 0 } else { cy as usize };
    let xe: i128 = cx as i128 + size as i128;
    let ye: i128 = cy as i128 + size as i128;
    let x1: usize = if xe < 0 { 0 } else if xe < width as i128 { xe as usize } else { width };
    let y1: usize = if ye < 0 { 0 } else if ye < height as i128 { ye as usize } else { height };
    let mut y: usize = y0;
    while y < y1
        invariant
            fb0 == *old(fb),
            fb0.wf(),
            width == fb0.width,
            height == fb0.height,
            x1 <= width,
            y1 <= height,
            x0 as int == if cx < 0 { 0 } else { cx as int },
            y0 as int == if cy < 0 { 0 } else { cy as int },
            x1 as int == if xe < 0 { 0 } else if xe < width { xe as int } else { width as int },
            y1 as int == if ye < 0 { 0 } else if ye < height { ye as int } else { height as int },
            xe == cx + size,
            ye == cy + size,
            y0 <= y,
            y <= y1 || y == y0,
            fb.wf(),
            fb.width == width,
            fb.height == height,
            fb.background_color == fb0.background_color,
            forall|px: int, py: int|
                fb0.contains(px, py) ==> #[trigger] square_status(
                    fb0,
                    *fb,
                    cx as int,
                    cy as int,
                    size as int,
                    depth,
                    color,
                    px,
                    py,
                    scanned(x0 as int, x1 as int, y0 as int, x0 as int, y as int, px, py),
                ),
        decreases y1 - y,
    {
        let mut x: usize = x0;
        while x < x1
            invariant
                fb0 == *old(fb),
                fb0.wf(),
                width == fb0.width,
                height == fb0.height,
                x1 <= width,
                y0 <= y < y1 <= height,
                x0 <= x,
                x <= x1 || x == x0,
                x0 as int == if cx < 0 { 0 } else { cx as int },
                y0 as int == if cy < 0 { 0 } else { cy as int },
                x1 as int == if xe < 0 { 0 } else if xe < width { xe as int } else { width as int },
                y1 as int == if ye < 0 { 0 } else if ye < height { ye as int } else { height as int },
                xe == cx + size,
                ye == cy + size,
                fb.wf(),
                fb.width == width,
                fb.height == height,
                fb.background_color == fb0.background_color,
                forall|px: int, py: int|
                    fb0.contains(px, py) ==> #[trigger] square_status(
                        fb0,
                        *fb,
                        cx as int,
                        cy as int,
                        size as int,
                        depth,
                        color,
                        px,
                        py,
                        scanned(x0 as int, x1 as int, y0 as int, x as int, y as int, px, py),
                    ),
            decreases x1 - x,
        {
            let ghost pre = *fb;
            fb.point_with_depth(x, y, depth, color);
            proof {
                lemma_cell_in_bounds(width as int, height as int, x as int, y as int);
                assert(square_status(fb0, pre, cx as int, cy as int, size as int, depth, color, x as int, y as int,
                    scanned(x0 as int, x1 as int, y0 as int, x as int, y as int, x as int, y as int)));
                assert forall|qx: int, qy: int| fb0.contains(qx, qy) implies #[trigger] square_status(
                    fb0,
                    *fb,
                    cx as int,
                    cy as int,
                    size as int,
                    depth,
                    color,
                    qx,
                    qy,
                    scanned(x0 as int, x1 as int, y0 as int, x + 1, y as int, qx, qy),
                ) by {
                    assert(square_status(fb0, pre, cx as int, cy as int, size as int, depth, color, qx, qy,
                        scanned(x0 as int, x1 as int, y0 as int, x as int, y as int, qx, qy)));
                    if qx != x || qy != y {
                        lemma_cell_in_bounds(width as int, height as int, qx, qy);
                        if cell(width as int, qx, qy) == cell(width as int, x as int, y as int) {
                            lemma_cell_injective(width as int, qx, qy, x as int, y as int);
                        }
                    }
                }
            }
            x = x + 1;
        }
        proof {
            assert forall|qx: int, qy: int| fb0.contains(qx, qy) implies #[trigger] square_status(
                fb0,
                *fb,
                cx as int,
                cy as int,
                size as int,
                depth,
                color,
                qx,
                qy,
                scanned(x0 as int, x1 as int, y0 as int, x0 as int, y + 1, qx, qy),
            ) by {
                assert(square_status(fb0, *fb, cx as int, cy as int, size as int, depth, color, qx, qy,
                    scanned(x0 as int, x1 as int, y0 as int, x as int, y as int, qx, qy)));
            }
        }
        y = y + 1;
    }
    proof {
        assert forall|qx: int, qy: int| fb0.contains(qx, qy) implies #[trigger] square_pixel(
            fb0,
            *fb,
            cx as int,
            cy as int,
            size as int,
            depth,
            color,
            qx,
            qy,
        ) by {
            assert(square_status(fb0, *fb, cx as int, cy as int, size as int, depth, color, qx, qy,
                scanned(x0 as int, x1 as int, y0 as int, x0 as int, y as int, qx, qy)));
        }
    }
}

} // verus!
