use vstd::prelude::*;
use crate::framebuffer::{lemma_cell_of_index, Framebuffer};
use crate::raster::{
    covers, depth_at, det, drawn, fragment_at, lemma_covered_in_box, max3, min3, pixel_drawn,
    Fragment, ScreenVertex,
};

verus! {

/// The bounding box of the triangle's corners misses the image entirely.
pub open spec fn off_image(fb: Framebuffer, a: ScreenVertex, b: ScreenVertex, c: ScreenVertex) -> bool {
    ||| max3(a.x as int, b.x as int, c.x as int) < 0
    ||| max3(a.y as int, b.y as int, c.y as int) < 0
    ||| min3(a.x as int, b.x as int, c.x as int) >= fb.width
    ||| min3(a.y as int, b.y as int, c.y as int) >= fb.height
}

/// Two corners project to the same pixel, or all three lie on one line.
pub open spec fn degenerate(a: ScreenVertex, b: ScreenVertex, c: ScreenVertex) -> bool {
    ||| (a.x == b.x && a.y == b.y)
    ||| (b.x == c.x && b.y == c.y)
    ||| (a.x == c.x && a.y == c.y)
    ||| det(a, b, c) == 0
}

/// A triangle that lies fully outside the image, covering none of its pixels,
/// changes neither buffer when drawn.
pub proof fn lemma_uncovered_unchanged<F: Fn(Fragment) -> u32>(
    before: Framebuffer,
    after: Framebuffer,
    a: ScreenVertex,
    b: ScreenVertex,
    c: ScreenVertex,
    shade: F,
)
    requires
        before.wf(),
        drawn(before, after, a, b, c, shade),
        forall|px: int, py: int| before.contains(px, py) ==> !covers(a, b, c, px, py),
    ensures
        after.buffer@ == before.buffer@,
        after.zbuffer@ == before.zbuffer@,
{
    let w = before.width as int;
    let h = before.height as int;
    assert forall|i: int| 0 <= i < before.buffer@.len() implies after.buffer@[i] == before.buffer@[i]
        && after.zbuffer@[i] == before.zbuffer@[i] by {
        assert(w > 0) by (nonlinear_arith)
            requires
                0 <= i < w * h,
                w >= 0,
                h >= 0,
        ;
        lemma_cell_of_index(w, h, i);
        assert(before.contains(i % w, i / w));
        assert(!covers(a, b, c, i % w, i / w));
        assert(pixel_drawn(before, after, a, b, c, shade, i % w, i / w));
    }
    assert(after.buffer@ =~= before.buffer@);
    assert(after.zbuffer@ =~= before.zbuffer@);
}

/// A triangle whose corners all lie on one side off the image leaves the
/// framebuffer unchanged.
pub proof fn lemma_off_image_unchanged<F: Fn(Fragment) -> u32>(
    before: Framebuffer,
    after: Framebuffer,
    a: ScreenVertex,
    b: ScreenVertex,
    c: ScreenVertex,
    shade: F,
)
    requires
        before.wf(),
        drawn(before, after, a, b, c, shade),
        off_image(before, a, b, c),
    ensures
        after.buffer@ == before.buffer@,
        after.zbuffer@ == before.zbuffer@,
{
    assert forall|px: int, py: int| before.contains(px, py) implies !covers(a, b, c, px, py) by {
        if covers(a, b, c, px, py) {
            lemma_covered_in_box(a, b, c, px, py);
        }
    }
    lemma_uncovered_unchanged(before, after, a, b, c, shade);
}

/// A triangle with coincident or collinear corners writes no pixel.
pub proof fn lemma_degenerate_unchanged<F: Fn(Fragment) -> u32>(
    before: Framebuffer,
    after: Framebuffer,
    a: ScreenVertex,
    b: ScreenVertex,
    c: ScreenVertex,
    shade: F,
)
    requires
        before.wf(),
        drawn(before, after, a, b, c, shade),
        degenerate(a, b, c),
    ensures
        after.buffer@ == before.buffer@,
        after.zbuffer@ == before.zbuffer@,
{
    let ax = a.x as int;
    let ay = a.y as int;
    let bx = b.x as int;
    let by = b.y as int;
    let cx = c.x as int;
    let cy = c.y as int;
    assert(det(a, b, c) == 0) by {
        if ax == bx && ay == by {
            assert((by - cy) * (ax - cx) + (cx - bx) * (ay - cy) == 0) by (nonlinear_arith)
                requires
                    ax == bx,
                    ay == by,
            ;
        } else if bx == cx && by == cy {
            assert((by - cy) * (ax - cx) + (cx - bx) * (ay - cy) == 0) by (nonlinear_arith)
                requires
                    bx == cx,
                    by == cy,
            ;
        } else if ax == cx && ay == cy {
            assert((by - cy) * (ax - cx) + (cx - bx) * (ay - cy) == 0) by (nonlinear_arith)
                requires
                    ax == cx,
                    ay == cy,
            ;
        }
    }
    lemma_uncovered_unchanged(before, after, a, b, c, shade);
}

/// Drawing two triangles that both cover pixel (x, y), the first nearer there
/// than the second and nearer than what the pixel held, leaves the first one's
/// depth and a colour of the first one's shader at the pixel, whichever of the
/// two is drawn first.
pub proof fn lemma_nearer_wins_either_order<F: Fn(Fragment) -> u32, G: Fn(Fragment) -> u32>(
    fb0: Framebuffer,
    near_first: Framebuffer,
    near_then_far: Framebuffer,
    far_first: Framebuffer,
    far_then_near: Framebuffer,
    a1: ScreenVertex,
    b1: ScreenVertex,
    c1: ScreenVertex,
    shade1: F,
    a2: ScreenVertex,
    b2: ScreenVertex,
    c2: ScreenVertex,
    shade2: G,
    x: int,
    y: int,
)
    requires
        fb0.wf(),
        fb0.contains(x, y),
        covers(a1, b1, c1, x, y),
        covers(a2, b2, c2, x, y),
        depth_at(a1, b1, c1, x, y) < depth_at(a2, b2, c2, x, y),
        depth_at(a1, b1, c1, x, y) < fb0.zbuffer@[fb0.index(x, y)],
        drawn(fb0, near_first, a1, b1, c1, shade1),
        drawn(near_first, near_then_far, a2, b2, c2, shade2),
        drawn(fb0, far_first, a2, b2, c2, shade2),
        drawn(far_first, far_then_near, a1, b1, c1, shade1),
    ensures
        near_then_far.zbuffer@[fb0.index(x, y)] == depth_at(a1, b1, c1, x, y),
        far_then_near.zbuffer@[fb0.index(x, y)] == depth_at(a1, b1, c1, x, y),
        shade1.ensures((fragment_at(a1, b1, c1, x, y),), near_then_far.buffer@[fb0.index(x, y)]),
        shade1.ensures((fragment_at(a1, b1, c1, x, y),), far_then_near.buffer@[fb0.index(x, y)]),
{
    assert(pixel_drawn(fb0, near_first, a1, b1, c1, shade1, x, y));
    assert(pixel_drawn(near_first, near_then_far, a2, b2, c2, shade2, x, y));
    assert(pixel_drawn(fb0, far_first, a2, b2, c2, shade2, x, y));
    assert(pixel_drawn(far_first, far_then_near, a1, b1, c1, shade1, x, y));
}

/// Drawing two triangles that both cover pixel (x, y) at the same depth, below
/// what the pixel held, leaves the colour of the one drawn first: the outcome of
/// a tie depends on the drawing order.
pub proof fn lemma_tie_keeps_first<F: Fn(Fragment) -> u32, G: Fn(Fragment) -> u32>(
    fb0: Framebuffer,
    fb1: Framebuffer,
    fb2: Framebuffer,
    a1: ScreenVertex,
    b1: ScreenVertex,
    c1: ScreenVertex,
    shade1: F,
    a2: ScreenVertex,
    b2: ScreenVertex,
    c2: ScreenVertex,
    shade2: G,
    x: int,
    y: int,
)
    requires
        fb0.wf(),
        fb0.contains(x, y),
        covers(a1, b1, c1, x, y),
        covers(a2, b2, c2, x, y),
        depth_at(a1, b1, c1, x, y) == depth_at(a2, b2, c2, x, y),
        depth_at(a1, b1, c1, x, y) < fb0.zbuffer@[fb0.index(x, y)],
        drawn(fb0, fb1, a1, b1, c1, shade1),
        drawn(fb1, fb2, a2, b2, c2, shade2),
    ensures
        fb2.zbuffer@[fb0.index(x, y)] == depth_at(a1, b1, c1, x, y),
        fb2.buffer@[fb0.index(x, y)] == fb1.buffer@[fb0.index(x, y)],
        shade1.ensures((fragment_at(a1, b1, c1, x, y),), fb2.buffer@[fb0.index(x, y)]),
{
    assert(pixel_drawn(fb0, fb1, a1, b1, c1, shade1, x, y));
    assert(pixel_drawn(fb1, fb2, a2, b2, c2, shade2, x, y));
}

} // verus!
