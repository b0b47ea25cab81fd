use vstd::prelude::*;
use crate::framebuffer::{cell, lemma_cell_in_bounds, lemma_cell_injective, Framebuffer};

verus! {

/// A triangle corner after projection: integer pixel coordinates and a
/// fixed-point depth (smaller is nearer).
#[derive(Clone, Copy, Debug, PartialEq, Eq, Structural)]
pub struct ScreenVertex {
    pub x: i32,
    pub y: i32,
    pub z: i32,
}

/// A pixel covered by a triangle, with what a shader needs to interpolate the
/// corners' attributes: the corner weights are `weights.k / area`, each weight at
/// least zero and `area` positive.
#[derive(Clone, Copy, Debug)]
pub struct Fragment {
    pub position: (usize, usize),
    pub depth: i32,
    pub weights: (i128, i128, i128),
    pub area: i128,
}

/// Twice the signed area of triangle abc.
pub open spec fn det(a: ScreenVertex, b: ScreenVertex, c: ScreenVertex) -> int {
    (b.y - c.y) * (a.x - c.x) + (c.x - b.x) * (a.y - c.y)
}

/// The edge function opposite corner a at pixel (px, py).
pub open spec fn edge_a(a: ScreenVertex, b: ScreenVertex, c: ScreenVertex, px: int, py: int) -> int {
    (b.y - c.y) * (px - c.x) + (c.x - b.x) * (py - c.y)
}

/// The edge function opposite corner b at pixel (px, py).
pub open spec fn edge_b(a: ScreenVertex, b: ScreenVertex, c: ScreenVertex, px: int, py: int) -> int {
    (c.y - a.y) * (px - c.x) + (a.x - c.x) * (py - c.y)
}

/// +1 for a triangle of positive signed area, -1 otherwise.
pub open spec fn orientation(a: ScreenVertex, b: ScreenVertex, c: ScreenVertex) -> int {
    if det(a, b, c) > 0 {
        1
    } else {
        -1
    }
}

/// Twice the unsigned area of triangle abc: the common denominator of the weights.
pub open spec fn area(a: ScreenVertex, b: ScreenVertex, c: ScreenVertex) -> int {
    orientation(a, b, c) * det(a, b, c)
}

/// The barycentric weights of pixel (px, py), each scaled by `area(a, b, c)`.
pub open spec fn weights(a: ScreenVertex, b: ScreenVertex, c: ScreenVertex, px: int, py: int) -> (int, int, int) {
    let s = orientation(a, b, c);
    let ea = edge_a(a, b, c, px, py);
    let eb = edge_b(a, b, c, px, py);
    (s * ea, s * eb, s * (det(a, b, c) - ea - eb))
}

/// Pixel (px, py) lies inside or on the border of a non-degenerate triangle abc.
pub open spec fn covers(a: ScreenVertex, b: ScreenVertex, c: ScreenVertex, px: int, py: int) -> bool {
    let w = weights(a, b, c, px, py);
    &&& det(a, b, c) != 0
    &&& w.0 >= 0
    &&& w.1 >= 0
    &&& w.2 >= 0
}

/// The corner depths interpolated by the weights at (px, py), rounded down.
pub open spec fn depth_at(a: ScreenVertex, b: ScreenVertex, c: ScreenVertex, px: int, py: int) -> int {
    let w = weights(a, b, c, px, py);
    (w.0 * a.z + w.1 * b.z + w.2 * c.z) / area(a, b, c)
}

/// The fragment that triangle abc produces at (px, py).
pub open spec fn fragment_at(a: ScreenVertex, b: ScreenVertex, c: ScreenVertex, px: int, py: int) -> Fragment {
    let w = weights(a, b, c, px, py);
    Fragment {
        position: (px as usize, py as usize),
        depth: depth_at(a, b, c, px, py) as i32,
        weights: (w.0 as i128, w.1 as i128, w.2 as i128),
        area: area(a, b, c) as i128,
    }
}

/// The least of three numbers.
pub open spec fn min3(p: int, q: int, r: int) -> int {
    if p <= q && p <= r {
        p
    } else if q <= r {
        q
    } else {
        r
    }
}

/// The greatest of three numbers.
pub open spec fn max3(p: int, q: int, r: int) -> int {
    if p >= q && p >= r {
        p
    } else if q >= r {
        q
    } else {
        r
    }
}

/// What drawing triangle abc does to one pixel: where the triangle covers it and
/// its depth there is strictly below the stored one, the depth is replaced and
/// the colour is what `shade` gives for the fragment; elsewhere nothing changes.
pub open spec fn pixel_drawn<F: Fn(Fragment) -> u32>(
    before: Framebuffer,
    after: Framebuffer,
    a: ScreenVertex,
    b: ScreenVertex,
    c: ScreenVertex,
    shade: F,
    px: int,
    py: int,
) -> bool {
    let i = before.index(px, py);
    if covers(a, b, c, px, py) && depth_at(a, b, c, px, py) < before.zbuffer@[i] {
        &&& after.zbuffer@[i] == depth_at(a, b, c, px, py)
        &&& shade.ensures((fragment_at(a, b, c, px, py),), after.buffer@[i])
    } else {
        &&& after.zbuffer@[i] == before.zbuffer@[i]
        &&& after.buffer@[i] == before.buffer@[i]
    }
}

/// `after` is `before` with triangle abc drawn into it through `shade`.
pub open spec fn drawn<F: Fn(Fragment) -> u32>(
    before: Framebuffer,
    after: Framebuffer,
    a: ScreenVertex,
    b: ScreenVertex,
    c: ScreenVertex,
    shade: F,
) -> bool {
    &&& after.wf()
    &&& after.width == before.width
    &&& after.height == before.height
    &&& after.background_color == before.background_color
    &&& forall|px: int, py: int|
        before.contains(px, py) ==> #[trigger] pixel_drawn(before, after, a, b, c, shade, px, py)
}

/// The edge functions, in coordinates relative to corner c, reproduce the pixel
/// scaled by the signed area.
proof fn lemma_relative_identity(u: int, v: int, q: int, r: int, p: int, t: int)
    ensures
        (r * p - v * t) * u + (u * t - q * p) * v == (r * u - v * q) * p,
        (r * p - v * t) * q + (u * t - q * p) * r == (r * u - v * q) * t,
{
    assert((r * p - v * t) * u == r * u * p - u * v * t) by (nonlinear_arith);
    assert((u * t - q * p) * v == u * v * t - q * v * p) by (nonlinear_arith);
    assert((r * u - v * q) * p == r * u * p - q * v * p) by (nonlinear_arith);
    assert((r * p - v * t) * q == q * r * p - q * v * t) by (nonlinear_arith);
    assert((u * t - q * p) * r == r * u * t - q * r * p) by (nonlinear_arith);
    assert((r * u - v * q) * t == r * u * t - q * v * t) by (nonlinear_arith);
}

/// The weights reproduce the pixel: each coordinate of (px, py), times the
/// triangle's signed area, is the edge-weighted sum of the corners' coordinates.
proof fn lemma_edge_identity(a: ScreenVertex, b: ScreenVertex, c: ScreenVertex, px: int, py: int)
    ensures
        ({
            let d = det(a, b, c);
            let e1 = edge_a(a, b, c, px, py);
            let e2 = edge_b(a, b, c, px, py);
            &&& e1 * a.x + e2 * b.x + (d - e1 - e2) * c.x == d * px
            &&& e1 * a.y + e2 * b.y + (d - e1 - e2) * c.y == d * py
        }),
{
    let d = det(a, b, c);
    let e1 = edge_a(a, b, c, px, py);
    let e2 = edge_b(a, b, c, px, py);
    let u = a.x - c.x;
    let v = b.x - c.x;
    let q = a.y - c.y;
    let r = b.y - c.y;
    let p = px - c.x;
    let t = py - c.y;
    lemma_relative_identity(u, v, q, r, p, t);
    assert(d == r * u - v * q) by (nonlinear_arith)
        requires
            d == (b.y - c.y) * (a.x - c.x) + (c.x - b.x) * (a.y - c.y),
            u == a.x - c.x,
            v == b.x - c.x,
            q == a.y - c.y,
            r == b.y - c.y,
    ;
    assert(e1 == r * p - v * t) by (nonlinear_arith)
        requires
            e1 == (b.y - c.y) * (px - c.x) + (c.x - b.x) * (py - c.y),
            v == b.x - c.x,
            r == b.y - c.y,
            p == px - c.x,
            t == py - c.y,
    ;
    assert(e2 == u * t - q * p) by (nonlinear_arith)
        requires
            e2 == (c.y - a.y) * (px - c.x) + (a.x - c.x) * (py - c.y),
            u == a.x - c.x,
            q == a.y - c.y,
            p == px - c.x,
            t == py - c.y,
    ;
    assert(e1 * a.x + e2 * b.x + (d - e1 - e2) * c.x == d * px) by (nonlinear_arith)
        requires
            e1 * u + e2 * v == d * p,
            u == a.x - c.x,
            v == b.x - c.x,
            p == px - c.x,
    ;
    assert(e1 * a.y + e2 * b.y + (d - e1 - e2) * c.y == d * py) by (nonlinear_arith)
        requires
            e1 * q + e2 * r == d * t,
            q == a.y - c.y,
            r == b.y - c.y,
            t == py - c.y,
    ;
}

/// Scaling the weights and the area by the orientation keeps a weighted sum
/// equal to the area times the point.
proof fn lemma_scaled_identity(s: int, e1: int, e2: int, d: int, x1: int, x2: int, x3: int, p: int)
    requires
        s == 1 || s == -1,
        e1 * x1 + e2 * x2 + (d - e1 - e2) * x3 == d * p,
    ensures
        (s * e1) * x1 + (s * e2) * x2 + (s * (d - e1 - e2)) * x3 == (s * d) * p,
{
    let e3 = d - e1 - e2;
    vstd::arithmetic::mul::lemma_mul_is_associative(s, e1, x1);
    vstd::arithmetic::mul::lemma_mul_is_associative(s, e2, x2);
    vstd::arithmetic::mul::lemma_mul_is_associative(s, e3, x3);
    vstd::arithmetic::mul::lemma_mul_is_associative(s, d, p);
    let t1 = e1 * x1;
    let t2 = e2 * x2;
    let t3 = e3 * x3;
    assert(s * t1 + s * t2 + s * t3 == s * (t1 + t2 + t3)) by (nonlinear_arith);
}

/// A weighted sum with non-negative weights of total `total` lies between
/// `total` times the least and `total` times the greatest of the values.
proof fn lemma_weighted_sum_bounds(w1: int, w2: int, w3: int, p: int, q: int, r: int)
    requires
        w1 >= 0,
        w2 >= 0,
        w3 >= 0,
    ensures
        min3(p, q, r) * (w1 + w2 + w3) <= w1 * p + w2 * q + w3 * r,
        w1 * p + w2 * q + w3 * r <= max3(p, q, r) * (w1 + w2 + w3),
{
    let lo = min3(p, q, r);
    let hi = max3(p, q, r);
    assert(lo * (w1 + w2 + w3) <= w1 * p + w2 * q + w3 * r) by (nonlinear_arith)
        requires
            w1 >= 0,
            w2 >= 0,
            w3 >= 0,
            lo <= p,
            lo <= q,
            lo <= r,
    ;
    assert(w1 * p + w2 * q + w3 * r <= hi * (w1 + w2 + w3)) by (nonlinear_arith)
        requires
            w1 >= 0,
            w2 >= 0,
            w3 >= 0,
            hi >= p,
            hi >= q,
            hi >= r,
    ;
}

/// A non-degenerate triangle has a positive doubled area.
pub proof fn lemma_area_positive(a: ScreenVertex, b: ScreenVertex, c: ScreenVertex)
    requires
        det(a, b, c) != 0,
    ensures
        area(a, b, c) > 0,
        area(a, b, c) == if det(a, b, c) > 0 { det(a, b, c) } else { -det(a, b, c) },
{
}

/// The scaled weights of any pixel add up to the triangle's doubled area.
proof fn lemma_weights_sum(a: ScreenVertex, b: ScreenVertex, c: ScreenVertex, px: int, py: int)
    ensures
        weights(a, b, c, px, py).0 + weights(a, b, c, px, py).1 + weights(a, b, c, px, py).2 == area(a, b, c),
{
    let s = orientation(a, b, c);
    let d = det(a, b, c);
    let e1 = edge_a(a, b, c, px, py);
    let e2 = edge_b(a, b, c, px, py);
    assert(s * e1 + s * e2 + s * (d - e1 - e2) == s * d) by (nonlinear_arith);
}

/// A covered pixel lies in the bounding box of the triangle's corners.
pub proof fn lemma_covered_in_box(a: ScreenVertex, b: ScreenVertex, c: ScreenVertex, px: int, py: int)
    requires
        covers(a, b, c, px, py),
    ensures
        min3(a.x as int, b.x as int, c.x as int) <= px <= max3(a.x as int, b.x as int, c.x as int),
        min3(a.y as int, b.y as int, c.y as int) <= py <= max3(a.y as int, b.y as int, c.y as int),
{
    let w = weights(a, b, c, px, py);
    let s = orientation(a, b, c);
    let d = det(a, b, c);
    let e1 = edge_a(a, b, c, px, py);
    let e2 = edge_b(a, b, c, px, py);
    let ar = area(a, b, c);
    lemma_edge_identity(a, b, c, px, py);
    assert(w.0 + w.1 + w.2 == ar);
    lemma_scaled_identity(s, e1, e2, d, a.x as int, b.x as int, c.x as int, px);
    lemma_scaled_identity(s, e1, e2, d, a.y as int, b.y as int, c.y as int, py);
    lemma_weighted_sum_bounds(w.0, w.1, w.2, a.x as int, b.x as int, c.x as int);
    lemma_weighted_sum_bounds(w.0, w.1, w.2, a.y as int, b.y as int, c.y as int);
    let lx = min3(a.x as int, b.x as int, c.x as int);
    let hx = max3(a.x as int, b.x as int, c.x as int);
    let ly = min3(a.y as int, b.y as int, c.y as int);
    let hy = max3(a.y as int, b.y as int, c.y as int);
    assert(lx <= px <= hx) by (nonlinear_arith)
        requires
            ar > 0,
            lx * ar <= ar * px,
            ar * px <= hx * ar,
    ;
    assert(ly <= py <= hy) by (nonlinear_arith)
        requires
            ar > 0,
            ly * ar <= ar * py,
            ar * py <= hy * ar,
    ;
}

/// The interpolated depth of a covered pixel lies between the corners' depths.
pub proof fn lemma_depth_in_range(a: ScreenVertex, b: ScreenVertex, c: ScreenVertex, px: int, py: int)
    requires
        covers(a, b, c, px, py),
    ensures
        min3(a.z as int, b.z as int, c.z as int) <= depth_at(a, b, c, px, py),
        depth_at(a, b, c, px, py) <= max3(a.z as int, b.z as int, c.z as int),
{
    let w = weights(a, b, c, px, py);
    let s = orientation(a, b, c);
    let d = det(a, b, c);
    let e1 = edge_a(a, b, c, px, py);
    let e2 = edge_b(a, b, c, px, py);
    let ar = area(a, b, c);
    assert(w.0 + w.1 + w.2 == ar);
    lemma_weighted_sum_bounds(w.0, w.1, w.2, a.z as int, b.z as int, c.z as int);
    let n = w.0 * a.z + w.1 * b.z + w.2 * c.z;
    let lz = min3(a.z as int, b.z as int, c.z as int);
    let hz = max3(a.z as int, b.z as int, c.z as int);
    vstd::arithmetic::div_mod::lemma_fundamental_div_mod(n, ar);
    vstd::arithmetic::div_mod::lemma_mod_bound(n, ar);
    let q = n / ar;
    let r = n % ar;
    assert(lz <= q <= hz) by (nonlinear_arith)
        requires
            ar > 0,
            n == ar * q + r,
            0 <= r < ar,
            lz * ar <= n,
            n <= hz * ar,
    ;
}

/// The product of two numbers of magnitude at most 2^32 has magnitude at most 2^64.
proof fn lemma_small_product(p: int, q: int)
    requires
        -0x1_0000_0000 <= p <= 0x1_0000_0000,
        -0x1_0000_0000 <= q <= 0x1_0000_0000,
    ensures
        -0x1_0000_0000_0000_0000 <= p * q <= 0x1_0000_0000_0000_0000,
{
    assert(-0x1_0000_0000_0000_0000 <= p * q <= 0x1_0000_0000_0000_0000) by (nonlinear_arith)
        requires
            -0x1_0000_0000 <= p <= 0x1_0000_0000,
            -0x1_0000_0000 <= q <= 0x1_0000_0000,
    ;
}

/// A weight of at most 2^67 times an `i32` depth has magnitude at most 2^98.
proof fn lemma_weighted_depth_bound(w: int, z: int)
    requires
        0 <= w <= 0x8_0000_0000_0000_0000,
        -0x8000_0000 <= z <= 0x7fff_ffff,
    ensures
        -0x4_0000_0000_0000_0000_0000_0000 <= w * z <= 0x4_0000_0000_0000_0000_0000_0000,
{
    assert(-0x4_0000_0000_0000_0000_0000_0000 <= w * z <= 0x4_0000_0000_0000_0000_0000_0000) by (nonlinear_arith)
        requires
            0 <= w <= 0x8_0000_0000_0000_0000,
            -0x8000_0000 <= z <= 0x7fff_ffff,
    ;
}

/// The least of three coordinates.
fn min3_i32(p: i32, q: i32, r: i32) -> (m: i32)
    ensures
        m as int == min3(p as int, q as int, r as int),
{
    if p <= q && p <= r {
        p
    } else if q <= r {
        q
    } else {
        r
    }
}

/// The greatest of three coordinates.
fn max3_i32(p: i32, q: i32, r: i32) -> (m: i32)
    ensures
        m as int == max3(p as int, q as int, r as int),
{
    if p >= q && p >= r {
        p
    } else if q >= r {
        q
    } else {
        r
    }
}

/// Twice the signed area of triangle abc.
fn signed_area(a: ScreenVertex, b: ScreenVertex, c: ScreenVertex) -> (d: i128)
    ensures
        d as int == det(a, b, c),
        -0x2_0000_0000_0000_0000 <= d <= 0x2_0000_0000_0000_0000,
{
    let ax = a.x as i128;
    let ay = a.y as i128;
    let bx = b.x as i128;
    let by = b.y as i128;
    let cx = c.x as i128;
    let cy = c.y as i128;
    proof {
        lemma_small_product(by - cy, ax - cx);
        lemma_small_product(cx - bx, ay - cy);
    }
    (by - cy) * (ax - cx) + (cx - bx) * (ay - cy)
}

/// The scaled barycentric weights of pixel (px, py) of a non-degenerate
/// triangle, for a pixel in the triangle's bounding box.
fn pixel_weights(a: ScreenVertex, b: ScreenVertex, c: ScreenVertex, d: i128, px: i128, py: i128) -> (w: (i128, i128, i128))
    requires
        d as int == det(a, b, c),
        d != 0,
        min3(a.x as int, b.x as int, c.x as int) <= px <= max3(a.x as int, b.x as int, c.x as int),
        min3(a.y as int, b.y as int, c.y as int) <= py <= max3(a.y as int, b.y as int, c.y as int),
    ensures
        w.0 as int == weights(a, b, c, px as int, py as int).0,
        w.1 as int == weights(a, b, c, px as int, py as int).1,
        w.2 as int == weights(a, b, c, px as int, py as int).2,
        -0x8_0000_0000_0000_0000 <= w.0 <= 0x8_0000_0000_0000_0000,
        -0x8_0000_0000_0000_0000 <= w.1 <= 0x8_0000_0000_0000_0000,
        -0x8_0000_0000_0000_0000 <= w.2 <= 0x8_0000_0000_0000_0000,
{
    let ax = a.x as i128;
    let ay = a.y as i128;
    let bx = b.x as i128;
    let by = b.y as i128;
    let cx = c.x as i128;
    let cy = c.y as i128;
    proof {
        lemma_small_product(by - cy, px - cx);
        lemma_small_product(cx - bx, py - cy);
        lemma_small_product(cy - ay, px - cx);
        lemma_small_product(ax - cx, py - cy);
        lemma_small_product(by - cy, ax - cx);
        lemma_small_product(cx - bx, ay - cy);
    }
    let e1 = (by - cy) * (px - cx) + (cx - bx) * (py - cy);
    let e2 = (cy - ay) * (px - cx) + (ax - cx) * (py - cy);
    let e3 = d - e1 - e2;
    if d > 0 {
        (e1, e2, e3)
    } else {
        (-e1, -e2, -e3)
    }
}

/// `n / d` rounded down, for a positive `d`.
fn floor_div(n: i128, d: i128) -> (q: i128)
    requires
        d > 0,
        -0x1000_0000_0000_0000_0000_0000_0000 <= n <= 0x1000_0000_0000_0000_0000_0000_0000,
    ensures
        q as int == n as int / d as int,
{
    if n >= 0 {
        n / d
    } else {
        let m: i128 = -n;
        let q0: i128 = m / d;
        let r0: i128 = m % d;
        proof {
            vstd::arithmetic::div_mod::lemma_fundamental_div_mod(m as int, d as int);
            vstd::arithmetic::div_mod::lemma_mod_bound(m as int, d as int);
            vstd::arithmetic::div_mod::lemma_div_pos_is_pos(m as int, d as int);
            assert(q0 * d <= m) by (nonlinear_arith)
                requires
                    m == d * q0 + r0,
                    r0 >= 0,
            ;
        }
        if r0 == 0 {
            proof {
                vstd::arithmetic::mul::lemma_mul_is_commutative(d as int, q0 as int);
                assert(n as int == (-q0) * d + 0) by (nonlinear_arith)
                    requires
                        n == -m,
                        m == q0 * d,
                ;
                vstd::arithmetic::div_mod::lemma_fundamental_div_mod_converse(n as int, d as int, -q0, 0);
            }
            -q0
        } else {
            proof {
                vstd::arithmetic::mul::lemma_mul_is_commutative(d as int, q0 as int);
                assert(n as int == (-q0 - 1) * d + (d - r0)) by (nonlinear_arith)
                    requires
                        n == -m,
                        m == q0 * d + r0,
                ;
                vstd::arithmetic::div_mod::lemma_fundamental_div_mod_converse(n as int, d as int, -q0 - 1, d - r0);
            }
            -q0 - 1
        }
    }
}

/// The depth of a covered pixel: the corner depths interpolated by its weights.
fn interpolate_depth(a: ScreenVertex, b: ScreenVertex, c: ScreenVertex, w: (i128, i128, i128), ar: i128, Ghost(px): Ghost<int>, Ghost(py): Ghost<int>) -> (z: i32)
    requires
        covers(a, b, c, px, py),
        w.0 as int == weights(a, b, c, px, py).0,
        w.1 as int == weights(a, b, c, px, py).1,
        w.2 as int == weights(a, b, c, px, py).2,
        ar as int == area(a, b, c),
        ar <= 0x2_0000_0000_0000_0000,
    ensures
        z as int == depth_at(a, b, c, px, py),
{
    proof {
        lemma_depth_in_range(a, b, c, px, py);
        lemma_weights_sum(a, b, c, px, py);
        lemma_area_positive(a, b, c);
        lemma_weighted_depth_bound(w.0 as int, a.z as int);
        lemma_weighted_depth_bound(w.1 as int, b.z as int);
        lemma_weighted_depth_bound(w.2 as int, c.z as int);
    }
    let n = w.0 * (a.z as i128) + w.1 * (b.z as i128) + w.2 * (c.z as i128);
    let q = floor_div(n, ar);
    q as i32
}

/// Pixel (px, py) lies in the part of the box [min_x, max_x) x [min_y, ..) that a
/// row-by-row scan has passed before reaching (x, y).
pub open spec fn scanned(min_x: int, max_x: int, min_y: int, x: int, y: int, px: int, py: int) -> bool {
    &&& min_x <= px < max_x
    &&& (min_y <= py < y || (py == y && px < x))
}

/// The state of one pixel during a scan: drawn where `done`, untouched elsewhere.
pub open spec fn pixel_status<F: Fn(Fragment) -> u32>(
    before: Framebuffer,
    after: Framebuffer,
    a: ScreenVertex,
    b: ScreenVertex,
    c: ScreenVertex,
    shade: F,
    px: int,
    py: int,
    done: bool,
) -> bool {
    if done {
        pixel_drawn(before, after, a, b, c, shade, px, py)
    } else {
        let i = before.index(px, py);
        &&& after.zbuffer@[i] == before.zbuffer@[i]
        &&& after.buffer@[i] == before.buffer@[i]
    }
}

/// A framebuffer left as it was satisfies `drawn` when the triangle covers no
/// pixel of the image.
proof fn lemma_untouched_is_drawn<F: Fn(Fragment) -> u32>(
    fb: Framebuffer,
    a: ScreenVertex,
    b: ScreenVertex,
    c: ScreenVertex,
    shade: F,
)
    requires
        fb.wf(),
        forall|px: int, py: int| fb.contains(px, py) ==> !covers(a, b, c, px, py),
    ensures
        drawn(fb, fb, a, b, c, shade),
{
    assert forall|px: int, py: int| fb.contains(px, py) implies #[trigger] pixel_drawn(fb, fb, a, b, c, shade, px, py) by {
        assert(!covers(a, b, c, px, py));
    }
}

/// Draws triangle abc: every pixel of the image that the triangle covers and
/// where its interpolated depth is strictly below the stored depth gets that
/// depth and the colour that `shade` returns for the fragment. Degenerate
/// triangles and triangles off the image leave the framebuffer as it is.
pub fn rasterize_triangle<F: Fn(Fragment) -> u32>(
    fb: &mut Framebuffer,
    a: ScreenVertex,
    b: ScreenVertex,
    c: ScreenVertex,
    shade: F,
)
    requires
        old(fb).wf(),
        forall|f: Fragment| shade.requires((f,)),
    ensures
        drawn(*old(fb), *final(fb), a, b, c, shade),
{
    let ghost fb0 = *fb;
    let lo_x = min3_i32(a.x, b.x, c.x);
    let hi_x = max3_i32(a.x, b.x, c.x);
    let lo_y = min3_i32(a.y, b.y, c.y);
    let hi_y = max3_i32(a.y, b.y, c.y);
    let width = fb.width;
    let height = fb.height;
    if hi_x < 0 || hi_y < 0 {
        proof {
            assert forall|px: int, py: int| fb0.contains(px, py) implies !covers(a, b, c, px, py) by {
                if covers(a, b, c, px, py) {
                    lemma_covered_in_box(a, b, c, px, py);
                }
            }
            lemma_untouched_is_drawn(fb0, a, b, c, shade);
        }
        return;
    }
    let min_x: usize = if lo_x < 0 { 0 } else { lo_x as usize };
    let min_y: usize = if lo_y < 0 { 0 } else { lo_y as usize };
    let max_x: usize = if (hi_x as usize) < width { hi_x as usize + 1 } else { width };
    let max_y: usize = if (hi_y as usize) < height { hi_y as usize + 1 } else { height };
    let d = signed_area(a, b, c);
    if min_x >= max_x || min_y >= max_y || d == 0 {
        proof {
            assert forall|px: int, py: int| fb0.contains(px, py) implies !covers(a, b, c, px, py) by {
                if covers(a, b, c, px, py) {
                    lemma_covered_in_box(a, b, c, px, py);
                }
            }
            lemma_untouched_is_drawn(fb0, a, b, c, shade);
        }
        return;
    }
    let ar: i128 = if d > 0 { d } else { -d };
    proof {
        lemma_area_positive(a, b, c);
    }
    let mut y: usize = min_y;
    while y < max_y
        invariant
            fb0 == *old(fb),
            fb0.wf(),
            width == fb0.width,
            height == fb0.height,
            min_x < max_x <= width,
            min_y <= y <= max_y <= height,
            lo_x as int == min3(a.x as int, b.x as int, c.x as int),
            hi_x as int == max3(a.x as int, b.x as int, c.x as int),
            lo_y as int == min3(a.y as int, b.y as int, c.y as int),
            hi_y as int == max3(a.y as int, b.y as int, c.y as int),
            lo_x <= min_x,
            max_x <= hi_x + 1,
            lo_y <= min_y,
            max_y <= hi_y + 1,
            d as int == det(a, b, c),
            d != 0,
            ar as int == area(a, b, c),
            0 < ar <= 0x2_0000_0000_0000_0000,
            forall|f: Fragment| shade.requires((f,)),
            fb.wf(),
            fb.width == width,
            fb.height == height,
            fb.background_color == fb0.background_color,
            forall|px: int, py: int|
                fb0.contains(px, py) ==> #[trigger] pixel_status(
                    fb0,
                    *fb,
                    a,
                    b,
                    c,
                    shade,
                    px,
                    py,
                    scanned(min_x as int, max_x as int, min_y as int, min_x as int, y as int, px, py),
                ),
        decreases max_y - y,
    {
        let mut x: usize = min_x;
        while x < max_x
            invariant
                fb0 == *old(fb),
                fb0.wf(),
                width == fb0.width,
                height == fb0.height,
                min_x <= x <= max_x <= width,
                min_y <= y < max_y <= height,
                lo_x as int == min3(a.x as int, b.x as int, c.x as int),
                hi_x as int == max3(a.x as int, b.x as int, c.x as int),
                lo_y as int == min3(a.y as int, b.y as int, c.y as int),
                hi_y as int == max3(a.y as int, b.y as int, c.y as int),
                lo_x <= min_x,
                max_x <= hi_x + 1,
                lo_y <= min_y,
                max_y <= hi_y + 1,
                d as int == det(a, b, c),
                d != 0,
                ar as int == area(a, b, c),
                0 < ar <= 0x2_0000_0000_0000_0000,
                forall|f: Fragment| shade.requires((f,)),
                fb.wf(),
                fb.width == width,
                fb.height == height,
                fb.background_color == fb0.background_color,
                forall|px: int, py: int|
                    fb0.contains(px, py) ==> #[trigger] pixel_status(
                        fb0,
                        *fb,
                        a,
                        b,
                        c,
                        shade,
                        px,
                        py,
                        scanned(min_x as int, max_x as int, min_y as int, x as int, y as int, px, py),
                    ),
            decreases max_x - x,
        {
            let ghost pre = *fb;
            let px = x as i128;
            let py = y as i128;
            let w = pixel_weights(a, b, c, d, px, py);
            proof {
                lemma_cell_in_bounds(width as int, height as int, x as int, y as int);
            }
            let idx = y * width + x;
            if w.0 >= 0 && w.1 >= 0 && w.2 >= 0 {
                let z = interpolate_depth(a, b, c, w, ar, Ghost(x as int), Ghost(y as int));
                if z < fb.zbuffer[idx] {
                    let frag = Fragment { position: (x, y), depth: z, weights: w, area: ar };
                    assert(frag == fragment_at(a, b, c, x as int, y as int));
                    let color = shade(frag);
                    fb.zbuffer.set(idx, z);
                    fb.buffer.set(idx, color);
                }
            }
            proof {
                assert(pixel_status(fb0, pre, a, b, c, shade, x as int, y as int,
                    scanned(min_x as int, max_x as int, min_y as int, x as int, y as int, x as int, y as int)));
                assert forall|qx: int, qy: int| fb0.contains(qx, qy) implies #[trigger] pixel_status(
                    fb0,
                    *fb,
                    a,
                    b,
                    c,
                    shade,
                    qx,
                    qy,
                    scanned(min_x as int, max_x as int, min_y as int, x + 1, y as int, qx, qy),
                ) by {
                    assert(pixel_status(fb0, pre, a, b, c, shade, qx, qy,
                        scanned(min_x as int, max_x as int, min_y as int, x as int, y as int, qx, qy)));
                    if qx != x || qy != y {
                        lemma_cell_in_bounds(width as int, height as int, qx, qy);
                        if cell(width as int, qx, qy) == cell(width as int, x as int, y as int) {
                            lemma_cell_injective(width as int, qx, qy, x as int, y as int);
                        }
                    }
                }
            }
            x = x + 1;
        }
        proof {
            assert forall|qx: int, qy: int| fb0.contains(qx, qy) implies #[trigger] pixel_status(
                fb0,
                *fb,
                a,
                b,
                c,
                shade,
                qx,
                qy,
                scanned(min_x as int, max_x as int, min_y as int, min_x as int, y + 1, qx, qy),
            ) by {
                assert(pixel_status(fb0, *fb, a, b, c, shade, qx, qy,
                    scanned(min_x as int, max_x as int, min_y as int, x as int, y as int, qx, qy)));
            }
        }
        y = y + 1;
    }
    proof {
        assert forall|qx: int, qy: int| fb0.contains(qx, qy) implies #[trigger] pixel_drawn(fb0, *fb, a, b, c, shade, qx, qy) by {
            assert(pixel_status(fb0, *fb, a, b, c, shade, qx, qy,
                scanned(min_x as int, max_x as int, min_y as int, min_x as int, y as int, qx, qy)));
            if !scanned(min_x as int, max_x as int, min_y as int, min_x as int, y as int, qx, qy) {
                if covers(a, b, c, qx, qy) {
                    lemma_covered_in_box(a, b, c, qx, qy);
                }
            }
        }
    }
}

} // verus!
