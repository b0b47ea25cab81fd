use vstd::prelude::*;

verus! {

/// The depth of a cell that nothing has been drawn into: it stands for +infinity.
/// A fragment is drawn into such a cell only when its depth is below
/// `FAR_DEPTH`, so a depth equal to it is never drawn there.
pub const FAR_DEPTH: i32 = 2147483647;

/// Where pixel (x, y) lies in a row-major buffer of rows `width` cells long.
pub open spec fn cell(width: int, x: int, y: int) -> int {
    y * width + x
}

/// A cell of a `width` x `height` grid lies inside its row-major buffer.
pub proof fn lemma_cell_in_bounds(width: int, height: int, x: int, y: int)
    requires
        0 <= x < width,
        0 <= y < height,
    ensures
        0 <= cell(width, x, y) < width * height,
        cell(width, x, y) + 1 <= width * height,
{
    assert(0 <= y * width) by (nonlinear_arith)
        requires
            0 <= y,
            0 <= width,
    ;
    assert(y * width + x < width * height) by (nonlinear_arith)
        requires
            0 <= x < width,
            0 <= y < height,
    ;
}

/// Two distinct pixels of a grid occupy distinct cells.
pub proof fn lemma_cell_injective(width: int, x1: int, y1: int, x2: int, y2: int)
    requires
        0 <= x1 < width,
        0 <= x2 < width,
        0 <= y1,
        0 <= y2,
        cell(width, x1, y1) == cell(width, x2, y2),
    ensures
        x1 == x2,
        y1 == y2,
{
    if y1 < y2 {
        assert(y1 * width + width <= y2 * width) by (nonlinear_arith)
            requires
                y1 < y2,
                0 <= width,
        ;
    } else if y2 < y1 {
        assert(y2 * width + width <= y1 * width) by (nonlinear_arith)
            requires
                y2 < y1,
                0 <= width,
        ;
    }
}

/// Every cell of a grid's buffer belongs to exactly the pixel given by the
/// remainder and the quotient of its position by the row length.
pub proof fn lemma_cell_of_index(width: int, height: int, i: int)
    requires
        0 < width,
        0 <= i < width * height,
    ensures
        0 <= i % width < width,
        0 <= i / width < height,
        cell(width, i % width, i / width) == i,
{
    vstd::arithmetic::div_mod::lemma_fundamental_div_mod(i, width);
    vstd::arithmetic::div_mod::lemma_mod_pos_bound(i, width);
    vstd::arithmetic::div_mod::lemma_div_pos_is_pos(i, width);
    let q = i / width;
    let r = i % width;
    assert(q < height) by (nonlinear_arith)
        requires
            i == width * q + r,
            0 <= r,
            0 < width,
            i < width * height,
    ;
    vstd::arithmetic::mul::lemma_mul_is_commutative(q, width);
}

/// The colour and depth buffers of a fixed-size output image.
///
/// `buffer` holds one packed 0xRRGGBB value per pixel, `zbuffer` one depth per
/// pixel (smaller is nearer), both in row-major order.
pub struct Framebuffer {
    pub width: usize,
    pub height: usize,
    pub buffer: Vec<u32>,
    pub zbuffer: Vec<i32>,
    pub background_color: u32,
}

impl Framebuffer {
    /// Both buffers hold exactly one cell per pixel.
    pub open spec fn wf(&self) -> bool {
        &&& self.width * self.height <= usize::MAX
        &&& self.buffer@.len() == self.width * self.height
        &&& self.zbuffer@.len() == self.width * self.height
    }

    /// The buffer position of pixel (x, y).
    pub open spec fn index(&self, x: int, y: int) -> int {
        cell(self.width as int, x, y)
    }

    /// Pixel (x, y) lies on the image.
    pub open spec fn contains(&self, x: int, y: int) -> bool {
        0 <= x < self.width && 0 <= y < self.height
    }

    /// Allocates a black image of the given size with every depth at `FAR_DEPTH`
    /// and a black background.
    pub fn new(width: usize, height: usize) -> (fb: Framebuffer)
        requires
            width * height <= usize::MAX,
        ensures
            fb.wf(),
            fb.width == width,
            fb.height == height,
            fb.background_color == 0,
            forall|i: int| 0 <= i < fb.buffer@.len() ==> fb.buffer@[i] == 0,
            forall|i: int| 0 <= i < fb.zbuffer@.len() ==> fb.zbuffer@[i] == FAR_DEPTH,
    {
        let n: usize = width * height;
        let mut buffer: Vec<u32> = Vec::new();
        let mut zbuffer: Vec<i32> = Vec::new();
        let mut k: usize = 0;
        while k < n
            invariant
                k <= n,
                buffer@.len() == k,
                zbuffer@.len() == k,
                forall|i: int| 0 <= i < k ==> buffer@[i] == 0,
                forall|i: int| 0 <= i < k ==> zbuffer@[i] == FAR_DEPTH,
            decreases n - k,
        {
            buffer.push(0);
            zbuffer.push(FAR_DEPTH);
            k = k + 1;
        }
        Framebuffer { width, height, buffer, zbuffer, background_color: 0 }
    }

    /// Resets every pixel to the background colour and every depth to `FAR_DEPTH`.
    pub fn clear(&mut self)
        requires
            old(self).wf(),
        ensures
            final(self).wf(),
            final(self).width == old(self).width,
            final(self).height == old(self).height,
            final(self).background_color == old(self).background_color,
            forall|i: int|
                0 <= i < final(self).buffer@.len() ==> final(self).buffer@[i]
                    == old(self).background_color,
            forall|i: int| 0 <= i < final(self).zbuffer@.len() ==> final(self).zbuffer@[i] == FAR_DEPTH,
    {
        let n: usize = self.buffer.len();
        let mut k: usize = 0;
        while k < n
            invariant
                k <= n,
                self.wf(),
                self.buffer@.len() == n,
                self.width == old(self).width,
                self.height == old(self).height,
                self.background_color == old(self).background_color,
                forall|i: int| 0 <= i < k ==> self.buffer@[i] == old(self).background_color,
                forall|i: int| 0 <= i < k ==> self.zbuffer@[i] == FAR_DEPTH,
            decreases n - k,
        {
            let bg = self.background_color;
            self.buffer.set(k, bg);
            self.zbuffer.set(k, FAR_DEPTH);
            k = k + 1;
        }
    }

    /// Writes a colour at (x, y) with no depth test; a pixel off the image is
    /// ignored.
    pub fn point(&mut self, x: usize, y: usize, color: u32)
        requires
            old(self).wf(),
        ensures
            final(self).wf(),
            final(self).width == old(self).width,
            final(self).height == old(self).height,
            final(self).background_color == old(self).background_color,
            final(self).zbuffer@ == old(self).zbuffer@,
            final(self).buffer@ == if old(self).contains(x as int, y as int) {
                old(self).buffer@.update(old(self).index(x as int, y as int), color)
            } else {
                old(self).buffer@
            },
    {
        if x < self.width && y < self.height {
            proof {
                lemma_cell_in_bounds(self.width as int, self.height as int, x as int, y as int);
            }
            let index = y * self.width + x;
            self.buffer.set(index, color);
        }
    }

    /// Writes a colour and depth at (x, y) when `depth` is strictly below the depth
    /// stored there; otherwise, or off the image, nothing changes. On equal depths
    /// the pixel drawn first stays.
    pub fn point_with_depth(&mut self, x: usize, y: usize, depth: i32, color: u32)
        requires
            old(self).wf(),
        ensures
            final(self).wf(),
            final(self).width == old(self).width,
            final(self).height == old(self).height,
            final(self).background_color == old(self).background_color,
            ({
                let i = old(self).index(x as int, y as int);
                if old(self).contains(x as int, y as int) && depth < old(self).zbuffer@[i] {
                    &&& final(self).buffer@ == old(self).buffer@.update(i, color)
                    &&& final(self).zbuffer@ == old(self).zbuffer@.update(i, depth)
                } else {
                    &&& final(self).buffer@ == old(self).buffer@
                    &&& final(self).zbuffer@ == old(self).zbuffer@
                }
            }),
    {
        if x < self.width && y < self.height {
            proof {
                lemma_cell_in_bounds(self.width as int, self.height as int, x as int, y as int);
            }
            let index = y * self.width + x;
            if depth < self.zbuffer[index] {
                self.zbuffer.set(index, depth);
                self.buffer.set(index, color);
            }
        }
    }

    /// Sets the colour that the next `clear` fills the image with.
    pub fn set_background_color(&mut self, color: u32)
        requires
            old(self).wf(),
        ensures
            final(self).wf(),
            final(self).width == old(self).width,
            final(self).height == old(self).height,
            final(self).buffer@ == old(self).buffer@,
            final(self).zbuffer@ == old(self).zbuffer@,
            final(self).background_color == color,
    {
        self.background_color = color;
    }
}

} // verus!
