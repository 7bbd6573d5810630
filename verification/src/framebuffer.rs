use vstd::prelude::*;
use crate::color::{Rgba, rgba};

verus! {

/// The colour stored for pixel (x, y) of a row-major RGBA8 buffer `w`
/// pixels wide: four bytes from offset `(y * w + x) * 4`.
pub open spec fn pixel_at(bytes: Seq<u8>, w: int, x: int, y: int) -> Rgba {
    let i = (y * w + x) * 4;
    Rgba { r: bytes[i], g: bytes[i + 1], b: bytes[i + 2], a: bytes[i + 3] }
}

/// A pixel buffer in memory (RGBA8, four bytes per pixel, row by row),
/// written directly instead of through a drawing library call per pixel;
/// the window uploads it as a texture once per frame.
pub struct Framebuffer {
    width: i32,
    height: i32,
    pixels: Vec<u8>,
    background_color: Rgba,
    current_color: Rgba,
}

proof fn lemma_offset(w: int, h: int, x: int, y: int)
    by (nonlinear_arith)
    requires
        0 <= x < w,
        0 <= y < h,
    ensures
        0 <= y * w + x < w * h,
        0 <= (y * w + x) * 4,
        (y * w + x) * 4 + 3 < w * h * 4,
{
    assert(y * w <= (h - 1) * w);
}

proof fn lemma_offsets_distinct(w: int, x: int, y: int, qx: int, qy: int)
    by (nonlinear_arith)
    requires
        0 <= x < w,
        0 <= qx < w,
        0 <= y,
        0 <= qy,
        x != qx || y != qy,
    ensures
        y * w + x != qy * w + qx,
{
    if y < qy {
        assert(y * w + w <= qy * w);
    } else if qy < y {
        assert(qy * w + w <= y * w);
    }
}

impl Framebuffer {
    pub closed spec fn w(&self) -> int {
        self.width as int
    }

    pub closed spec fn h(&self) -> int {
        self.height as int
    }

    pub closed spec fn bytes(&self) -> Seq<u8> {
        self.pixels@
    }

    pub closed spec fn background(&self) -> Rgba {
        self.background_color
    }

    pub closed spec fn current(&self) -> Rgba {
        self.current_color
    }

    /// The buffer holds exactly four bytes per pixel, and its size fits the
    /// 32-bit coordinates it is addressed with.
    pub closed spec fn wf(&self) -> bool {
        &&& 0 <= self.width
        &&& 0 <= self.height
        &&& self.width * self.height * 4 <= i32::MAX
        &&& self.pixels@.len() == self.width * self.height * 4
    }

    pub open spec fn in_bounds(&self, x: int, y: int) -> bool {
        0 <= x < self.w() && 0 <= y < self.h()
    }

    pub open spec fn pixel(&self, x: int, y: int) -> Rgba {
        pixel_at(self.bytes(), self.w(), x, y)
    }

    /// A `width` by `height` buffer, all black, drawing in white.
    pub fn new(width: i32, height: i32) -> (fb: Self)
        requires
            0 <= width,
            0 <= height,
            width * height * 4 <= i32::MAX,
        ensures
            fb.wf(),
            fb.w() == width,
            fb.h() == height,
            fb.background() == rgba(0, 0, 0, 255),
            fb.current() == rgba(255, 255, 255, 255),
            forall|x: int, y: int| fb.in_bounds(x, y) ==> fb.pixel(x, y) == rgba(0, 0, 0, 255),
    {
        let background_color = Rgba::black();
        let n = (width as usize) * (height as usize) * 4;
        let mut pixels: Vec<u8> = Vec::new();
        let mut i: usize = 0;
        while i < n
            invariant
                i <= n,
                pixels@.len() == i,
                forall|k: int| 0 <= k < i ==> #[trigger] pixels@[k] == (if k % 4 == 3 { 255u8 } else { 0u8 }),
            decreases n - i,
        {
            if i % 4 == 3 {
                pixels.push(255);
            } else {
                pixels.push(0);
            }
            i = i + 1;
        }
        let fb = Framebuffer {
            width,
            height,
            pixels,
            background_color,
            current_color: Rgba::white(),
        };
        proof {
            assert forall|x: int, y: int| fb.in_bounds(x, y) implies fb.pixel(x, y) == rgba(0, 0, 0, 255) by {
                lemma_offset(width as int, height as int, x, y);
                let b = (y * width + x) * 4;
                assert(b % 4 == 0);
                assert((b + 1) % 4 == 1);
                assert((b + 2) % 4 == 2);
                assert((b + 3) % 4 == 3);
            }
        }
        fb
    }

    pub fn width(&self) -> (w: i32)
        ensures
            w == self.w(),
    {
        self.width
    }

    pub fn height(&self) -> (h: i32)
        ensures
            h == self.h(),
    {
        self.height
    }

    /// The colour the next drawing uses.
    pub fn current_color(&self) -> (c: Rgba)
        ensures
            c == self.current(),
    {
        self.current_color
    }

    /// The raw RGBA bytes, row by row, ready to upload.
    pub fn as_bytes(&self) -> (b: &[u8])
        ensures
            b@ == self.bytes(),
    {
        self.pixels.as_slice()
    }

    pub fn set_background_color(&mut self, color: Rgba)
        requires
            old(self).wf(),
        ensures
            final(self).wf(),
            final(self).background() == color,
            final(self).current() == old(self).current(),
            final(self).w() == old(self).w(),
            final(self).h() == old(self).h(),
            final(self).bytes() == old(self).bytes(),
    {
        self.background_color = color;
    }

    pub fn set_current_color(&mut self, color: Rgba)
        requires
            old(self).wf(),
        ensures
            final(self).wf(),
            final(self).current() == color,
            final(self).background() == old(self).background(),
            final(self).w() == old(self).w(),
            final(self).h() == old(self).h(),
            final(self).bytes() == old(self).bytes(),
    {
        self.current_color = color;
    }

    /// Offset of the first byte of pixel (x, y).
    fn index_of(&self, x: usize, y: usize) -> (i: usize)
        requires
            self.wf(),
            x < self.w(),
            y < self.h(),
        ensures
            i == (y * self.w() + x) * 4,
            i + 3 < self.bytes().len(),
    {
        proof {
            lemma_offset(self.width as int, self.height as int, x as int, y as int);
        }
        (y * (self.width as usize) + x) * 4
    }

    /// Stores `color` at pixel (x, y), touching no other pixel.
    fn write_color(&mut self, x: usize, y: usize, color: Rgba)
        requires
            old(self).wf(),
            x < old(self).w(),
            y < old(self).h(),
        ensures
            final(self).wf(),
            final(self).w() == old(self).w(),
            final(self).h() == old(self).h(),
            final(self).background() == old(self).background(),
            final(self).current() == old(self).current(),
            final(self).pixel(x as int, y as int) == color,
            forall|px: int, py: int|
                old(self).in_bounds(px, py) && (px != x || py != y) ==> #[trigger] final(self).pixel(px, py)
                    == old(self).pixel(px, py),
    {
        let i = self.index_of(x, y);
        self.pixels.set(i, color.r);
        self.pixels.set(i + 1, color.g);
        self.pixels.set(i + 2, color.b);
        self.pixels.set(i + 3, color.a);
        proof {
            let w = self.width as int;
            assert forall|px: int, py: int|
                old(self).in_bounds(px, py) && (px != x || py != y) implies #[trigger] self.pixel(px, py)
                    == old(self).pixel(px, py) by {
                lemma_offsets_distinct(w, x as int, y as int, px, py);
                lemma_offset(w, self.height as int, px, py);
            }
        }
    }

    /// Paints pixel (x, y) with the current colour; a point outside the
    /// buffer is ignored.
    pub fn set_pixel(&mut self, x: i32, y: i32)
        requires
            old(self).wf(),
        ensures
            final(self).wf(),
            final(self).w() == old(self).w(),
            final(self).h() == old(self).h(),
            final(self).background() == old(self).background(),
            final(self).current() == old(self).current(),
            forall|px: int, py: int| old(self).in_bounds(px, py) ==> #[trigger] final(self).pixel(px, py) == (if px == x && py == y {
                old(self).current()
            } else {
                old(self).pixel(px, py)
            }),
    {
        if x < 0 || y < 0 || x >= self.width || y >= self.height {
            return;
        }
        let c = self.current_color;
        self.write_color(x as usize, y as usize, c);
    }

    /// Fills the whole buffer with the background colour.
    pub fn clear(&mut self)
        requires
            old(self).wf(),
        ensures
            final(self).wf(),
            final(self).w() == old(self).w(),
            final(self).h() == old(self).h(),
            final(self).background() == old(self).background(),
            final(self).current() == old(self).current(),
            forall|px: int, py: int| old(self).in_bounds(px, py) ==> #[trigger] final(self).pixel(px, py) == old(self).background(),
    {
        let c = self.background_color;
        let w = self.width as usize;
        let h = self.height as usize;
        self.paint_block(0, 0, w, h, c);
    }

    /// Paints the pixels of columns `x0..x1` and rows `y0..y1` with
    /// `color`, leaving every other pixel as it was.
    fn paint_block(&mut self, x0: usize, y0: usize, x1: usize, y1: usize, color: Rgba)
        requires
            old(self).wf(),
            x0 <= x1 <= old(self).w(),
            y0 <= y1 <= old(self).h(),
        ensures
            final(self).wf(),
            final(self).w() == old(self).w(),
            final(self).h() == old(self).h(),
            final(self).background() == old(self).background(),
            final(self).current() == old(self).current(),
            forall|px: int, py: int| old(self).in_bounds(px, py) ==> #[trigger] final(self).pixel(px, py) == (if x0 <= px < x1
                && y0 <= py < y1 {
                color
            } else {
                old(self).pixel(px, py)
            }),
    {
        let mut row = y0;
        while row < y1
            invariant
                self.wf(),
                self.w() == old(self).w(),
                self.h() == old(self).h(),
                self.background() == old(self).background(),
                self.current() == old(self).current(),
                x0 <= x1 <= self.w(),
                y0 <= row <= y1 <= self.h(),
                forall|px: int, py: int| self.in_bounds(px, py) ==> #[trigger] self.pixel(px, py) == (if x0 <= px < x1
                    && y0 <= py < row {
                    color
                } else {
                    old(self).pixel(px, py)
                }),
            decreases y1 - row,
        {
            let mut col = x0;
            while col < x1
                invariant
                    self.wf(),
                    self.w() == old(self).w(),
                    self.h() == old(self).h(),
                    self.background() == old(self).background(),
                    self.current() == old(self).current(),
                    x0 <= col <= x1 <= self.w(),
                    y0 <= row < y1 <= self.h(),
                    forall|px: int, py: int| self.in_bounds(px, py) ==> #[trigger] self.pixel(px, py) == (if (x0 <= px < x1
                        && y0 <= py < row) || (py == row && x0 <= px < col) {
                        color
                    } else {
                        old(self).pixel(px, py)
                    }),
                decreases x1 - col,
            {
                self.write_color(col, row, color);
                col = col + 1;
            }
            row = row + 1;
        }
    }

    /// Fills a rectangle with the current colour, clipped to the buffer.
    pub fn fill_rect(&mut self, x: i32, y: i32, width: i32, height: i32)
        requires
            old(self).wf(),
            width > 0 ==> x + width <= i32::MAX,
            height > 0 ==> y + height <= i32::MAX,
        ensures
            final(self).wf(),
            final(self).w() == old(self).w(),
            final(self).h() == old(self).h(),
            final(self).background() == old(self).background(),
            final(self).current() == old(self).current(),
            forall|px: int, py: int| old(self).in_bounds(px, py) ==> #[trigger] final(self).pixel(px, py) == (if width > 0
                && height > 0 && x <= px < x + width && y <= py < y + height {
                old(self).current()
            } else {
                old(self).pixel(px, py)
            }),
    {
        if width <= 0 || height <= 0 {
            return;
        }
        let x0 = if x > 0 { x } else { 0 };
        let y0 = if y > 0 { y } else { 0 };
        let x1 = if x + width < self.width { x + width } else { self.width };
        let y1 = if y + height < self.height { y + height } else { self.height };
        if x1 <= x0 || y1 <= y0 {
            return;
        }
        let c = self.current_color;
        self.paint_block(x0 as usize, y0 as usize, x1 as usize, y1 as usize, c);
    }
}

} // verus!
