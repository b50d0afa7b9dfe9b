use crate::color::{spec_black, Rgb};
use vstd::prelude::*;

verus! {

/// Byte offset of the pixel at `(x, y)` in a row-major RGB buffer of width `w`.
pub open spec fn pix_start(w: int, x: int, y: int) -> int {
    3 * (y * w + x)
}

/// The output pixel buffer: `width * height` pixels of 3 bytes each, in
/// row-major order. The byte length always equals `width * height * 3`.
pub struct Canvas {
    width: u32,
    height: u32,
    data: Vec<u8>,
}

pub proof fn lemma_cell_index_injective(w: int, x1: int, y1: int, x2: int, y2: int)
    requires
        0 <= x1 < w,
        0 <= x2 < w,
        0 <= y1,
        0 <= y2,
        !(x1 == x2 && y1 == y2),
    ensures
        y1 * w + x1 != y2 * w + x2,
{
    if y1 != y2 {
        assert(y1 * w + x1 != y2 * w + x2) by (nonlinear_arith)
            requires
                0 <= x1 < w,
                0 <= x2 < w,
                y1 != y2,
        ;
    }
}

pub proof fn lemma_pix_in_range(w: int, h: int, x: int, y: int)
    requires
        0 <= x < w,
        0 <= y < h,
    ensures
        0 <= pix_start(w, x, y),
        pix_start(w, x, y) + 2 < 3 * (w * h),
{
    assert(0 <= y * w + x && y * w + x < w * h) by (nonlinear_arith)
        requires
            0 <= x < w,
            0 <= y < h,
    ;
}

pub proof fn lemma_canvas_dims(c: Canvas)
    ensures
        0 <= c.spec_width() <= u32::MAX,
        0 <= c.spec_height() <= u32::MAX,
{
}

impl Canvas {
    /// The raw bytes of the buffer.
    pub closed spec fn pixels(&self) -> Seq<u8> {
        self.data@
    }

    pub closed spec fn spec_width(&self) -> int {
        self.width as int
    }

    pub closed spec fn spec_height(&self) -> int {
        self.height as int
    }

    /// The buffer holds exactly 3 bytes for each of its pixels.
    pub open spec fn wf(&self) -> bool {
        self.pixels().len() == 3 * (self.spec_width() * self.spec_height())
    }

    /// The color of the pixel at `(x, y)`.
    pub open spec fn spec_pixel(&self, x: int, y: int) -> Rgb {
        Rgb {
            r: self.pixels()[pix_start(self.spec_width(), x, y)],
            g: self.pixels()[pix_start(self.spec_width(), x, y) + 1],
            b: self.pixels()[pix_start(self.spec_width(), x, y) + 2],
        }
    }

    pub open spec fn in_bounds(&self, x: int, y: int) -> bool {
        0 <= x < self.spec_width() && 0 <= y < self.spec_height()
    }

    pub fn width(&self) -> (w: u32)
        ensures
            w == self.spec_width(),
    {
        self.width
    }

    pub fn height(&self) -> (h: u32)
        ensures
            h == self.spec_height(),
    {
        self.height
    }

    /// The buffer bytes, for an encoder to consume.
    pub fn bytes(&self) -> (out: &Vec<u8>)
        ensures
            out@ == self.pixels(),
    {
        &self.data
    }

    /// The byte length of the buffer: always `width * height * 3`.
    pub fn byte_length(&self) -> (n: usize)
        requires
            self.wf(),
        ensures
            n == 3 * (self.spec_width() * self.spec_height()),
    {
        self.data.len()
    }

    /// A black canvas of the given dimensions.
    pub fn new(width: u32, height: u32) -> (out: Canvas)
        requires
            3 * (width as int * height as int) <= usize::MAX,
        ensures
            out.wf(),
            out.spec_width() == width,
            out.spec_height() == height,
            forall|x: int, y: int| out.in_bounds(x, y) ==> out.spec_pixel(x, y) == spec_black(),
    {
        proof {
            assert(width as int * height as int >= 0) by (nonlinear_arith)
                requires
                    width >= 0,
                    height >= 0,
            ;
        }
        let total: usize = 3 * ((width as usize) * (height as usize));
        let mut data: Vec<u8> = Vec::new();
        let mut i: usize = 0;
        while i < total
            invariant
                i <= total,
                data@.len() == i,
                forall|j: int| 0 <= j < i ==> data@[j] == 0u8,
            decreases total - i,
        {
            data.push(0u8);
            i = i + 1;
        }
        let out = Canvas { width, height, data };
        proof {
            assert forall|x: int, y: int| out.in_bounds(x, y) implies out.spec_pixel(x, y)
                == spec_black() by {
                lemma_pix_in_range(width as int, height as int, x, y);
            }
        }
        out
    }

    /// Writes one pixel; writes outside the canvas are silently skipped.
    pub fn put_pixel(&mut self, x: u64, y: u64, c: Rgb)
        requires
            old(self).wf(),
        ensures
            final(self).wf(),
            final(self).spec_width() == old(self).spec_width(),
            final(self).spec_height() == old(self).spec_height(),
            forall|px: int, py: int|
                final(self).in_bounds(px, py) ==> final(self).spec_pixel(px, py) == (if px == x
                    && py == y {
                    c
                } else {
                    old(self).spec_pixel(px, py)
                }),
    {
        if x < self.width as u64 && y < self.height as u64 {
            let ghost w = self.spec_width();
            let ghost h = self.spec_height();
            let n: usize = self.data.len();
            proof {
                lemma_pix_in_range(w, h, x as int, y as int);
                assert(3 * (w * h) == n);
            }
            let idx: usize = 3 * ((y as usize) * (self.width as usize) + (x as usize));
            assert(idx == pix_start(w, x as int, y as int));
            self.data.set(idx, c.r);
            self.data.set(idx + 1, c.g);
            self.data.set(idx + 2, c.b);
            proof {
                assert forall|px: int, py: int|
                    self.in_bounds(px, py) implies self.spec_pixel(px, py) == (if px == x && py
                    == y {
                    c
                } else {
                    old(self).spec_pixel(px, py)
                }) by {
                    lemma_pix_in_range(w, h, px, py);
                    if !(px == x && py == y) {
                        lemma_cell_index_injective(w, px, py, x as int, y as int);
                    }
                }
            }
        }
    }

    /// Reads one pixel.
    pub fn get_pixel(&self, x: u32, y: u32) -> (c: Rgb)
        requires
            self.wf(),
            self.in_bounds(x as int, y as int),
        ensures
            c == self.spec_pixel(x as int, y as int),
    {
        let n: usize = self.data.len();
        proof {
            lemma_pix_in_range(self.spec_width(), self.spec_height(), x as int, y as int);
            assert(3 * (self.spec_width() * self.spec_height()) == n);
        }
        let idx: usize = 3 * ((y as usize) * (self.width as usize) + (x as usize));
        Rgb { r: self.data[idx], g: self.data[idx + 1], b: self.data[idx + 2] }
    }

    /// Fills the rectangle of `rw` by `rh` pixels whose top-left corner is
    /// `(x0, y0)` with one color, clipped to the canvas.
    pub fn fill_rect(&mut self, x0: u64, y0: u64, rw: u64, rh: u64, c: Rgb)
        requires
            old(self).wf(),
        ensures
            final(self).wf(),
            final(self).spec_width() == old(self).spec_width(),
            final(self).spec_height() == old(self).spec_height(),
            forall|px: int, py: int|
                final(self).in_bounds(px, py) ==> final(self).spec_pixel(px, py) == (if x0 <= px
                    < x0 + rw && y0 <= py < y0 + rh {
                    c
                } else {
                    old(self).spec_pixel(px, py)
                }),
    {
        let mut dy: u64 = 0;
        while dy < rh
            invariant
                self.wf(),
                self.spec_width() == old(self).spec_width(),
                self.spec_height() == old(self).spec_height(),
                dy <= rh,
                forall|px: int, py: int|
                    self.in_bounds(px, py) ==> self.spec_pixel(px, py) == (if x0 <= px < x0 + rw
                        && y0 <= py < y0 + dy {
                        c
                    } else {
                        old(self).spec_pixel(px, py)
                    }),
            decreases rh - dy,
        {
            if y0 <= u64::MAX - dy && y0 + dy < self.height as u64 {
                let py: u64 = y0 + dy;
                let ghost prev = *self;
                let mut dx: u64 = 0;
                while dx < rw
                    invariant
                        self.wf(),
                        self.spec_width() == prev.spec_width(),
                        self.spec_height() == prev.spec_height(),
                        dx <= rw,
                        py == y0 + dy,
                        py < self.spec_height(),
                        forall|qx: int, qy: int|
                            self.in_bounds(qx, qy) ==> self.spec_pixel(qx, qy) == (if x0 <= qx < x0
                                + dx && qy == py {
                                c
                            } else {
                                prev.spec_pixel(qx, qy)
                            }),
                    decreases rw - dx,
                {
                    if x0 <= u64::MAX - dx {
                        self.put_pixel(x0 + dx, py, c);
                    }
                    dx = dx + 1;
                }
            }
            dy = dy + 1;
        }
    }
}


/// Two canvases of the same geometry whose pixels agree everywhere hold
/// the same bytes.
pub proof fn lemma_canvas_pixels_eq(a: Canvas, b: Canvas)
    requires
        a.wf(),
        b.wf(),
        a.spec_width() == b.spec_width(),
        a.spec_height() == b.spec_height(),
        forall|x: int, y: int| a.in_bounds(x, y) ==> a.spec_pixel(x, y) == b.spec_pixel(x, y),
    ensures
        a.pixels() == b.pixels(),
{
    let w = a.spec_width();
    let h = a.spec_height();
    assert forall|i: int| 0 <= i < a.pixels().len() implies a.pixels()[i] == b.pixels()[i] by {
        vstd::arithmetic::div_mod::lemma_fundamental_div_mod(i, 3);
        vstd::arithmetic::div_mod::lemma_mod_division_less_than_divisor(i, 3);
        let p = i / 3;
        let ch = i % 3;
        assert(w >= 1 && h >= 1) by (nonlinear_arith)
            requires
                0 <= i < 3 * (w * h),
                i == 3 * p + ch,
                0 <= ch < 3,
                0 <= w,
                0 <= h,
        ;
        vstd::arithmetic::div_mod::lemma_fundamental_div_mod(p, w);
        vstd::arithmetic::div_mod::lemma_mod_division_less_than_divisor(p, w);
        let py = p / w;
        let px = p % w;
        assert(0 <= p < w * h) by (nonlinear_arith)
            requires
                0 <= i < 3 * (w * h),
                i == 3 * p + ch,
                0 <= ch < 3,
        ;
        assert(0 <= py < h) by (nonlinear_arith)
            requires
                0 <= p < w * h,
                p == w * py + px,
                0 <= px < w,
        ;
        assert(i == pix_start(w, px, py) + ch);
        lemma_pix_in_range(w, h, px, py);
        assert(a.spec_pixel(px, py) == b.spec_pixel(px, py));
    }
    assert(a.pixels() =~= b.pixels());
}

impl Canvas {
    /// Copies a `w` by `h` pixel rectangle out of `src` (whose top-left
    /// source corner is `(src_x, src_y)`) to `(dst_x, dst_y)` on this
    /// canvas, clipped to this canvas.
    pub fn copy_rect(
        &mut self,
        src: &Canvas,
        dst_x: u64,
        dst_y: u64,
        src_x: u32,
        src_y: u32,
        w: u32,
        h: u32,
    )
        requires
            old(self).wf(),
            src.wf(),
            src_x + w <= src.spec_width(),
            src_y + h <= src.spec_height(),
        ensures
            final(self).wf(),
            final(self).spec_width() == old(self).spec_width(),
            final(self).spec_height() == old(self).spec_height(),
            forall|px: int, py: int|
                final(self).in_bounds(px, py) ==> final(self).spec_pixel(px, py) == (if dst_x <= px
                    < dst_x + w && dst_y <= py < dst_y + h {
                    src.spec_pixel(src_x + (px - dst_x), src_y + (py - dst_y))
                } else {
                    old(self).spec_pixel(px, py)
                }),
    {
        let mut dy: u32 = 0;
        while dy < h
            invariant
                self.wf(),
                self.spec_width() == old(self).spec_width(),
                self.spec_height() == old(self).spec_height(),
                src.wf(),
                dy <= h,
                src_x + w <= src.spec_width(),
                src_y + h <= src.spec_height(),
                forall|px: int, py: int|
                    self.in_bounds(px, py) ==> self.spec_pixel(px, py) == (if dst_x <= px < dst_x
                        + w && dst_y <= py < dst_y + dy {
                        src.spec_pixel(src_x + (px - dst_x), src_y + (py - dst_y))
                    } else {
                        old(self).spec_pixel(px, py)
                    }),
            decreases h - dy,
        {
            let ghost row_start = *self;
            let mut dx: u32 = 0;
            while dx < w
                invariant
                    self.wf(),
                    self.spec_width() == row_start.spec_width(),
                    self.spec_height() == row_start.spec_height(),
                    src.wf(),
                    dx <= w,
                    dy < h,
                    src_x + w <= src.spec_width(),
                    src_y + h <= src.spec_height(),
                    forall|px: int, py: int|
                        self.in_bounds(px, py) ==> self.spec_pixel(px, py) == (if dst_x <= px
                            < dst_x + dx && py == dst_y + dy {
                            src.spec_pixel(src_x + (px - dst_x), src_y + (py - dst_y))
                        } else {
                            row_start.spec_pixel(px, py)
                        }),
                decreases w - dx,
            {
                let c = src.get_pixel(src_x + dx, src_y + dy);
                let ghost before = *self;
                if dst_x <= u64::MAX - dx as u64 && dst_y <= u64::MAX - dy as u64 {
                    self.put_pixel(dst_x + dx as u64, dst_y + dy as u64, c);
                }
                proof {
                    assert forall|px: int, py: int|
                        self.in_bounds(px, py) implies self.spec_pixel(px, py) == (if dst_x <= px
                        < dst_x + (dx + 1) && py == dst_y + dy {
                        src.spec_pixel(src_x + (px - dst_x), src_y + (py - dst_y))
                    } else {
                        row_start.spec_pixel(px, py)
                    }) by {
                        lemma_canvas_dims(*self);
                        assert(before.spec_pixel(px, py) == (if dst_x <= px < dst_x + dx && py
                            == dst_y + dy {
                            src.spec_pixel(src_x + (px - dst_x), src_y + (py - dst_y))
                        } else {
                            row_start.spec_pixel(px, py)
                        }));
                    }
                }
                dx = dx + 1;
            }
            dy = dy + 1;
        }
    }
}

} // verus!
