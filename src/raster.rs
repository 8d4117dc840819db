//! The source raster and the grid of integer labels that segmentation fills.
use vstd::prelude::*;

verus! {

/// One pixel: red, green, blue and alpha channels.
#[derive(Clone, Copy, Debug, PartialEq, Eq, Structural)]
pub struct Rgba {
    pub r: u8,
    pub g: u8,
    pub b: u8,
    pub a: u8,
}

/// A pixel position `(x, y)`, with `y` growing downwards.
pub type Pixel = (u32, u32);

/// Row-major pixels of an image; a pixel with alpha above zero is opaque.
#[derive(Clone, Debug)]
pub struct Raster {
    pub width: u32,
    pub height: u32,
    pub pixels: Vec<Rgba>,
}

/// Row-major integer labels over the pixels of a raster.
#[derive(Clone, Debug)]
pub struct LabelGrid {
    pub width: u32,
    pub height: u32,
    pub cells: Vec<usize>,
}

/// Position of pixel `(x, y)` in a row-major buffer of rows `w` long.
pub open spec fn idx(w: int, x: int, y: int) -> int {
    y * w + x
}

pub open spec fn in_bounds(w: int, h: int, x: int, y: int) -> bool {
    0 <= x < w && 0 <= y < h
}

/// The dimensions are positive and the buffer holds exactly one entry per
/// pixel, with room to count one past them.
pub open spec fn dims_ok(w: int, h: int, len: int) -> bool {
    w > 0 && h > 0 && len == w * h && len < usize::MAX
}

pub proof fn lemma_idx_bounds(w: int, h: int, x: int, y: int)
    requires
        in_bounds(w, h, x, y),
    ensures
        0 <= idx(w, x, y) < w * h,
{
    assert(0 <= y * w + x < w * h) by (nonlinear_arith)
        requires
            0 <= x < w,
            0 <= y < h,
    ;
}

pub proof fn lemma_idx_injective(w: int, h: int, x1: int, y1: int, x2: int, y2: int)
    requires
        in_bounds(w, h, x1, y1),
        in_bounds(w, h, x2, y2),
        idx(w, x1, y1) == idx(w, x2, y2),
    ensures
        x1 == x2,
        y1 == y2,
{
    if y1 < y2 {
        assert(y1 * w + x1 < y2 * w + x2) by (nonlinear_arith)
            requires
                y1 < y2,
                0 <= x1 < w,
                0 <= x2,
        ;
    } else if y2 < y1 {
        assert(y2 * w + x2 < y1 * w + x1) by (nonlinear_arith)
            requires
                y2 < y1,
                0 <= x2 < w,
                0 <= x1,
        ;
    }
}

/// Every position of a row-major buffer names one pixel.
pub proof fn lemma_idx_onto(w: int, h: int, i: int)
    requires
        w > 0,
        0 <= i < w * h,
    ensures
        in_bounds(w, h, i % w, i / w),
        idx(w, i % w, i / w) == i,
{
    vstd::arithmetic::div_mod::lemma_fundamental_div_mod(i, w);
    vstd::arithmetic::div_mod::lemma_mod_bound(i, w);
    vstd::arithmetic::div_mod::lemma_div_pos_is_pos(i, w);
    let q = i / w;
    assert(q * w == w * q) by (nonlinear_arith);
    if i / w >= h {
        assert(w * (i / w) >= w * h) by (nonlinear_arith)
            requires
                i / w >= h,
                w > 0,
        ;
    }
}

/// Exec index of an in-bounds pixel.
pub fn index_of(w: u32, h: u32, x: u32, y: u32) -> (r: usize)
    requires
        x < w,
        y < h,
        w * h < usize::MAX,
    ensures
        r == idx(w as int, x as int, y as int),
        r < w * h,
{
    proof {
        lemma_idx_bounds(w as int, h as int, x as int, y as int);
    }
    y as usize * w as usize + x as usize
}

impl Raster {
    pub open spec fn wf(&self) -> bool {
        dims_ok(self.width as int, self.height as int, self.pixels@.len() as int)
    }

    /// The pixel at `(x, y)`.
    pub open spec fn at(&self, x: int, y: int) -> Rgba {
        self.pixels@[idx(self.width as int, x, y)]
    }

    /// `(x, y)` lies in the raster and is not transparent.
    pub open spec fn opaque(&self, x: int, y: int) -> bool {
        in_bounds(self.width as int, self.height as int, x, y) && self.at(x, y).a > 0
    }

    /// `(x, y)` lies in the raster and is fully transparent.
    pub open spec fn transparent(&self, x: int, y: int) -> bool {
        in_bounds(self.width as int, self.height as int, x, y) && self.at(x, y).a == 0
    }

    /// A raster of `width` by `height` pixels given row by row; `None` when a
    /// dimension is zero or the pixel count does not match.
    pub fn new(width: u32, height: u32, pixels: Vec<Rgba>) -> (r: Option<Raster>)
        ensures
            r.is_some() == dims_ok(width as int, height as int, pixels@.len() as int),
            r matches Some(raster) ==> raster.width == width && raster.height == height
                && raster.pixels@ == pixels@,
    {
        if width == 0 || height == 0 {
            return None;
        }
        let n = pixels.len();
        if n == usize::MAX || n / width as usize != height as usize || n % width as usize != 0 {
            proof {
                if n == width * height {
                    assert(width * height == height * width) by (nonlinear_arith);
                    vstd::arithmetic::div_mod::lemma_fundamental_div_mod_converse(
                        n as int,
                        width as int,
                        height as int,
                        0,
                    );
                }
            }
            return None;
        }
        proof {
            let (w, h) = (width as int, height as int);
            vstd::arithmetic::div_mod::lemma_fundamental_div_mod(n as int, w);
            assert(n == w * h) by (nonlinear_arith)
                requires
                    n == w * (n as int / w) + n as int % w,
                    n as int / w == h,
                    n as int % w == 0,
            ;
        }
        Some(Raster { width, height, pixels })
    }

    pub fn get_pixel(&self, x: u32, y: u32) -> (r: Rgba)
        requires
            self.wf(),
            x < self.width,
            y < self.height,
        ensures
            r == self.at(x as int, y as int),
    {
        self.pixels[index_of(self.width, self.height, x, y)]
    }

    /// Whether `(x, y)` is an opaque pixel of the raster; false outside it.
    pub fn is_opaque(&self, x: i64, y: i64) -> (r: bool)
        requires
            self.wf(),
        ensures
            r == self.opaque(x as int, y as int),
    {
        if x < 0 || y < 0 || x >= self.width as i64 || y >= self.height as i64 {
            false
        } else {
            self.get_pixel(x as u32, y as u32).a > 0
        }
    }
}

impl Raster {
    /// Whether `(x, y)` is a transparent pixel of the raster; false outside it.
    pub fn is_transparent(&self, x: i64, y: i64) -> (r: bool)
        requires
            self.wf(),
        ensures
            r == self.transparent(x as int, y as int),
    {
        if x < 0 || y < 0 || x >= self.width as i64 || y >= self.height as i64 {
            false
        } else {
            self.get_pixel(x as u32, y as u32).a == 0
        }
    }
}

impl LabelGrid {
    pub open spec fn wf(&self) -> bool {
        dims_ok(self.width as int, self.height as int, self.cells@.len() as int)
    }

    /// The label at `(x, y)`.
    pub open spec fn at(&self, x: int, y: int) -> usize {
        self.cells@[idx(self.width as int, x, y)]
    }
}

} // verus!
