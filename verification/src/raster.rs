//! Rasters of RGBA pixels.
//!
//! A [`Raster`] is a `width x height` grid of 8-bit RGBA pixels stored
//! row-major, the shared data model for the canvas, the resampler and the
//! mesh builder.

use vstd::prelude::*;

verus! {

/// One RGBA pixel with 8-bit channels.
#[derive(Clone, Copy, Debug, PartialEq, Eq, Structural)]
pub struct Pixel {
    pub r: u8,
    pub g: u8,
    pub b: u8,
    pub a: u8,
}

impl Pixel {
    /// Fully opaque black, the initial canvas color.
    pub fn black() -> (p: Pixel)
        ensures
            p == (Pixel { r: 0, g: 0, b: 0, a: 255 }),
    {
        Pixel { r: 0, g: 0, b: 0, a: 255 }
    }
}

/// A grid point `(x, y)` indexes the pixel vector at `y * width + x`; this
/// stays strictly below `width * height`.
pub proof fn lemma_grid_index_in_range(x: int, y: int, width: int, height: int)
    by (nonlinear_arith)
    requires
        0 <= x < width,
        0 <= y < height,
    ensures
        0 <= y * width + x < width * height,
{
}

/// A `width x height` grid of pixels, stored row-major.
#[derive(Clone, Debug, PartialEq, Eq)]
pub struct Raster {
    pub width: usize,
    pub height: usize,
    pub pixels: Vec<Pixel>,
}

impl Raster {
    /// The pixel vector holds exactly one pixel per grid point.
    pub open spec fn wf(self) -> bool {
        self.pixels@.len() == self.width * self.height
    }

    /// Whether `(x, y)` lies on the grid.
    pub open spec fn in_bounds(self, x: int, y: int) -> bool {
        0 <= x < self.width && 0 <= y < self.height
    }

    /// The pixel at grid point `(x, y)`.
    pub open spec fn pixel_at(self, x: int, y: int) -> Pixel
        recommends
            self.wf(),
            self.in_bounds(x, y),
    {
        self.pixels@[y * self.width + x]
    }

    /// A raster filled with one color.
    pub fn new(width: usize, height: usize, fill: Pixel) -> (r: Raster)
        requires
            width * height <= usize::MAX,
        ensures
            r.wf(),
            r.width == width,
            r.height == height,
            forall|x: int, y: int|
                r.in_bounds(x, y) ==> r.pixel_at(x, y) == fill,
    {
        let n = width * height;
        let mut pixels: Vec<Pixel> = Vec::new();
        let mut i: usize = 0;
        while i < n
            invariant
                i <= n,
                pixels@.len() == i,
                forall|k: int| 0 <= k < i ==> pixels@[k] == fill,
            decreases n - i,
        {
            pixels.push(fill);
            i = i + 1;
        }
        let r = Raster { width, height, pixels };
        proof {
            assert forall|x: int, y: int| r.in_bounds(x, y) implies r.pixel_at(x, y) == fill by {
                lemma_grid_index_in_range(x, y, width as int, height as int);
            }
        }
        r
    }

    /// Read the pixel at `(x, y)`.
    pub fn get_pixel(&self, x: usize, y: usize) -> (p: Pixel)
        requires
            self.wf(),
            self.in_bounds(x as int, y as int),
        ensures
            p == self.pixel_at(x as int, y as int),
    {
        let n = self.pixels.len();
        proof {
            lemma_grid_index_in_range(x as int, y as int, self.width as int, self.height as int);
            assert(y * self.width + x < n);
        }
        self.pixels[y * self.width + x]
    }

    /// Overwrite the pixel at `(x, y)`; every other pixel is unchanged.
    pub fn set_pixel(&mut self, x: usize, y: usize, p: Pixel)
        requires
            old(self).wf(),
            old(self).in_bounds(x as int, y as int),
        ensures
            final(self).wf(),
            final(self).width == old(self).width,
            final(self).height == old(self).height,
            final(self).pixel_at(x as int, y as int) == p,
            forall|ox: int, oy: int|
                old(self).in_bounds(ox, oy) && !(ox == x && oy == y)
                    ==> final(self).pixel_at(ox, oy) == old(self).pixel_at(ox, oy),
    {
        let n = self.pixels.len();
        proof {
            lemma_grid_index_in_range(x as int, y as int, self.width as int, self.height as int);
            assert(y * self.width + x < n);
        }
        let idx = y * self.width + x;
        self.pixels.set(idx, p);
        proof {
            assert forall|ox: int, oy: int|
                old(self).in_bounds(ox, oy) && !(ox == x && oy == y)
                    implies self.pixel_at(ox, oy) == old(self).pixel_at(ox, oy) by {
                lemma_grid_index_in_range(ox, oy, self.width as int, self.height as int);
                if oy * self.width + ox == y * self.width + x {
                    lemma_row_major_unique(ox, oy, x as int, y as int, self.width as int);
                }
            }
        }
    }
}

/// The grayscale image of a pixel: every color channel becomes the mean of
/// the three color channels (rounded down), and the result is fully opaque.
pub open spec fn bw_pixel(p: Pixel) -> Pixel {
    let s = ((p.r + p.g + p.b) / 3) as u8;
    Pixel { r: s, g: s, b: s, a: 255 }
}

/// Convert a raster to its grayscale image, pixel by pixel.
pub fn colorimage_to_bw(img: &Raster) -> (out: Raster)
    requires
        img.wf(),
    ensures
        out.wf(),
        out.width == img.width,
        out.height == img.height,
        forall|x: int, y: int|
            img.in_bounds(x, y) ==> out.pixel_at(x, y) == bw_pixel(img.pixel_at(x, y)),
{
    let w = img.width;
    let h = img.height;
    let mut pixels: Vec<Pixel> = Vec::new();
    let mut y: usize = 0;
    while y < h
        invariant
            img.wf(),
            w == img.width,
            h == img.height,
            y <= h,
            pixels@.len() == y * w,
            forall|px: int, py: int|
                0 <= px < w && 0 <= py < y
                    ==> pixels@[py * w + px] == bw_pixel(img.pixel_at(px, py)),
        decreases h - y,
    {
        let mut x: usize = 0;
        while x < w
            invariant
                img.wf(),
                w == img.width,
                h == img.height,
                y < h,
                x <= w,
                pixels@.len() == y * w + x,
                forall|px: int, py: int|
                    0 <= px < w && 0 <= py <= y && (py < y || (py == y && px < x))
                        ==> pixels@[py * w + px] == bw_pixel(img.pixel_at(px, py)),
            decreases w - x,
        {
            let p = img.get_pixel(x, y);
            let sum: u32 = p.r as u32 + p.g as u32 + p.b as u32;
            let s = (sum / 3) as u8;
            pixels.push(Pixel { r: s, g: s, b: s, a: 255 });
            proof {
                assert forall|px: int, py: int|
                    0 <= px < w && 0 <= py <= y && (py < y || (py == y && px < x + 1))
                        implies pixels@[py * w + px] == bw_pixel(img.pixel_at(px, py)) by {
                    if py < y || px < x {
                        lemma_row_major_below(px, py, x as int, y as int, w as int);
                    }
                }
            }
            x = x + 1;
        }
        proof {
            assert((y + 1) * w == y * w + w) by (nonlinear_arith);
        }
        y = y + 1;
    }
    let out = Raster { width: w, height: h, pixels };
    proof {
        assert(out.pixels@.len() == w * h) by (nonlinear_arith)
            requires
                out.pixels@.len() == h * w,
        {
        }
        assert forall|x: int, y: int| img.in_bounds(x, y)
            implies out.pixel_at(x, y) == bw_pixel(img.pixel_at(x, y)) by {
            lemma_grid_index_in_range(x, y, w as int, h as int);
        }
    }
    out
}

/// The square region of side `min(width, height)` anchored at the top-left
/// corner of a raster; an already square raster is reproduced unchanged.
pub fn crop_top_left_square(img: &Raster) -> (out: Raster)
    requires
        img.wf(),
    ensures
        out.wf(),
        out.width == out.height,
        out.width == (if img.width <= img.height { img.width } else { img.height }),
        forall|x: int, y: int|
            out.in_bounds(x, y) ==> out.pixel_at(x, y) == img.pixel_at(x, y),
{
    let side = if img.width <= img.height { img.width } else { img.height };
    let mut pixels: Vec<Pixel> = Vec::new();
    let mut y: usize = 0;
    while y < side
        invariant
            img.wf(),
            side <= img.width,
            side <= img.height,
            y <= side,
            pixels@.len() == y * side,
            forall|px: int, py: int|
                0 <= px < side && 0 <= py < y
                    ==> pixels@[py * side + px] == img.pixel_at(px, py),
        decreases side - y,
    {
        let mut x: usize = 0;
        while x < side
            invariant
                img.wf(),
                side <= img.width,
                side <= img.height,
                y < side,
                x <= side,
                pixels@.len() == y * side + x,
                forall|px: int, py: int|
                    0 <= px < side && 0 <= py < side && (py < y || (py == y && px < x))
                        ==> pixels@[py * side + px] == img.pixel_at(px, py),
            decreases side - x,
        {
            let p = img.get_pixel(x, y);
            pixels.push(p);
            proof {
                assert forall|px: int, py: int|
                    0 <= px < side && 0 <= py < side && (py < y || (py == y && px < x + 1))
                        implies pixels@[py * side + px] == img.pixel_at(px, py) by {
                    if py < y || px < x {
                        lemma_row_major_below(px, py, x as int, y as int, side as int);
                    }
                }
            }
            x = x + 1;
        }
        proof {
            assert((y + 1) * side == y * side + side) by (nonlinear_arith);
        }
        y = y + 1;
    }
    let out = Raster { width: side, height: side, pixels };
    proof {
        assert(out.pixels@.len() == side * side) by (nonlinear_arith)
            requires
                out.pixels@.len() == side * side,
        {
        }
        assert forall|x: int, y: int| out.in_bounds(x, y)
            implies out.pixel_at(x, y) == img.pixel_at(x, y) by {
            lemma_grid_index_in_range(x, y, side as int, side as int);
        }
    }
    out
}

/// A square raster of side at most `2^32` has at most `usize::MAX` pixels.
pub proof fn lemma_square_side_bound(side: int, n: int)
    by (nonlinear_arith)
    requires
        side >= 0,
        n == side * side,
        n <= usize::MAX,
    ensures
        side <= 0x1_0000_0000,
        side >= 1 ==> 2 * side - 1 <= n,
{
}

/// Grid points visited before `(x, y)` in a row-major traversal have a
/// strictly smaller linear index.
pub proof fn lemma_row_major_below(px: int, py: int, x: int, y: int, width: int)
    by (nonlinear_arith)
    requires
        0 <= px < width,
        0 <= py,
        0 <= x,
        py < y || (py == y && px < x),
    ensures
        0 <= py * width + px < y * width + x,
{
}

/// Row-major indexing is injective: two in-row grid points with the same
/// linear index are the same point.
pub proof fn lemma_row_major_unique(x1: int, y1: int, x2: int, y2: int, width: int)
    by (nonlinear_arith)
    requires
        0 <= x1 < width,
        0 <= x2 < width,
        y1 * width + x1 == y2 * width + x2,
    ensures
        x1 == x2 && y1 == y2,
{
}

} // verus!
