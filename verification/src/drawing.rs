//! The paintable canvas and its brush engine.
//!
//! A [`Drawing`] owns a square raster that the user paints on.  A brush
//! stroke is disk-shaped and additive: inside the disk each color channel is
//! raised (or lowered) by a fixed delta, measured in byte units, and clamped
//! back into the byte range.  Pointer positions arrive as exact fractions of
//! the displayed canvas rectangle and are mapped to pixel coordinates here.

use crate::raster::{lemma_square_side_bound, Pixel, Raster};
use vstd::arithmetic::div_mod::{
    lemma_div_pos_is_pos,
    lemma_div_is_ordered, lemma_fundamental_div_mod, lemma_mod_bound, lemma_multiply_divide_lt,
};
use vstd::prelude::*;

verus! {

/// Default side length of a freshly created canvas.
pub const CANVAS_SIDE: usize = 512;

/// Clamp an integer into the byte range `[0, 255]`.
pub open spec fn clamp255(v: int) -> int {
    if v < 0 {
        0
    } else if v > 255 {
        255
    } else {
        v
    }
}

/// One color channel after an additive brush pass: the delta (in byte units)
/// is added, and the sum is clamped back into the byte range.
pub open spec fn blend_channel(c: u8, d: int) -> u8 {
    clamp255(c + d) as u8
}

/// A pixel after an additive brush pass: each color channel is blended; the
/// alpha channel is untouched, so an opaque pixel stays opaque.
pub open spec fn blend_pixel(p: Pixel, dr: int, dg: int, db: int) -> Pixel {
    Pixel {
        r: blend_channel(p.r, dr),
        g: blend_channel(p.g, dg),
        b: blend_channel(p.b, db),
        a: p.a,
    }
}

/// Whether `(x, y)` lies in the closed disk of radius `radius` around
/// `(cx, cy)` (Euclidean distance, compared on squares).
pub open spec fn in_disk(x: int, y: int, cx: int, cy: int, radius: int) -> bool {
    (x - cx) * (x - cx) + (y - cy) * (y - cy) <= radius * radius
}

/// A pixel after a brush stroke: pixels inside the disk are blended, pixels
/// in the bounding box but outside the disk are skipped.
pub open spec fn stroke_pixel(
    p: Pixel,
    x: int,
    y: int,
    cx: int,
    cy: int,
    radius: int,
    dr: int,
    dg: int,
    db: int,
) -> Pixel {
    if in_disk(x, y, cx, cy, radius) {
        blend_pixel(p, dr, dg, db)
    } else {
        p
    }
}

/// The paintable canvas: a square raster mutated in place by brush strokes.
pub struct Drawing {
    pub texture: Raster,
}

impl Drawing {
    /// The canvas raster is well-formed and square.
    pub open spec fn wf(self) -> bool {
        self.texture.wf() && self.texture.width == self.texture.height
    }

    /// Side length of the canvas.
    pub open spec fn side(self) -> int {
        self.texture.width as int
    }

    /// A fresh canvas of the default side length, fully opaque black.
    pub fn new() -> (d: Drawing)
        ensures
            d.wf(),
            d.side() == CANVAS_SIDE,
            forall|x: int, y: int|
                d.texture.in_bounds(x, y)
                    ==> d.texture.pixel_at(x, y) == (Pixel { r: 0, g: 0, b: 0, a: 255 }),
    {
        Drawing { texture: Raster::new(CANVAS_SIDE, CANVAS_SIDE, Pixel::black()) }
    }

    /// A copy of the canvas raster, for display or further processing.
    pub fn get_image(&self) -> (img: Raster)
        ensures
            img.width == self.texture.width,
            img.height == self.texture.height,
            img.pixels@ == self.texture.pixels@,
    {
        let n = self.texture.pixels.len();
        let mut pixels: Vec<Pixel> = Vec::new();
        let mut i: usize = 0;
        while i < n
            invariant
                i <= n,
                n == self.texture.pixels@.len(),
                pixels@.len() == i,
                forall|k: int| 0 <= k < i ==> pixels@[k] == self.texture.pixels@[k],
            decreases n - i,
        {
            let p = self.texture.pixels[i];
            pixels.push(p);
            i = i + 1;
        }
        proof {
            assert(pixels@ =~= self.texture.pixels@);
        }
        Raster { width: self.texture.width, height: self.texture.height, pixels }
    }

    /// Replace the canvas content with a new square raster, as happens when
    /// an imported image has been resampled to canvas resolution.
    pub fn set_texture(&mut self, img: Raster)
        requires
            img.wf(),
            img.width == img.height,
        ensures
            final(self).wf(),
            final(self).texture == img,
    {
        self.texture = img;
    }

    /// Map a pointer position, given as exact fractions `x_num / x_den` and
    /// `y_num / y_den` of the displayed canvas rectangle (each in `[0, 1]`),
    /// to the pixel coordinate `(floor(x * side), floor(y * side))`.
    pub fn map_pointer_to_pixel(&self, x_num: u64, x_den: u64, y_num: u64, y_den: u64) -> (p: (
        usize,
        usize,
    ))
        requires
            self.wf(),
            0 < x_den,
            0 < y_den,
            x_num <= x_den,
            y_num <= y_den,
        ensures
            p.0 == x_num * self.side() / x_den as int,
            p.1 == y_num * self.side() / y_den as int,
            p.0 <= self.side(),
            p.1 <= self.side(),
    {
        let side = self.texture.width;
        let n = self.texture.pixels.len();
        proof {
            lemma_square_side_bound(side as int, n as int);
        }
        let px = Self::scale_coordinate(x_num, x_den, side);
        let py = Self::scale_coordinate(y_num, y_den, side);
        (px, py)
    }

    /// Apply one brush stroke: every canvas pixel within `radius` of
    /// `(cx, cy)` (Euclidean distance) has the delta, in byte units, added
    /// to its color channels and clamped to the byte range; every other
    /// pixel, and every alpha channel, is untouched.  A zero delta leaves
    /// the canvas bit-for-bit unchanged.
    #[verifier::loop_isolation(false)]
    pub fn paint_stroke(&mut self, cx: usize, cy: usize, radius: usize, dr: i32, dg: i32, db: i32)
        requires
            old(self).wf(),
        ensures
            final(self).wf(),
            final(self).texture.width == old(self).texture.width,
            final(self).texture.height == old(self).texture.height,
            forall|px: int, py: int|
                old(self).texture.in_bounds(px, py)
                    ==> final(self).texture.pixel_at(px, py) == stroke_pixel(
                        old(self).texture.pixel_at(px, py),
                        px,
                        py,
                        cx as int,
                        cy as int,
                        radius as int,
                        dr as int,
                        dg as int,
                        db as int,
                    ),
            dr == 0 && dg == 0 && db == 0 ==> final(self).texture.pixels@ == old(
                self,
            ).texture.pixels@,
    {
        let side = self.texture.width;
        let n = self.texture.pixels.len();
        proof {
            lemma_square_side_bound(side as int, n as int);
        }
        let lo_x = if cx >= radius {
            cx - radius
        } else {
            0
        };
        let lo_y = if cy >= radius {
            cy - radius
        } else {
            0
        };
        let hi_x = if cx >= side || radius >= side {
            side
        } else if cx + radius + 1 <= side {
            cx + radius + 1
        } else {
            side
        };
        let hi_y = if cy >= side || radius >= side {
            side
        } else if cy + radius + 1 <= side {
            cy + radius + 1
        } else {
            side
        };
        let mut x = lo_x;
        while x < hi_x
            invariant
                self.wf(),
                self.texture.width == old(self).texture.width,
                self.texture.height == old(self).texture.height,
                lo_x <= x,
                x <= hi_x || x == lo_x,
                forall|px: int, py: int|
                    old(self).texture.in_bounds(px, py)
                        ==> self.texture.pixel_at(px, py) == (if lo_x <= px < x && lo_y <= py
                        < hi_y {
                        stroke_pixel(
                            old(self).texture.pixel_at(px, py),
                            px,
                            py,
                            cx as int,
                            cy as int,
                            radius as int,
                            dr as int,
                            dg as int,
                            db as int,
                        )
                    } else {
                        old(self).texture.pixel_at(px, py)
                    }),
            decreases hi_x - x,
        {
            let mut yy = lo_y;
            while yy < hi_y
                invariant
                    self.wf(),
                    self.texture.width == old(self).texture.width,
                    self.texture.height == old(self).texture.height,
                    lo_x <= x < hi_x,
                    lo_y <= yy,
                    yy <= hi_y || yy == lo_y,
                    forall|px: int, py: int|
                        old(self).texture.in_bounds(px, py)
                            ==> self.texture.pixel_at(px, py) == (if (lo_x <= px < x && lo_y <= py
                            < hi_y) || (px == x && lo_y <= py < yy) {
                            stroke_pixel(
                                old(self).texture.pixel_at(px, py),
                                px,
                                py,
                                cx as int,
                                cy as int,
                                radius as int,
                                dr as int,
                                dg as int,
                                db as int,
                            )
                        } else {
                            old(self).texture.pixel_at(px, py)
                        }),
                decreases hi_y - yy,
            {
                let dx = if x >= cx {
                    x - cx
                } else {
                    cx - x
                };
                let dy = if yy >= cy {
                    yy - cy
                } else {
                    cy - yy
                };
                proof {
                    assert(dx <= 0xffff_ffff_ffff_ffff);
                    assert(dy <= 0xffff_ffff_ffff_ffff);
                    assert(radius <= 0xffff_ffff_ffff_ffff);
                    lemma_square_fits_u128(dx as int);
                    lemma_square_fits_u128(dy as int);
                    lemma_square_fits_u128(radius as int);
                }
                let dx2: u128 = dx as u128 * dx as u128;
                let dy2: u128 = dy as u128 * dy as u128;
                let r2: u128 = radius as u128 * radius as u128;
                proof {
                    lemma_abs_square(x as int, cx as int, dx as int);
                    lemma_abs_square(yy as int, cy as int, dy as int);
                }
                let hit = dx2 <= r2 && dy2 <= r2 - dx2;
                proof {
                    assert(hit == in_disk(x as int, yy as int, cx as int, cy as int, radius as int));
                }
                if hit {
                    let p = self.texture.get_pixel(x, yy);
                    let vr: i64 = p.r as i64 + dr as i64;
                    let vg: i64 = p.g as i64 + dg as i64;
                    let vb: i64 = p.b as i64 + db as i64;
                    let nr: u8 = if vr < 0 {
                        0
                    } else if vr > 255 {
                        255
                    } else {
                        vr as u8
                    };
                    let ng: u8 = if vg < 0 {
                        0
                    } else if vg > 255 {
                        255
                    } else {
                        vg as u8
                    };
                    let nb: u8 = if vb < 0 {
                        0
                    } else if vb > 255 {
                        255
                    } else {
                        vb as u8
                    };
                    let np = Pixel { r: nr, g: ng, b: nb, a: p.a };
                    proof {
                        assert(np == blend_pixel(p, dr as int, dg as int, db as int));
                    }
                    self.texture.set_pixel(x, yy, np);
                }
                yy = yy + 1;
            }
            x = x + 1;
        }
        proof {
            let ocx = cx as int;
            let ocy = cy as int;
            let orad = radius as int;
            assert forall|px: int, py: int| old(self).texture.in_bounds(px, py)
                implies self.texture.pixel_at(px, py) == stroke_pixel(
                old(self).texture.pixel_at(px, py),
                px,
                py,
                ocx,
                ocy,
                orad,
                dr as int,
                dg as int,
                db as int,
            ) by {
                if !(lo_x <= px < hi_x && lo_y <= py < hi_y) {
                    if px < lo_x || px >= hi_x {
                        lemma_disk_outside(px, ocx, orad);
                        assert((px - ocx) * (px - ocx) > orad * orad);
                        assert((py - ocy) * (py - ocy) >= 0) by (nonlinear_arith);
                    } else {
                        lemma_disk_outside(py, ocy, orad);
                        assert((py - ocy) * (py - ocy) > orad * orad);
                        assert((px - ocx) * (px - ocx) >= 0) by (nonlinear_arith);
                    }
                    assert(!in_disk(px, py, ocx, ocy, orad));
                }
            }
            if dr == 0 && dg == 0 && db == 0 {
                lemma_zero_delta_raster(old(self).texture, self.texture, ocx, ocy, orad);
            }
        }
    }

    /// The default height-painting stroke: an equal small push on all three
    /// color channels (26 byte units, about a tenth of the full range).
    pub fn paint_stroke_default(&mut self, cx: usize, cy: usize, radius: usize)
        requires
            old(self).wf(),
        ensures
            final(self).wf(),
            final(self).texture.width == old(self).texture.width,
            final(self).texture.height == old(self).texture.height,
            forall|px: int, py: int|
                old(self).texture.in_bounds(px, py)
                    ==> final(self).texture.pixel_at(px, py) == stroke_pixel(
                        old(self).texture.pixel_at(px, py),
                        px,
                        py,
                        cx as int,
                        cy as int,
                        radius as int,
                        26,
                        26,
                        26,
                    ),
    {
        self.paint_stroke(cx, cy, radius, 26, 26, 26)
    }

    /// Fill the square box of half-side `radius` around `(cx, cy)`, clipped
    /// to the canvas, with solid red — a debugging aid for locating the
    /// brush.
    #[verifier::loop_isolation(false)]
    pub fn add_box(&mut self, cx: usize, cy: usize, radius: usize)
        requires
            old(self).wf(),
        ensures
            final(self).wf(),
            final(self).texture.width == old(self).texture.width,
            final(self).texture.height == old(self).texture.height,
            forall|px: int, py: int|
                old(self).texture.in_bounds(px, py)
                    ==> final(self).texture.pixel_at(px, py) == (if cx - radius <= px <= cx
                    + radius && cy - radius <= py <= cy + radius {
                        Pixel { r: 255, g: 0, b: 0, a: 255 }
                    } else {
                        old(self).texture.pixel_at(px, py)
                    }),
    {
        let side = self.texture.width;
        let n = self.texture.pixels.len();
        proof {
            lemma_square_side_bound(side as int, n as int);
        }
        let lo_x = if cx >= radius {
            cx - radius
        } else {
            0
        };
        let lo_y = if cy >= radius {
            cy - radius
        } else {
            0
        };
        let hi_x = if cx >= side || radius >= side {
            side
        } else if cx + radius + 1 <= side {
            cx + radius + 1
        } else {
            side
        };
        let hi_y = if cy >= side || radius >= side {
            side
        } else if cy + radius + 1 <= side {
            cy + radius + 1
        } else {
            side
        };
        let mut x = lo_x;
        while x < hi_x
            invariant
                self.wf(),
                self.texture.width == old(self).texture.width,
                self.texture.height == old(self).texture.height,
                lo_x <= x,
                x <= hi_x || x == lo_x,
                forall|px: int, py: int|
                    old(self).texture.in_bounds(px, py)
                        ==> self.texture.pixel_at(px, py) == (if lo_x <= px < x && lo_y <= py
                        < hi_y {
                        Pixel { r: 255, g: 0, b: 0, a: 255 }
                    } else {
                        old(self).texture.pixel_at(px, py)
                    }),
            decreases hi_x - x,
        {
            let mut yy = lo_y;
            while yy < hi_y
                invariant
                    self.wf(),
                    self.texture.width == old(self).texture.width,
                    self.texture.height == old(self).texture.height,
                    lo_x <= x < hi_x,
                    lo_y <= yy,
                    yy <= hi_y || yy == lo_y,
                    forall|px: int, py: int|
                        old(self).texture.in_bounds(px, py)
                            ==> self.texture.pixel_at(px, py) == (if (lo_x <= px < x && lo_y <= py
                            < hi_y) || (px == x && lo_y <= py < yy) {
                            Pixel { r: 255, g: 0, b: 0, a: 255 }
                        } else {
                            old(self).texture.pixel_at(px, py)
                        }),
                decreases hi_y - yy,
            {
                self.texture.set_pixel(x, yy, Pixel { r: 255, g: 0, b: 0, a: 255 });
                yy = yy + 1;
            }
            x = x + 1;
        }
        proof {
            assert forall|px: int, py: int| old(self).texture.in_bounds(px, py)
                implies self.texture.pixel_at(px, py) == (if cx - radius <= px <= cx + radius && cy
                - radius <= py <= cy + radius {
                Pixel { r: 255, g: 0, b: 0, a: 255 }
            } else {
                old(self).texture.pixel_at(px, py)
            }) by {
                assert((lo_x <= px < hi_x && lo_y <= py < hi_y) == (cx - radius <= px <= cx + radius
                    && cy - radius <= py <= cy + radius));
            }
        }
    }

    /// One coordinate of the pointer mapping: `floor((num / den) * side)`.
    fn scale_coordinate(num: u64, den: u64, side: usize) -> (c: usize)
        requires
            0 < den,
            num <= den,
            side <= 0x1_0000_0000,
        ensures
            c == num * side / den as int,
            c <= side,
    {
        proof {
            assert(num * side <= 0xffff_ffff_ffff_ffff * 0x1_0000_0000) by (nonlinear_arith)
                requires
                    num <= 0xffff_ffff_ffff_ffff,
                    0 <= side <= 0x1_0000_0000,
            ;
        }
        let prod: u128 = num as u128 * side as u128;
        let q: u128 = prod / den as u128;
        proof {
            assert(num * side <= den * side) by (nonlinear_arith)
                requires
                    num <= den,
                    side >= 0,
            ;
            lemma_div_is_ordered(num as int * side as int, den as int * side as int, den as int);
            assert(den as int * side as int / den as int == side as int) by {
                vstd::arithmetic::div_mod::lemma_div_multiples_vanish(
                    side as int,
                    den as int,
                );
                assert(den as int * side as int == den as int * side as int);
            }
        }
        q as usize
    }
}

/// The square of a machine-word value fits in 128 bits.
proof fn lemma_square_fits_u128(v: int)
    by (nonlinear_arith)
    requires
        0 <= v <= 0xffff_ffff_ffff_ffff,
    ensures
        v * v <= u128::MAX,
{
}

/// The absolute difference squares to the squared difference.
proof fn lemma_abs_square(v: int, c: int, d: int)
    by (nonlinear_arith)
    requires
        d == (if v >= c {
            v - c
        } else {
            c - v
        }),
    ensures
        d * d == (v - c) * (v - c),
{
}

/// A coordinate strictly outside `[c - r, c + r]` is strictly farther than
/// `r` from `c`, already along this one axis.
proof fn lemma_disk_outside(v: int, c: int, r: int)
    by (nonlinear_arith)
    requires
        r >= 0,
        v < c - r || v > c + r,
    ensures
        (v - c) * (v - c) > r * r,
{
}

/// Two rasters of the same shape whose pixels agree at every grid point
/// hold the same pixel vector.
proof fn lemma_pointwise_equal_raster(before: Raster, after: Raster)
    requires
        before.wf(),
        after.wf(),
        after.width == before.width,
        after.height == before.height,
        forall|px: int, py: int|
            before.in_bounds(px, py) ==> after.pixel_at(px, py) == before.pixel_at(px, py),
    ensures
        after.pixels@ == before.pixels@,
{
    let w = before.width as int;
    let h = before.height as int;
    assert forall|k: int| 0 <= k < before.pixels@.len() implies after.pixels@[k]
        == before.pixels@[k] by {
        assert(w * h > 0);
        assert(w > 0 && h > 0) by (nonlinear_arith)
            requires
                w * h > 0,
                w >= 0,
                h >= 0,
        ;
        let py = k / w;
        let px = k % w;
        lemma_fundamental_div_mod(k, w);
        lemma_mod_bound(k, w);
        lemma_div_pos_is_pos(k, w);
        lemma_multiply_divide_lt(k, w, h);
        assert(w * py == py * w) by (nonlinear_arith);
        assert(k == py * w + px);
        assert(before.in_bounds(px, py));
        assert(after.pixel_at(px, py) == before.pixel_at(px, py));
    }
    assert(after.pixels@ =~= before.pixels@);
}

/// A stroke with zero delta maps every pixel to itself, so the whole pixel
/// vector is unchanged.
proof fn lemma_zero_delta_raster(before: Raster, after: Raster, cx: int, cy: int, radius: int)
    requires
        before.wf(),
        after.wf(),
        after.width == before.width,
        after.height == before.height,
        forall|px: int, py: int|
            before.in_bounds(px, py)
                ==> after.pixel_at(px, py) == stroke_pixel(
                    before.pixel_at(px, py),
                    px,
                    py,
                    cx,
                    cy,
                    radius,
                    0,
                    0,
                    0,
                ),
    ensures
        after.pixels@ == before.pixels@,
{
    lemma_pointwise_equal_raster(before, after);
}

/// Once every canvas pixel inside the brush disk sits at the clamp bound
/// its delta pushes toward, one further identical stroke leaves the canvas
/// bit-for-bit unchanged: repeated strokes are idempotent at saturation.
pub proof fn lemma_stroke_idempotent_canvas(
    before: Raster,
    after: Raster,
    cx: int,
    cy: int,
    radius: int,
    dr: int,
    dg: int,
    db: int,
)
    requires
        before.wf(),
        after.wf(),
        after.width == before.width,
        after.height == before.height,
        forall|px: int, py: int|
            before.in_bounds(px, py)
                ==> after.pixel_at(px, py) == stroke_pixel(
                    before.pixel_at(px, py),
                    px,
                    py,
                    cx,
                    cy,
                    radius,
                    dr,
                    dg,
                    db,
                ),
        forall|px: int, py: int|
            before.in_bounds(px, py) && in_disk(px, py, cx, cy, radius) ==> {
                &&& dr > 0 ==> before.pixel_at(px, py).r == 255
                &&& dr < 0 ==> before.pixel_at(px, py).r == 0
                &&& dg > 0 ==> before.pixel_at(px, py).g == 255
                &&& dg < 0 ==> before.pixel_at(px, py).g == 0
                &&& db > 0 ==> before.pixel_at(px, py).b == 255
                &&& db < 0 ==> before.pixel_at(px, py).b == 0
            },
    ensures
        after.pixels@ == before.pixels@,
{
    assert forall|px: int, py: int| before.in_bounds(px, py) implies after.pixel_at(px, py)
        == before.pixel_at(px, py) by {
        if in_disk(px, py, cx, cy, radius) {
            lemma_stroke_idempotent_at_bound(
                before.pixel_at(px, py),
                px,
                py,
                cx,
                cy,
                radius,
                dr,
                dg,
                db,
            );
        }
    }
    lemma_pointwise_equal_raster(before, after);
}

/// Repeated identical strokes move every affected color channel
/// monotonically toward the clamp bound the delta pushes it to, and never
/// touch the alpha channel.
pub proof fn lemma_stroke_monotonic(
    p: Pixel,
    x: int,
    y: int,
    cx: int,
    cy: int,
    radius: int,
    dr: int,
    dg: int,
    db: int,
)
    ensures
        dr >= 0 ==> p.r <= stroke_pixel(p, x, y, cx, cy, radius, dr, dg, db).r,
        dr <= 0 ==> stroke_pixel(p, x, y, cx, cy, radius, dr, dg, db).r <= p.r,
        dg >= 0 ==> p.g <= stroke_pixel(p, x, y, cx, cy, radius, dr, dg, db).g,
        dg <= 0 ==> stroke_pixel(p, x, y, cx, cy, radius, dr, dg, db).g <= p.g,
        db >= 0 ==> p.b <= stroke_pixel(p, x, y, cx, cy, radius, dr, dg, db).b,
        db <= 0 ==> stroke_pixel(p, x, y, cx, cy, radius, dr, dg, db).b <= p.b,
        stroke_pixel(p, x, y, cx, cy, radius, dr, dg, db).a == p.a,
{
}

/// Once every affected channel of a pixel sits at the clamp bound its delta
/// pushes toward, a further identical stroke leaves the pixel unchanged:
/// repeated strokes become idempotent at saturation.
pub proof fn lemma_stroke_idempotent_at_bound(
    p: Pixel,
    x: int,
    y: int,
    cx: int,
    cy: int,
    radius: int,
    dr: int,
    dg: int,
    db: int,
)
    requires
        dr > 0 ==> p.r == 255,
        dr < 0 ==> p.r == 0,
        dg > 0 ==> p.g == 255,
        dg < 0 ==> p.g == 0,
        db > 0 ==> p.b == 255,
        db < 0 ==> p.b == 0,
    ensures
        stroke_pixel(p, x, y, cx, cy, radius, dr, dg, db) == p,
{
}

} // verus!
