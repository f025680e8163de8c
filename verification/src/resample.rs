//! Bicubic raster resampling.
//!
//! Resizes a square raster to an arbitrary square target resolution with the
//! Catmull-Rom cubic convolution kernel (`a = -0.5`), sampling a 4x4
//! neighborhood per target pixel with clamp-to-edge handling.  All
//! arithmetic is exact: target coordinate `tx` maps to the source coordinate
//! `tx * size / target`, a rational with denominator `target`; the kernel
//! value at offset `p / den` is the integer `kernel_num(p, den)` over the
//! denominator `2 * den^3`; and an output channel is the weighted sum over
//! the neighborhood divided by the total weight `4 * den^6`, clamped to the
//! byte range and rounded down.

use crate::raster::{Pixel, Raster};
use crate::TerrainError;
use vstd::arithmetic::div_mod::{
    lemma_div_pos_is_pos, lemma_fundamental_div_mod, lemma_mod_bound, lemma_mod_multiples_basic,
    lemma_multiply_divide_lt,
};
use vstd::prelude::*;

verus! {

/// Largest accepted target resolution; keeps every intermediate weight sum
/// within 128 bits.
pub const MAX_RESAMPLE_TARGET: usize = 65536;

/// Numerator of the cubic convolution kernel at offset `p / den`, over the
/// common denominator `2 * den^3`.  For `t = p / den` and `a = -0.5`, the
/// kernel is `(a+2)|t|^3 - (a+3)t^2 + 1` below 1, `a|t|^3 - 5a t^2 + 8a|t|
/// - 4a` below 2, and zero beyond.
pub open spec fn kernel_num(p: int, den: int) -> int
    recommends
        0 <= p,
        1 <= den,
{
    if p < den {
        3 * p * p * p - 5 * p * p * den + 2 * den * den * den
    } else if p < 2 * den {
        -(p * p * p) + 5 * p * p * den - 8 * p * den * den + 4 * den * den * den
    } else {
        0
    }
}

/// Offset numerator (over `den`) of tap `j` in a 4-tap neighborhood whose
/// source position lies `m / den` past its floor coordinate: the distance
/// from the sample at relative position `j - 1` to the source position.
pub open spec fn tap_off(j: int, m: int, den: int) -> int {
    let v = (j - 1) * den - m;
    if v < 0 {
        -v
    } else {
        v
    }
}

/// Clamp-to-edge source coordinate of tap `j` around floor coordinate `f`.
pub open spec fn tap_coord(f: int, j: int, size: int) -> int {
    let v = f - 1 + j;
    if v < 0 {
        0
    } else if v > size - 1 {
        size - 1
    } else {
        v
    }
}

/// Color channel `c` of a pixel (0 red, 1 green, 2 blue).
pub open spec fn pixel_channel(p: Pixel, c: int) -> int {
    if c == 0 {
        p.r as int
    } else if c == 1 {
        p.g as int
    } else {
        p.b as int
    }
}

/// Weighted sum of the first `n` horizontal taps of the row at clamped
/// source coordinate `sy`, for channel `c`.
pub open spec fn row_sum(
    src: Raster,
    fx: int,
    mx: int,
    sy: int,
    den: int,
    c: int,
    n: nat,
) -> int
    decreases n,
{
    if n == 0 {
        0
    } else {
        row_sum(src, fx, mx, sy, den, c, (n - 1) as nat) + kernel_num(tap_off(n - 1, mx, den), den)
            * pixel_channel(src.pixel_at(tap_coord(fx, n - 1, src.width as int), sy), c)
    }
}

/// Weighted sum of the first `n` rows of the 4x4 neighborhood, each row
/// itself a full 4-tap weighted sum, for channel `c`.
pub open spec fn col_sum(
    src: Raster,
    fx: int,
    mx: int,
    fy: int,
    my: int,
    den: int,
    c: int,
    n: nat,
) -> int
    decreases n,
{
    if n == 0 {
        0
    } else {
        col_sum(src, fx, mx, fy, my, den, c, (n - 1) as nat) + kernel_num(
            tap_off(n - 1, my, den),
            den,
        ) * row_sum(src, fx, mx, tap_coord(fy, n - 1, src.height as int), den, c, 4)
    }
}

/// The total weight of a 4x4 neighborhood: `(2 den^3)^2 = 4 den^6`.
pub open spec fn weight_den(den: int) -> int {
    4 * den * den * den * den * den * den
}

/// A weighted channel sum turned into a byte: divided by the total weight,
/// clamped to the byte range, rounded down.
pub open spec fn out_channel(sum: int, den: int) -> int {
    if sum <= 0 {
        0
    } else if sum >= 255 * weight_den(den) {
        255
    } else {
        sum / weight_den(den)
    }
}

/// Channel `c` of target pixel `(tx, ty)` when resampling the square raster
/// `src` to resolution `target`.
pub open spec fn resampled_channel(src: Raster, target: int, tx: int, ty: int, c: int) -> int {
    let fx = tx * src.width / target;
    let mx = (tx * src.width) % target;
    let fy = ty * src.width / target;
    let my = (ty * src.width) % target;
    out_channel(col_sum(src, fx, mx, fy, my, target, c, 4), target)
}

/// Target pixel `(tx, ty)` of the resampled raster: each color channel is
/// resampled independently, and the result is fully opaque.
pub open spec fn resampled_pixel(src: Raster, target: int, tx: int, ty: int) -> Pixel {
    Pixel {
        r: resampled_channel(src, target, tx, ty, 0) as u8,
        g: resampled_channel(src, target, tx, ty, 1) as u8,
        b: resampled_channel(src, target, tx, ty, 2) as u8,
        a: 255,
    }
}

/// The kernel numerator is bounded by the kernel's own denominator scale:
/// `|kernel_num(p, den)| <= 2 den^3` (the kernel itself lies in
/// `[-2 den^3, 2 den^3] / (2 den^3)`, that is in `[-1, 1]`).
pub proof fn lemma_kernel_num_bound(p: int, den: int)
    requires
        0 <= p,
        1 <= den,
    ensures
        -2 * den * den * den <= kernel_num(p, den) <= 2 * den * den * den,
{
    if p < den {
        assert(-2 * den * den * den <= kernel_num(p, den) <= 2 * den * den * den)
            by (nonlinear_arith)
            requires
                0 <= p < den,
                1 <= den,
                kernel_num(p, den) == 3 * p * p * p - 5 * p * p * den + 2 * den * den * den,
        {
            assert(kernel_num(p, den) == (den - p) * (2 * den * den + 2 * den * p - 3 * p * p));
            assert(2 * den * den + 2 * den * p - 3 * p * p >= 2 * den * den - den * p);
        }
    } else if p < 2 * den {
        assert(-2 * den * den * den <= kernel_num(p, den) <= 2 * den * den * den)
            by (nonlinear_arith)
            requires
                1 <= den <= p < 2 * den,
                kernel_num(p, den) == -(p * p * p) + 5 * p * p * den - 8 * p * den * den + 4 * den
                    * den * den,
        {
            assert(kernel_num(p, den) == -((p - den) * ((p - 2 * den) * (p - 2 * den))));
            assert((p - 2 * den) * (p - 2 * den) <= den * den);
        }
    } else {
        assert(-2 * den * den * den <= 0 <= 2 * den * den * den) by (nonlinear_arith)
            requires
                1 <= den,
        ;
    }
}

/// Numeric caps on the powers of an accepted target resolution; they keep
/// every intermediate product of the resampler inside 128 bits.
proof fn lemma_target_pow_bounds(t: int)
    requires
        1 <= t <= 65536,
    ensures
        1 <= t * t * t <= 0x1_0000_0000_0000,
        4 <= weight_den(t) <= 0x4_0000_0000_0000_0000_0000_0000,
        255 * weight_den(t) < i128::MAX,
{
    assert(1 <= t * t * t <= 0x1_0000_0000_0000 && 4 <= weight_den(t)
        <= 0x4_0000_0000_0000_0000_0000_0000 && 255 * weight_den(t) < i128::MAX)
        by (nonlinear_arith)
        requires
            1 <= t <= 65536,
            weight_den(t) == 4 * t * t * t * t * t * t,
    ;
}

/// Kernel numerator, evaluated exactly in 128-bit integers.
fn cubic_weight(p: i128, den: i128) -> (w: i128)
    requires
        0 <= p,
        1 <= den <= 65536,
    ensures
        w == kernel_num(p as int, den as int),
        -2 * den * den * den <= w <= 2 * den * den * den,
{
    proof {
        lemma_kernel_num_bound(p as int, den as int);
    }
    if p >= 2 * den {
        proof {
            assert(-2 * den * den * den <= 0 <= 2 * den * den * den) by (nonlinear_arith)
                requires
                    1 <= den,
            ;
        }
        0
    } else {
        proof {
            assert(3 * p * p <= 0xC_0000_0000 && 0 <= 3 * p * p * p <= 0x1_8000_0000_0000_0000
                && 5 * p * p <= 0x14_0000_0000 && 0 <= 5 * p * p * den <= 0x1_4000_0000_0000_0000
                && 2 * den * den <= 0x2_0000_0000 && 0 <= 2 * den * den * den
                <= 0x2_0000_0000_0000 && 0 <= p * p <= 0x4_0000_0000 && 0 <= p * p * p
                <= 0x8000_0000_0000_0000 && 8 * p * den <= 0x10_0000_0000 && 0 <= 8 * p * den * den
                <= 0x8_0000_0000_0000_0000 && 4 * den * den <= 0x4_0000_0000 && 0 <= 4 * den * den
                * den <= 0x4_0000_0000_0000) by (nonlinear_arith)
                requires
                    0 <= p < 2 * den,
                    1 <= den <= 65536,
            ;
        }
        if p < den {
            3 * p * p * p - 5 * p * p * den + 2 * den * den * den
        } else {
            -(p * p * p) + 5 * p * p * den - 8 * p * den * den + 4 * den * den * den
        }
    }
}

/// A partial row sum is bounded by its tap count times the largest kernel
/// weight times the largest channel value.
proof fn lemma_row_sum_bound(src: Raster, fx: int, mx: int, sy: int, den: int, c: int, n: nat)
    requires
        1 <= den,
    ensures
        -(n as int) * 510 * (den * den * den) <= row_sum(src, fx, mx, sy, den, c, n) <= (
        n as int) * 510 * (den * den * den),
    decreases n,
{
    if n == 0 {
        assert((0int) * 510 * (den * den * den) == 0) by (nonlinear_arith);
    } else {
        lemma_row_sum_bound(src, fx, mx, sy, den, c, (n - 1) as nat);
        lemma_kernel_num_bound(tap_off(n - 1, mx, den), den);
        let k = kernel_num(tap_off(n - 1, mx, den), den);
        let ch = pixel_channel(
            src.pixel_at(tap_coord(fx, n - 1, src.width as int), sy),
            c,
        );
        let prev = row_sum(src, fx, mx, sy, den, c, (n - 1) as nat);
        assert(-(n as int) * 510 * (den * den * den) <= prev + k * ch <= (n as int) * 510 * (den
            * den * den)) by (nonlinear_arith)
            requires
                1 <= den,
                n >= 1,
                -2 * den * den * den <= k <= 2 * den * den * den,
                0 <= ch <= 255,
                -((n - 1) as int) * 510 * (den * den * den) <= prev <= ((n - 1) as int) * 510 * (
                den * den * den),
        ;
    }
}

/// A partial column sum is bounded by its row count times the largest
/// kernel weight times the largest full-row sum.
proof fn lemma_col_sum_bound(
    src: Raster,
    fx: int,
    mx: int,
    fy: int,
    my: int,
    den: int,
    c: int,
    n: nat,
)
    requires
        1 <= den,
    ensures
        -(n as int) * 1020 * weight_den(den) <= col_sum(src, fx, mx, fy, my, den, c, n) <= (
        n as int) * 1020 * weight_den(den),
    decreases n,
{
    if n == 0 {
        assert((0int) * 1020 * weight_den(den) == 0) by (nonlinear_arith);
    } else {
        lemma_col_sum_bound(src, fx, mx, fy, my, den, c, (n - 1) as nat);
        lemma_kernel_num_bound(tap_off(n - 1, my, den), den);
        lemma_row_sum_bound(
            src,
            fx,
            mx,
            tap_coord(fy, n - 1, src.height as int),
            den,
            c,
            4,
        );
        let k = kernel_num(tap_off(n - 1, my, den), den);
        let row = row_sum(src, fx, mx, tap_coord(fy, n - 1, src.height as int), den, c, 4);
        let prev = col_sum(src, fx, mx, fy, my, den, c, (n - 1) as nat);
        assert(-(n as int) * 1020 * weight_den(den) <= prev + k * row <= (n as int) * 1020
            * weight_den(den)) by (nonlinear_arith)
            requires
                1 <= den,
                n >= 1,
                weight_den(den) == 4 * den * den * den * den * den * den,
                -2 * den * den * den <= k <= 2 * den * den * den,
                -(4int) * 510 * (den * den * den) <= row <= (4int) * 510 * (den * den * den),
                -((n - 1) as int) * 1020 * weight_den(den) <= prev <= ((n - 1) as int) * 1020
                    * weight_den(den),
        ;
    }
}

/// An output channel always lands in the byte range.
pub proof fn lemma_out_channel_range(sum: int, den: int)
    requires
        1 <= den,
    ensures
        0 <= out_channel(sum, den) <= 255,
{
    assert(weight_den(den) >= 4) by (nonlinear_arith)
        requires
            1 <= den,
            weight_den(den) == 4 * den * den * den * den * den * den,
    ;
    if 0 < sum < 255 * weight_den(den) {
        lemma_div_pos_is_pos(sum, weight_den(den));
        lemma_multiply_divide_lt(sum, weight_den(den), 255);
    }
}

/// Turn an accumulated channel sum into the output byte: divide by the
/// total weight, clamping to the byte range and rounding down.
fn finish_channel(sum: i128, w6: i128) -> (v: u8)
    requires
        1 <= w6,
        255 * w6 < i128::MAX,
    ensures
        v as int == (if sum <= 0 {
            0int
        } else if sum >= 255 * w6 {
            255int
        } else {
            sum as int / w6 as int
        }),
{
    if sum <= 0 {
        0
    } else {
        let cap: i128 = 255 * w6;
        if sum >= cap {
            255
        } else {
            proof {
                lemma_div_pos_is_pos(sum as int, w6 as int);
                lemma_multiply_divide_lt(sum as int, w6 as int, 255);
            }
            ((sum as u128) / (w6 as u128)) as u8
        }
    }
}

/// Resample one target pixel: evaluate the 4x4 weighted neighborhood sums
/// for the three color channels and divide out the total weight.
#[verifier::loop_isolation(false)]
#[verifier::rlimit(100)]
fn resample_pixel(img: &Raster, target: usize, tx: usize, ty: usize) -> (p: Pixel)
    requires
        img.wf(),
        img.width == img.height,
        1 <= img.width,
        1 <= target <= MAX_RESAMPLE_TARGET,
        tx < target,
        ty < target,
    ensures
        p == resampled_pixel(*img, target as int, tx as int, ty as int),
{
    let s = img.width;
    let n = img.pixels.len();
    proof {
        crate::raster::lemma_square_side_bound(s as int, n as int);
        lemma_target_pow_bounds(target as int);
        assert(tx * s < target * s && ty * s < target * s && target * s
            <= 0x10000 * 0x1_0000_0000) by (nonlinear_arith)
            requires
                0 <= tx < target,
                0 <= ty < target,
                target <= 0x10000,
                1 <= s <= 0x1_0000_0000,
        ;
    }
    let t64 = target as u64;
    let prod_x: u64 = tx as u64 * s as u64;
    let fx_u: u64 = prod_x / t64;
    let mx_u: u64 = prod_x % t64;
    let prod_y: u64 = ty as u64 * s as u64;
    let fy_u: u64 = prod_y / t64;
    let my_u: u64 = prod_y % t64;
    proof {
        lemma_multiply_divide_lt(prod_x as int, t64 as int, s as int);
        lemma_multiply_divide_lt(prod_y as int, t64 as int, s as int);
        lemma_mod_bound(prod_x as int, t64 as int);
        lemma_mod_bound(prod_y as int, t64 as int);
        lemma_div_pos_is_pos(prod_x as int, t64 as int);
        lemma_div_pos_is_pos(prod_y as int, t64 as int);
    }
    let fx = fx_u as usize;
    let fy = fy_u as usize;
    let t_i: i128 = target as i128;
    let ghost gfx: int = fx as int;
    let ghost gmx: int = mx_u as int;
    let ghost gfy: int = fy as int;
    let ghost gmy: int = my_u as int;
    let ghost gt: int = target as int;
    let mut racc: i128 = 0;
    let mut gacc: i128 = 0;
    let mut bacc: i128 = 0;
    let mut i: usize = 0;
    while i < 4
        invariant
            i <= 4,
            racc == col_sum(*img, gfx, gmx, gfy, gmy, gt, 0, i as nat),
            gacc == col_sum(*img, gfx, gmx, gfy, gmy, gt, 1, i as nat),
            bacc == col_sum(*img, gfx, gmx, gfy, gmy, gt, 2, i as nat),
        decreases 4 - i,
    {
        let v_y: i64 = fy as i64 - 1 + i as i64;
        let sy: usize = if v_y < 0 {
            0
        } else if v_y > s as i64 - 1 {
            s - 1
        } else {
            v_y as usize
        };
        proof {
            assert((i as i64 - 1) * t64 as i64 <= 3 * 65536 && (i as i64 - 1) * t64 as i64
                >= -65536) by (nonlinear_arith)
                requires
                    i <= 4,
                    1 <= t64 <= 65536,
            ;
        }
        let off_y: i64 = (i as i64 - 1) * t64 as i64 - my_u as i64;
        let a_off_y: i64 = if off_y < 0 {
            -off_y
        } else {
            off_y
        };
        let wy: i128 = cubic_weight(a_off_y as i128, t_i);
        proof {
            assert(a_off_y as int == tap_off(i as int, gmy, gt));
            assert(sy as int == tap_coord(gfy, i as int, s as int));
        }
        let mut rrow: i128 = 0;
        let mut grow: i128 = 0;
        let mut brow: i128 = 0;
        let mut j: usize = 0;
        while j < 4
            invariant
                j <= 4,
                rrow == row_sum(*img, gfx, gmx, sy as int, gt, 0, j as nat),
                grow == row_sum(*img, gfx, gmx, sy as int, gt, 1, j as nat),
                brow == row_sum(*img, gfx, gmx, sy as int, gt, 2, j as nat),
            decreases 4 - j,
        {
            let v_x: i64 = fx as i64 - 1 + j as i64;
            let sx: usize = if v_x < 0 {
                0
            } else if v_x > s as i64 - 1 {
                s - 1
            } else {
                v_x as usize
            };
            proof {
                assert((j as i64 - 1) * t64 as i64 <= 3 * 65536 && (j as i64 - 1) * t64 as i64
                    >= -65536) by (nonlinear_arith)
                    requires
                        j <= 4,
                        1 <= t64 <= 65536,
                ;
            }
            let off_x: i64 = (j as i64 - 1) * t64 as i64 - mx_u as i64;
            let a_off_x: i64 = if off_x < 0 {
                -off_x
            } else {
                off_x
            };
            let wx: i128 = cubic_weight(a_off_x as i128, t_i);
            proof {
                assert(a_off_x as int == tap_off(j as int, gmx, gt));
                assert(sx as int == tap_coord(gfx, j as int, s as int));
            }
            let px = img.get_pixel(sx, sy);
            proof {
                lemma_row_sum_bound(*img, gfx, gmx, sy as int, gt, 0, j as nat);
                lemma_row_sum_bound(*img, gfx, gmx, sy as int, gt, 1, j as nat);
                lemma_row_sum_bound(*img, gfx, gmx, sy as int, gt, 2, j as nat);
                lemma_tap_accumulate_in_range(
                    rrow as int,
                    wx as int,
                    px.r as int,
                    gt,
                    j as int,
                );
                lemma_tap_accumulate_in_range(
                    grow as int,
                    wx as int,
                    px.g as int,
                    gt,
                    j as int,
                );
                lemma_tap_accumulate_in_range(
                    brow as int,
                    wx as int,
                    px.b as int,
                    gt,
                    j as int,
                );
            }
            rrow = rrow + wx * px.r as i128;
            grow = grow + wx * px.g as i128;
            brow = brow + wx * px.b as i128;
            j = j + 1;
        }
        proof {
            lemma_row_sum_bound(*img, gfx, gmx, sy as int, gt, 0, 4);
            lemma_row_sum_bound(*img, gfx, gmx, sy as int, gt, 1, 4);
            lemma_row_sum_bound(*img, gfx, gmx, sy as int, gt, 2, 4);
            lemma_col_sum_bound(*img, gfx, gmx, gfy, gmy, gt, 0, i as nat);
            lemma_col_sum_bound(*img, gfx, gmx, gfy, gmy, gt, 1, i as nat);
            lemma_col_sum_bound(*img, gfx, gmx, gfy, gmy, gt, 2, i as nat);
            lemma_row_accumulate_in_range(racc as int, wy as int, rrow as int, gt, i as int);
            lemma_row_accumulate_in_range(gacc as int, wy as int, grow as int, gt, i as int);
            lemma_row_accumulate_in_range(bacc as int, wy as int, brow as int, gt, i as int);
        }
        racc = racc + wy * rrow;
        gacc = gacc + wy * grow;
        bacc = bacc + wy * brow;
        i = i + 1;
    }
    proof {
        assert(t_i * t_i <= 0x1_0000_0000 && t_i * t_i * t_i <= 0x1_0000_0000_0000)
            by (nonlinear_arith)
            requires
                1 <= t_i <= 65536,
        ;
    }
    let t3: i128 = t_i * t_i * t_i;
    proof {
        assert(4 * t3 * t3 == weight_den(gt) && 4 * t3 * t3
            <= 0x4_0000_0000_0000_0000_0000_0000) by (nonlinear_arith)
            requires
                1 <= t3 <= 0x1_0000_0000_0000,
                t3 == gt * gt * gt,
                1 <= gt,
                weight_den(gt) == 4 * gt * gt * gt * gt * gt * gt,
        ;
    }
    let w6: i128 = 4 * t3 * t3;
    let rv = finish_channel(racc, w6);
    let gv = finish_channel(gacc, w6);
    let bv = finish_channel(bacc, w6);
    proof {
        lemma_out_channel_range(racc as int, gt);
        lemma_out_channel_range(gacc as int, gt);
        lemma_out_channel_range(bacc as int, gt);
        assert(rv as int == resampled_channel(*img, gt, tx as int, ty as int, 0));
        assert(gv as int == resampled_channel(*img, gt, tx as int, ty as int, 1));
        assert(bv as int == resampled_channel(*img, gt, tx as int, ty as int, 2));
    }
    Pixel { r: rv, g: gv, b: bv, a: 255 }
}

/// Resize a square raster to `target_size x target_size` by bicubic
/// convolution.  A raster that is not square is rejected with
/// [`TerrainError::ShapeError`]; every square raster succeeds.
#[verifier::loop_isolation(false)]
pub fn bicubic_downsize(img: &Raster, target_size: usize) -> (out: Result<Raster, TerrainError>)
    requires
        img.wf(),
        target_size <= MAX_RESAMPLE_TARGET,
        img.width == img.height ==> img.width >= 1 || target_size == 0,
    ensures
        match out {
            Ok(r) => {
                &&& img.width == img.height
                &&& r.wf()
                &&& r.width == target_size
                &&& r.height == target_size
                &&& forall|tx: int, ty: int|
                    0 <= tx < target_size && 0 <= ty < target_size ==> r.pixel_at(tx, ty)
                        == resampled_pixel(*img, target_size as int, tx, ty)
            },
            Err(e) => e == TerrainError::ShapeError && img.width != img.height,
        },
{
    if img.width != img.height {
        return Err(TerrainError::ShapeError);
    }
    let t = target_size;
    let mut pixels: Vec<Pixel> = Vec::new();
    let mut y: usize = 0;
    while y < t
        invariant
            y <= t,
            pixels@.len() == y * t,
            forall|px: int, py: int|
                0 <= px < t && 0 <= py < y
                    ==> pixels@[py * t + px] == resampled_pixel(*img, t as int, px, py),
        decreases t - y,
    {
        let mut x: usize = 0;
        while x < t
            invariant
                y < t,
                x <= t,
                pixels@.len() == y * t + x,
                forall|px: int, py: int|
                    0 <= px < t && 0 <= py <= y && (py < y || (py == y && px < x))
                        ==> pixels@[py * t + px] == resampled_pixel(*img, t as int, px, py),
            decreases t - x,
        {
            let p = resample_pixel(img, t, x, y);
            pixels.push(p);
            proof {
                assert forall|px: int, py: int|
                    0 <= px < t && 0 <= py <= y && (py < y || (py == y && px < x + 1))
                        implies pixels@[py * t + px] == resampled_pixel(*img, t as int, px, py) by {
                    if py < y || px < x {
                        crate::raster::lemma_row_major_below(px, py, x as int, y as int, t as int);
                    }
                }
            }
            x = x + 1;
        }
        proof {
            assert((y + 1) * t == y * t + t) by (nonlinear_arith);
        }
        y = y + 1;
    }
    let out = Raster { width: t, height: t, pixels };
    proof {
        assert forall|tx: int, ty: int| 0 <= tx < t && 0 <= ty < t implies out.pixel_at(tx, ty)
            == resampled_pixel(*img, t as int, tx, ty) by {
            crate::raster::lemma_grid_index_in_range(tx, ty, t as int, t as int);
        }
    }
    Ok(out)
}

/// Adding one weighted tap to a partial row sum stays within 128 bits.
proof fn lemma_tap_accumulate_in_range(prev: int, w: int, ch: int, den: int, j: int)
    requires
        1 <= den <= 65536,
        0 <= j <= 3,
        -2 * den * den * den <= w <= 2 * den * den * den,
        0 <= ch <= 255,
        -(j as int) * 510 * (den * den * den) <= prev <= (j as int) * 510 * (den * den * den),
    ensures
        i128::MIN <= w * ch <= i128::MAX,
        i128::MIN <= prev + w * ch <= i128::MAX,
{
    assert(-2040 * (den * den * den) <= prev + w * ch <= 2040 * (den * den * den) && -510 * (den
        * den * den) <= w * ch <= 510 * (den * den * den) && den * den * den
        <= 0x1_0000_0000_0000) by (nonlinear_arith)
        requires
            1 <= den <= 65536,
            0 <= j <= 3,
            -2 * den * den * den <= w <= 2 * den * den * den,
            0 <= ch <= 255,
            -(j as int) * 510 * (den * den * den) <= prev <= (j as int) * 510 * (den * den * den),
    ;
}

/// Adding one weighted full row to a partial column sum stays within 128
/// bits.
proof fn lemma_row_accumulate_in_range(prev: int, w: int, row: int, den: int, i: int)
    requires
        1 <= den <= 65536,
        0 <= i <= 3,
        -2 * den * den * den <= w <= 2 * den * den * den,
        -(4int) * 510 * (den * den * den) <= row <= (4int) * 510 * (den * den * den),
        -(i as int) * 1020 * weight_den(den) <= prev <= (i as int) * 1020 * weight_den(den),
    ensures
        i128::MIN <= w * row <= i128::MAX,
        i128::MIN <= prev + w * row <= i128::MAX,
{
    assert(-4080 * weight_den(den) <= prev + w * row <= 4080 * weight_den(den) && -1020
        * weight_den(den) <= w * row <= 1020 * weight_den(den) && 4 <= weight_den(den)
        <= 0x4_0000_0000_0000_0000_0000_0000) by (nonlinear_arith)
        requires
            1 <= den <= 65536,
            0 <= i <= 3,
            weight_den(den) == 4 * den * den * den * den * den * den,
            -2 * den * den * den <= w <= 2 * den * den * den,
            -(4int) * 510 * (den * den * den) <= row <= (4int) * 510 * (den * den * den),
            -(i as int) * 1020 * weight_den(den) <= prev <= (i as int) * 1020 * weight_den(den),
    ;
}

/// Multiplying by a zero factor gives zero (stated for the weighted-sum
/// terms, whose factors the solver otherwise treats as opaque).
proof fn lemma_mul_zero(a: int, b: int)
    by (nonlinear_arith)
    requires
        a == 0,
    ensures
        a * b == 0,
{
}

/// When a source position falls exactly on a source pixel (fractional part
/// zero), the kernel concentrates all weight on that pixel: the center tap
/// gets the full weight `2 den^3` and the other three taps get zero.
proof fn lemma_kernel_taps_integral(den: int)
    requires
        1 <= den,
    ensures
        kernel_num(tap_off(0, 0, den), den) == 0,
        kernel_num(tap_off(1, 0, den), den) == 2 * den * den * den,
        kernel_num(tap_off(2, 0, den), den) == 0,
        kernel_num(tap_off(3, 0, den), den) == 0,
{
    assert(tap_off(0, 0, den) == den);
    assert(tap_off(1, 0, den) == 0);
    assert(tap_off(2, 0, den) == den);
    assert(tap_off(3, 0, den) == 2 * den);
    assert(kernel_num(0, den) == 2 * den * den * den);
    assert(kernel_num(den, den) == 0) by (nonlinear_arith)
        requires
            1 <= den,
            kernel_num(den, den) == -(den * den * den) + 5 * den * den * den - 8 * den * den * den
                + 4 * den * den * den,
    ;
    assert(kernel_num(2 * den, den) == 0);
}

/// The four kernel weights of one axis always sum to the full weight
/// `2 den^3`: the kernel is a partition of unity.
proof fn lemma_kernel_partition(m: int, den: int)
    requires
        0 <= m < den,
    ensures
        kernel_num(tap_off(0, m, den), den) + kernel_num(tap_off(1, m, den), den) + kernel_num(
            tap_off(2, m, den),
            den,
        ) + kernel_num(tap_off(3, m, den), den) == 2 * den * den * den,
{
    if m == 0 {
        lemma_kernel_taps_integral(den);
    } else {
        assert(tap_off(0, m, den) == den + m);
        assert(tap_off(1, m, den) == m);
        assert(tap_off(2, m, den) == den - m);
        assert(tap_off(3, m, den) == 2 * den - m);
        let k0 = kernel_num(den + m, den);
        let k1 = kernel_num(m, den);
        let k2 = kernel_num(den - m, den);
        let k3 = kernel_num(2 * den - m, den);
        assert(k1 + k2 == 2 * den * den * den + den * den * m - den * (m * m))
            by (nonlinear_arith)
            requires
                0 < m < den,
                k1 == 3 * m * m * m - 5 * m * m * den + 2 * den * den * den,
                k2 == 3 * (den - m) * (den - m) * (den - m) - 5 * (den - m) * (den - m) * den + 2
                    * den * den * den,
        ;
        assert(k0 == -(den * den * m) + 2 * (den * (m * m)) - m * m * m) by (nonlinear_arith)
            requires
                0 < m < den,
                k0 == -((den + m) * (den + m) * (den + m)) + 5 * (den + m) * (den + m) * den - 8 * (
                den + m) * den * den + 4 * den * den * den,
        ;
        assert(k3 == -(den * (m * m)) + m * m * m) by (nonlinear_arith)
            requires
                0 < m < den,
                k3 == -((2 * den - m) * (2 * den - m) * (2 * den - m)) + 5 * (2 * den - m) * (2
                    * den - m) * den - 8 * (2 * den - m) * den * den + 4 * den * den * den,
        ;
    }
}

/// The full 4-tap expansion of a row sum.
proof fn lemma_row_sum_expand(src: Raster, fx: int, mx: int, sy: int, den: int, c: int)
    ensures
        row_sum(src, fx, mx, sy, den, c, 4) == kernel_num(tap_off(0, mx, den), den)
            * pixel_channel(src.pixel_at(tap_coord(fx, 0, src.width as int), sy), c) + kernel_num(
            tap_off(1, mx, den),
            den,
        ) * pixel_channel(src.pixel_at(tap_coord(fx, 1, src.width as int), sy), c) + kernel_num(
            tap_off(2, mx, den),
            den,
        ) * pixel_channel(src.pixel_at(tap_coord(fx, 2, src.width as int), sy), c) + kernel_num(
            tap_off(3, mx, den),
            den,
        ) * pixel_channel(src.pixel_at(tap_coord(fx, 3, src.width as int), sy), c),
{
    assert(row_sum(src, fx, mx, sy, den, c, 0) == 0);
    assert(row_sum(src, fx, mx, sy, den, c, 1) == row_sum(src, fx, mx, sy, den, c, 0)
        + kernel_num(tap_off(0, mx, den), den) * pixel_channel(
        src.pixel_at(tap_coord(fx, 0, src.width as int), sy),
        c,
    ));
    assert(row_sum(src, fx, mx, sy, den, c, 2) == row_sum(src, fx, mx, sy, den, c, 1)
        + kernel_num(tap_off(1, mx, den), den) * pixel_channel(
        src.pixel_at(tap_coord(fx, 1, src.width as int), sy),
        c,
    ));
    assert(row_sum(src, fx, mx, sy, den, c, 3) == row_sum(src, fx, mx, sy, den, c, 2)
        + kernel_num(tap_off(2, mx, den), den) * pixel_channel(
        src.pixel_at(tap_coord(fx, 2, src.width as int), sy),
        c,
    ));
    assert(row_sum(src, fx, mx, sy, den, c, 4) == row_sum(src, fx, mx, sy, den, c, 3)
        + kernel_num(tap_off(3, mx, den), den) * pixel_channel(
        src.pixel_at(tap_coord(fx, 3, src.width as int), sy),
        c,
    ));
}

/// The full 4-row expansion of a column sum.
proof fn lemma_col_sum_expand(src: Raster, fx: int, mx: int, fy: int, my: int, den: int, c: int)
    ensures
        col_sum(src, fx, mx, fy, my, den, c, 4) == kernel_num(tap_off(0, my, den), den) * row_sum(
            src,
            fx,
            mx,
            tap_coord(fy, 0, src.height as int),
            den,
            c,
            4,
        ) + kernel_num(tap_off(1, my, den), den) * row_sum(
            src,
            fx,
            mx,
            tap_coord(fy, 1, src.height as int),
            den,
            c,
            4,
        ) + kernel_num(tap_off(2, my, den), den) * row_sum(
            src,
            fx,
            mx,
            tap_coord(fy, 2, src.height as int),
            den,
            c,
            4,
        ) + kernel_num(tap_off(3, my, den), den) * row_sum(
            src,
            fx,
            mx,
            tap_coord(fy, 3, src.height as int),
            den,
            c,
            4,
        ),
{
    assert(col_sum(src, fx, mx, fy, my, den, c, 0) == 0);
    assert(col_sum(src, fx, mx, fy, my, den, c, 1) == col_sum(src, fx, mx, fy, my, den, c, 0)
        + kernel_num(tap_off(0, my, den), den) * row_sum(
        src,
        fx,
        mx,
        tap_coord(fy, 0, src.height as int),
        den,
        c,
        4,
    ));
    assert(col_sum(src, fx, mx, fy, my, den, c, 2) == col_sum(src, fx, mx, fy, my, den, c, 1)
        + kernel_num(tap_off(1, my, den), den) * row_sum(
        src,
        fx,
        mx,
        tap_coord(fy, 1, src.height as int),
        den,
        c,
        4,
    ));
    assert(col_sum(src, fx, mx, fy, my, den, c, 3) == col_sum(src, fx, mx, fy, my, den, c, 2)
        + kernel_num(tap_off(2, my, den), den) * row_sum(
        src,
        fx,
        mx,
        tap_coord(fy, 2, src.height as int),
        den,
        c,
        4,
    ));
    assert(col_sum(src, fx, mx, fy, my, den, c, 4) == col_sum(src, fx, mx, fy, my, den, c, 3)
        + kernel_num(tap_off(3, my, den), den) * row_sum(
        src,
        fx,
        mx,
        tap_coord(fy, 3, src.height as int),
        den,
        c,
        4,
    ));
}

/// Dividing a channel value scaled by the full weight gives the channel
/// value back.
proof fn lemma_out_channel_exact(ch: int, den: int)
    requires
        0 <= ch <= 255,
        1 <= den,
    ensures
        out_channel(weight_den(den) * ch, den) == ch,
{
    let w = weight_den(den);
    assert(w >= 4) by (nonlinear_arith)
        requires
            1 <= den,
            w == 4 * den * den * den * den * den * den,
    ;
    if ch == 0 {
        lemma_mul_zero_right(w, ch);
    } else if ch == 255 {
        assert(w * ch == 255 * w) by (nonlinear_arith)
            requires
                ch == 255,
        ;
    } else {
        assert(0 < w * ch < 255 * w) by (nonlinear_arith)
            requires
                0 < ch < 255,
                w >= 4,
        ;
        assert(w * ch / w == ch) by {
            vstd::arithmetic::div_mod::lemma_div_multiples_vanish(ch, w);
        }
    }
}

/// Multiplying by a zero factor on the right gives zero.
proof fn lemma_mul_zero_right(a: int, b: int)
    by (nonlinear_arith)
    requires
        b == 0,
    ensures
        a * b == 0,
{
}

/// Identity resampling: resampling a square raster to its own resolution
/// reproduces every pixel's color channels exactly and forces the result
/// fully opaque.
pub proof fn lemma_resample_identity(src: Raster, tx: int, ty: int)
    requires
        src.wf(),
        src.width == src.height,
        1 <= src.width,
        0 <= tx < src.width,
        0 <= ty < src.width,
    ensures
        resampled_pixel(src, src.width as int, tx, ty) == (Pixel {
            r: src.pixel_at(tx, ty).r,
            g: src.pixel_at(tx, ty).g,
            b: src.pixel_at(tx, ty).b,
            a: 255,
        }),
{
    let s = src.width as int;
    assert(tx * s % s == 0 && tx * s / s == tx && ty * s % s == 0 && ty * s / s == ty) by {
        lemma_mod_multiples_basic(tx, s);
        lemma_mod_multiples_basic(ty, s);
        vstd::arithmetic::div_mod::lemma_div_multiples_vanish(tx, s);
        vstd::arithmetic::div_mod::lemma_div_multiples_vanish(ty, s);
        assert(tx * s == s * tx) by (nonlinear_arith);
        assert(ty * s == s * ty) by (nonlinear_arith);
    }
    lemma_kernel_taps_integral(s);
    assert forall|c: int| 0 <= c < 3 implies resampled_channel(src, s, tx, ty, c)
        == pixel_channel(src.pixel_at(tx, ty), c) by {
        lemma_channel_identity(src, tx, ty, c);
    }
}

/// One channel of the identity-resampling argument.
proof fn lemma_channel_identity(src: Raster, tx: int, ty: int, c: int)
    requires
        src.wf(),
        src.width == src.height,
        1 <= src.width,
        0 <= tx < src.width,
        0 <= ty < src.width,
        tx * src.width % src.width as int == 0,
        tx * src.width / src.width as int == tx,
        ty * src.width % src.width as int == 0,
        ty * src.width / src.width as int == ty,
    ensures
        resampled_channel(src, src.width as int, tx, ty, c) == pixel_channel(
            src.pixel_at(tx, ty),
            c,
        ),
{
    let s = src.width as int;
    lemma_kernel_taps_integral(s);
    let ch = pixel_channel(src.pixel_at(tx, ty), c);
    // the center row: all weight on the center tap
    assert(tap_coord(tx, 1, s) == tx);
    assert(row_sum(src, tx, 0, ty, s, c, 4) == 2 * s * s * s * ch) by {
        lemma_row_sum_expand(src, tx, 0, ty, s, c);
        lemma_mul_zero(kernel_num(tap_off(0, 0, s), s), pixel_channel(
            src.pixel_at(tap_coord(tx, 0, s), ty),
            c,
        ));
        lemma_mul_zero(kernel_num(tap_off(2, 0, s), s), pixel_channel(
            src.pixel_at(tap_coord(tx, 2, s), ty),
            c,
        ));
        lemma_mul_zero(kernel_num(tap_off(3, 0, s), s), pixel_channel(
            src.pixel_at(tap_coord(tx, 3, s), ty),
            c,
        ));
    }
    // the column: all weight on the center row
    assert(tap_coord(ty, 1, s) == ty);
    let w = 2 * s * s * s;
    assert(col_sum(src, tx, 0, ty, 0, s, c, 4) == w * (w * ch)) by {
        lemma_col_sum_expand(src, tx, 0, ty, 0, s, c);
        lemma_mul_zero(kernel_num(tap_off(0, 0, s), s), row_sum(
            src,
            tx,
            0,
            tap_coord(ty, 0, s),
            s,
            c,
            4,
        ));
        lemma_mul_zero(kernel_num(tap_off(2, 0, s), s), row_sum(
            src,
            tx,
            0,
            tap_coord(ty, 2, s),
            s,
            c,
            4,
        ));
        lemma_mul_zero(kernel_num(tap_off(3, 0, s), s), row_sum(
            src,
            tx,
            0,
            tap_coord(ty, 3, s),
            s,
            c,
            4,
        ));
    }
    assert(w * (w * ch) == weight_den(s) * ch) by (nonlinear_arith)
        requires
            w == 2 * s * s * s,
            weight_den(s) == 4 * s * s * s * s * s * s,
    ;
    lemma_out_channel_exact(ch, s);
}

/// Uniform rasters are invariant under resampling: every output pixel of
/// any target resolution carries the uniform color, fully opaque.
pub proof fn lemma_resample_uniform(src: Raster, target: int, c: Pixel, tx: int, ty: int)
    requires
        src.wf(),
        src.width == src.height,
        1 <= src.width,
        1 <= target,
        0 <= tx < target,
        0 <= ty < target,
        forall|x: int, y: int| src.in_bounds(x, y) ==> src.pixel_at(x, y) == c,
    ensures
        resampled_pixel(src, target, tx, ty) == (Pixel { r: c.r, g: c.g, b: c.b, a: 255 }),
{
    let s = src.width as int;
    let fx = tx * s / target;
    let mx = (tx * s) % target;
    let fy = ty * s / target;
    let my = (ty * s) % target;
    assert(0 <= tx * s && 0 <= ty * s) by (nonlinear_arith)
        requires
            0 <= tx,
            0 <= ty,
            0 <= s,
    ;
    lemma_mod_bound(tx * s, target);
    lemma_mod_bound(ty * s, target);
    assert forall|cc: int| 0 <= cc < 3 implies resampled_channel(src, target, tx, ty, cc)
        == pixel_channel(c, cc) by {
        lemma_channel_uniform(src, target, c, fx, mx, fy, my, cc);
    }
}

/// One channel of the uniform-resampling argument.
proof fn lemma_channel_uniform(
    src: Raster,
    target: int,
    c: Pixel,
    fx: int,
    mx: int,
    fy: int,
    my: int,
    cc: int,
)
    requires
        src.wf(),
        src.width == src.height,
        1 <= src.width,
        1 <= target,
        0 <= mx < target,
        0 <= my < target,
        forall|x: int, y: int| src.in_bounds(x, y) ==> src.pixel_at(x, y) == c,
    ensures
        out_channel(col_sum(src, fx, mx, fy, my, target, cc, 4), target) == pixel_channel(c, cc),
{
    let s = src.width as int;
    let ch = pixel_channel(c, cc);
    lemma_kernel_partition(mx, target);
    lemma_kernel_partition(my, target);
    let k0 = kernel_num(tap_off(0, mx, target), target);
    let k1 = kernel_num(tap_off(1, mx, target), target);
    let k2 = kernel_num(tap_off(2, mx, target), target);
    let k3 = kernel_num(tap_off(3, mx, target), target);
    let w = 2 * target * target * target;
    assert forall|sy: int| 0 <= sy < s implies row_sum(src, fx, mx, sy, target, cc, 4) == w
        * ch by {
        assert(src.in_bounds(tap_coord(fx, 0, s), sy));
        assert(src.in_bounds(tap_coord(fx, 1, s), sy));
        assert(src.in_bounds(tap_coord(fx, 2, s), sy));
        assert(src.in_bounds(tap_coord(fx, 3, s), sy));
        lemma_row_sum_expand(src, fx, mx, sy, target, cc);
        assert(row_sum(src, fx, mx, sy, target, cc, 4) == k0 * ch + k1 * ch + k2 * ch + k3 * ch);
        assert(k0 * ch + k1 * ch + k2 * ch + k3 * ch == w * ch) by (nonlinear_arith)
            requires
                k0 + k1 + k2 + k3 == w,
        ;
    }
    let j0 = kernel_num(tap_off(0, my, target), target);
    let j1 = kernel_num(tap_off(1, my, target), target);
    let j2 = kernel_num(tap_off(2, my, target), target);
    let j3 = kernel_num(tap_off(3, my, target), target);
    assert(0 <= tap_coord(fy, 0, s) < s);
    assert(0 <= tap_coord(fy, 1, s) < s);
    assert(0 <= tap_coord(fy, 2, s) < s);
    assert(0 <= tap_coord(fy, 3, s) < s);
    lemma_col_sum_expand(src, fx, mx, fy, my, target, cc);
    assert(col_sum(src, fx, mx, fy, my, target, cc, 4) == j0 * (w * ch) + j1 * (w * ch) + j2 * (w
        * ch) + j3 * (w * ch));
    assert(j0 * (w * ch) + j1 * (w * ch) + j2 * (w * ch) + j3 * (w * ch) == weight_den(target)
        * ch) by (nonlinear_arith)
        requires
            j0 + j1 + j2 + j3 == w,
            w == 2 * target * target * target,
            weight_den(target) == 4 * target * target * target * target * target * target,
    ;
    lemma_out_channel_exact(ch, target);
}

} // verus!
