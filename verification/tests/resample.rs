use terrain_builder::raster::{colorimage_to_bw, crop_top_left_square, Pixel, Raster};
use terrain_builder::resample::bicubic_downsize;
use terrain_builder::TerrainError;

fn px(r: u8, g: u8, b: u8) -> Pixel {
    Pixel { r, g, b, a: 255 }
}

fn raster_from(width: usize, height: usize, f: impl Fn(usize, usize) -> Pixel) -> Raster {
    let mut pixels = Vec::new();
    for y in 0..height {
        for x in 0..width {
            pixels.push(f(x, y));
        }
    }
    Raster { width, height, pixels }
}

#[test]
fn identity_resample_reproduces_the_raster() {
    let src = raster_from(4, 4, |x, y| px((x * 40) as u8, (y * 50) as u8, (x + y) as u8));
    let out = bicubic_downsize(&src, 4).unwrap();
    assert_eq!(out.width, 4);
    assert_eq!(out.height, 4);
    for y in 0..4 {
        for x in 0..4 {
            let s = src.pixels[y * 4 + x];
            let o = out.pixels[y * 4 + x];
            assert_eq!((o.r, o.g, o.b, o.a), (s.r, s.g, s.b, 255));
        }
    }
}

#[test]
fn uniform_raster_is_resample_invariant() {
    let src = raster_from(8, 8, |_, _| px(10, 20, 30));
    for target in [1usize, 3, 5, 8, 13] {
        let out = bicubic_downsize(&src, target).unwrap();
        assert_eq!(out.width, target);
        assert!(out.pixels.iter().all(|p| *p == px(10, 20, 30)));
    }
}

#[test]
fn non_square_raster_is_rejected_with_shape_error() {
    for (w, h) in [(2usize, 3usize), (3, 2), (1, 5), (512, 511), (0, 1)] {
        let src = raster_from(w, h, |_, _| px(0, 0, 0));
        assert_eq!(bicubic_downsize(&src, 4), Err(TerrainError::ShapeError));
    }
}

#[test]
fn downsample_two_to_one_keeps_the_top_left_sample() {
    let src = raster_from(2, 2, |x, y| px((x * 100 + y * 7) as u8, 0, 0));
    let out = bicubic_downsize(&src, 1).unwrap();
    assert_eq!(out.pixels.len(), 1);
    // target pixel 0 maps exactly onto source pixel (0, 0)
    assert_eq!(out.pixels[0], px(0, 0, 0));
}

#[test]
fn upsample_interpolates_with_the_cubic_kernel() {
    // black left column, white right column, doubled to 4x4: the sample at
    // source coordinate 0.5 weighs the columns (-8, 72, 72, -8)/128 after
    // clamp-to-edge, giving (72*255 - 8*255)/128 = 127.5, truncated to 127
    let src = raster_from(2, 2, |x, _| if x == 0 { px(0, 0, 0) } else { px(255, 255, 255) });
    let out = bicubic_downsize(&src, 4).unwrap();
    for y in 0..4 {
        assert_eq!(out.pixels[y * 4 + 0].r, 0);
        assert_eq!(out.pixels[y * 4 + 1].r, 127);
        assert_eq!(out.pixels[y * 4 + 2].r, 255);
        // source coordinate 1.5 samples columns (0, 1, 1, 1) after clamping:
        // (-8*0 + 72*255 + 72*255 - 8*255)/128 = 270.9..., clamped to 255
        assert_eq!(out.pixels[y * 4 + 3].r, 255);
        assert_eq!(out.pixels[y * 4 + 0].a, 255);
    }
}

#[test]
fn resample_to_zero_gives_an_empty_raster() {
    let src = raster_from(3, 3, |_, _| px(1, 2, 3));
    let out = bicubic_downsize(&src, 0).unwrap();
    assert_eq!(out.width, 0);
    assert_eq!(out.height, 0);
    assert!(out.pixels.is_empty());
}

#[test]
fn crop_keeps_the_top_left_square_region() {
    let src = raster_from(5, 3, |x, y| px(x as u8, y as u8, 0));
    let out = crop_top_left_square(&src);
    assert_eq!(out.width, 3);
    assert_eq!(out.height, 3);
    for y in 0..3 {
        for x in 0..3 {
            assert_eq!(out.pixels[y * 3 + x], px(x as u8, y as u8, 0));
        }
    }
    // tall rasters crop by width instead
    let tall = raster_from(2, 6, |x, y| px(x as u8, y as u8, 1));
    let out = crop_top_left_square(&tall);
    assert_eq!((out.width, out.height), (2, 2));
}

#[test]
fn cropped_import_always_resamples_cleanly() {
    // the import path: crop to square, then resample to canvas resolution
    let src = raster_from(7, 4, |x, y| px((x * 30) as u8, (y * 60) as u8, 0));
    let cropped = crop_top_left_square(&src);
    let canvas = bicubic_downsize(&cropped, 16).unwrap();
    assert_eq!((canvas.width, canvas.height), (16, 16));
}

#[test]
fn grayscale_conversion_averages_the_channels() {
    let src = raster_from(2, 1, |x, _| if x == 0 { px(10, 20, 30) } else { px(255, 255, 254) });
    let out = colorimage_to_bw(&src);
    assert_eq!(out.pixels[0], px(20, 20, 20));
    // (255 + 255 + 254) / 3 = 254 (rounded down)
    assert_eq!(out.pixels[1], px(254, 254, 254));
}
