use terrain_builder::drawing::{Drawing, CANVAS_SIDE};
use terrain_builder::raster::Pixel;

fn black() -> Pixel {
    Pixel { r: 0, g: 0, b: 0, a: 255 }
}

#[test]
fn new_canvas_is_black_and_square() {
    let d = Drawing::new();
    assert_eq!(d.texture.width, CANVAS_SIDE);
    assert_eq!(d.texture.height, CANVAS_SIDE);
    assert_eq!(d.texture.pixels.len(), CANVAS_SIDE * CANVAS_SIDE);
    assert!(d.texture.pixels.iter().all(|p| *p == black()));
}

#[test]
fn zero_delta_stroke_leaves_canvas_unchanged() {
    let mut d = Drawing::new();
    d.paint_stroke(100, 200, 50, 80, 10, 5);
    let before = d.get_image();
    d.paint_stroke(100, 200, 50, 0, 0, 0);
    assert_eq!(d.texture.pixels, before.pixels);
}

#[test]
fn stroke_is_disk_shaped_not_square() {
    let mut d = Drawing::new();
    d.paint_stroke(100, 100, 10, 26, 26, 26);
    // center of the disk is painted
    assert_eq!(d.texture.pixels[100 * CANVAS_SIDE + 100].r, 26);
    // point on the circle boundary is painted
    assert_eq!(d.texture.pixels[100 * CANVAS_SIDE + 110].r, 26);
    // corner of the bounding box lies outside the disk and is skipped
    assert_eq!(d.texture.pixels[110 * CANVAS_SIDE + 110].r, 0);
    // pixel at distance sqrt(8^2 + 6^2) = 10 is exactly on the boundary
    assert_eq!(d.texture.pixels[106 * CANVAS_SIDE + 108].r, 26);
    // pixel just outside: distance sqrt(8^2 + 7^2) > 10
    assert_eq!(d.texture.pixels[107 * CANVAS_SIDE + 108].r, 0);
}

#[test]
fn stroke_leaves_alpha_opaque_and_adds_delta() {
    let mut d = Drawing::new();
    d.paint_stroke(50, 60, 5, 10, 20, 30);
    let p = d.texture.pixels[60 * CANVAS_SIDE + 50];
    assert_eq!((p.r, p.g, p.b, p.a), (10, 20, 30, 255));
}

#[test]
fn repeated_strokes_saturate_and_become_idempotent() {
    let mut d = Drawing::new();
    let mut last = 0u8;
    for _ in 0..3 {
        d.paint_stroke(10, 10, 3, 100, 100, 100);
        let c = d.texture.pixels[10 * CANVAS_SIDE + 10].r;
        // each stroke moves the channel monotonically toward the bound
        assert!(c >= last);
        last = c;
    }
    assert_eq!(last, 255);
    // saturated: one more identical stroke changes nothing
    let before = d.get_image();
    d.paint_stroke(10, 10, 3, 100, 100, 100);
    assert_eq!(d.texture.pixels, before.pixels);
}

#[test]
fn negative_delta_moves_channels_toward_zero() {
    let mut d = Drawing::new();
    d.paint_stroke(10, 10, 3, 90, 90, 90);
    d.paint_stroke(10, 10, 3, -40, -40, -40);
    assert_eq!(d.texture.pixels[10 * CANVAS_SIDE + 10].r, 50);
    d.paint_stroke(10, 10, 3, -60, -60, -60);
    assert_eq!(d.texture.pixels[10 * CANVAS_SIDE + 10].r, 0);
    // at the lower bound the stroke is idempotent
    let before = d.get_image();
    d.paint_stroke(10, 10, 3, -60, -60, -60);
    assert_eq!(d.texture.pixels, before.pixels);
}

#[test]
fn default_stroke_is_a_dark_gray_increment() {
    let mut d = Drawing::new();
    d.paint_stroke_default(256, 256, 12);
    let p = d.texture.pixels[256 * CANVAS_SIDE + 256];
    assert_eq!((p.r, p.g, p.b), (26, 26, 26));
}

#[test]
fn stroke_clipped_at_canvas_edge() {
    let mut d = Drawing::new();
    d.paint_stroke(0, 0, 12, 26, 26, 26);
    assert_eq!(d.texture.pixels[0].r, 26);
    assert_eq!(d.texture.pixels[12].r, 26);
    assert_eq!(d.texture.pixels[13].r, 0);
}

#[test]
fn add_box_fills_a_red_square() {
    let mut d = Drawing::new();
    d.add_box(5, 5, 2);
    let red = Pixel { r: 255, g: 0, b: 0, a: 255 };
    for y in 3..=7usize {
        for x in 3..=7usize {
            assert_eq!(d.texture.pixels[y * CANVAS_SIDE + x], red);
        }
    }
    assert_eq!(d.texture.pixels[2 * CANVAS_SIDE + 5], black());
    assert_eq!(d.texture.pixels[8 * CANVAS_SIDE + 5], black());
}

#[test]
fn pointer_mapping_floors_to_pixel_coordinates() {
    let d = Drawing::new();
    // (1/2, 1/4) on a 512 canvas
    let (px, py) = d.map_pointer_to_pixel(1, 2, 1, 4);
    assert_eq!((px, py), (256, 128));
    // the far edge maps to the side length itself
    let (px, py) = d.map_pointer_to_pixel(1, 1, 0, 1);
    assert_eq!((px, py), (512, 0));
    // floor, not rounding: 0.999 * 512 = 511.488
    let (px, _) = d.map_pointer_to_pixel(999, 1000, 0, 1);
    assert_eq!(px, 511);
}

#[test]
fn set_texture_replaces_canvas_content() {
    let mut d = Drawing::new();
    let img = terrain_builder::raster::Raster::new(4, 4, Pixel { r: 7, g: 8, b: 9, a: 255 });
    d.set_texture(img);
    assert_eq!(d.texture.width, 4);
    assert_eq!(d.texture.pixels[0], Pixel { r: 7, g: 8, b: 9, a: 255 });
}
