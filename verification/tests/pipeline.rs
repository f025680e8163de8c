use terrain_builder::drawing::{Drawing, CANVAS_SIDE};
use terrain_builder::mesh::{generate_tiled_plane_colorimg, MeshColoring};
use terrain_builder::resample::bicubic_downsize;

/// The full painting pipeline: paint one brush stroke on a fresh canvas,
/// shrink the canvas to the grid resolution, and build the terrain mesh.
#[test]
fn paint_resample_and_build_terrain() {
    let mut canvas = Drawing::new();
    canvas.paint_stroke(256, 256, 12, 26, 26, 26);
    // the stroke landed on the canvas
    let center = canvas.texture.pixels[256 * CANVAS_SIDE + 256];
    assert_eq!((center.r, center.g, center.b), (26, 26, 26));

    // a 4x4-tile grid needs a 5x5 height raster
    let snapshot = canvas.get_image();
    let heights = bicubic_downsize(&snapshot, 5).unwrap();
    assert_eq!((heights.width, heights.height), (5, 5));

    let mesh = generate_tiled_plane_colorimg(
        20,
        20,
        4,
        4,
        Some(&heights),
        None,
        MeshColoring::Height,
    )
    .unwrap();
    // 5 * 5 shared vertices
    assert_eq!(mesh.vertices().len(), 25);
    // 2 * 4 * 4 = 32 filled triangles
    assert_eq!(mesh.triangle_indices().len(), 96);
    // 32 * 6 = 192 wireframe entries
    assert_eq!(mesh.wireframe_indices().len(), 192);
    // the corner vertices sample untouched black canvas: height exactly 0
    for (x, y) in [(0usize, 0usize), (0, 4), (4, 0), (4, 4)] {
        let v = mesh.vertices()[x * 5 + y];
        assert_eq!(v.pos_y.num, 0);
    }
}

/// A painted region that covers a sampling point of the resampler shows up
/// as positive vertex height in the mesh.
#[test]
fn painted_region_raises_sampled_vertices() {
    let mut canvas = Drawing::new();
    // the 5x5 resampling grid samples source coordinate 2 * 512/5 = 204.8;
    // paint a stroke that covers that neighborhood
    canvas.paint_stroke(205, 205, 12, 26, 26, 26);
    let heights = bicubic_downsize(&canvas.get_image(), 5).unwrap();
    let mesh = generate_tiled_plane_colorimg(
        20,
        20,
        4,
        4,
        Some(&heights),
        None,
        MeshColoring::Height,
    )
    .unwrap();
    let v = mesh.vertices()[2 * 5 + 2];
    assert!(v.pos_y.num > 0);
    // vertices far from the stroke stay at height 0
    assert_eq!(mesh.vertices()[0].pos_y.num, 0);
}
