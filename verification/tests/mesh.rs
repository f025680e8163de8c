use terrain_builder::frac::Frac;
use terrain_builder::mesh::{
    derive_wireframe, generate_tiled_plane, generate_tiled_plane_colorimg, Mesh, MeshColoring,
    TopologyMode,
};
use terrain_builder::raster::{Pixel, Raster};
use terrain_builder::TerrainError;

fn val(f: Frac) -> f32 {
    f.num as f32 / f.den as f32
}

fn uniform_raster(width: usize, height: usize, p: Pixel) -> Raster {
    Raster { width, height, pixels: vec![p; width * height] }
}

#[test]
fn grid_counts_for_three_by_two_tiles() {
    let m = generate_tiled_plane(20, 20, 3, 2);
    // 4 * 3 = 12 shared vertices
    assert_eq!(m.vertices().len(), 12);
    // 2 * 3 * 2 = 12 filled triangles
    assert_eq!(m.triangle_indices().len(), 36);
    // 12 triangles * 6 wireframe entries, shared edges double-counted
    assert_eq!(m.wireframe_indices().len(), 72);
    assert_eq!(m.topology_mode(), TopologyMode::Filled);
}

#[test]
fn flat_plane_vertices_span_the_extents() {
    let m = generate_tiled_plane(20, 10, 2, 2);
    let verts = m.vertices();
    // vertex (0, 0) sits at (-width/2, 0, -height/2)
    let v00 = verts[0];
    assert_eq!(val(v00.pos_x), -10.0);
    assert_eq!(val(v00.pos_y), 0.0);
    assert_eq!(val(v00.pos_z), -5.0);
    assert_eq!((val(v00.u), val(v00.v)), (0.0, 0.0));
    // vertex (2, 2) = index 2*3+2 sits at (+width/2, 0, +height/2)
    let v22 = verts[8];
    assert_eq!(val(v22.pos_x), 10.0);
    assert_eq!(val(v22.pos_z), 5.0);
    assert_eq!((val(v22.u), val(v22.v)), (1.0, 1.0));
    // center vertex (1, 1) at the origin, uv (0.5, 0.5)
    let v11 = verts[4];
    assert_eq!((val(v11.pos_x), val(v11.pos_z)), (0.0, 0.0));
    assert_eq!((val(v11.u), val(v11.v)), (0.5, 0.5));
    // without a height raster the grayscale fallback color is 0.25 gray
    assert_eq!(val(v00.col_r), 0.25);
    assert_eq!(val(v00.col_a), 1.0);
}

#[test]
fn white_height_pixel_gives_height_two_and_a_quarter() {
    let white = uniform_raster(3, 3, Pixel { r: 255, g: 255, b: 255, a: 255 });
    let m = generate_tiled_plane_colorimg(
        20,
        20,
        2,
        2,
        Some(&white),
        None,
        MeshColoring::Height,
    )
    .unwrap();
    for v in m.vertices() {
        assert_eq!(val(v.pos_y), 2.25);
    }
    let black = uniform_raster(3, 3, Pixel { r: 0, g: 0, b: 0, a: 255 });
    let m = generate_tiled_plane_colorimg(
        20,
        20,
        2,
        2,
        Some(&black),
        None,
        MeshColoring::Height,
    )
    .unwrap();
    for v in m.vertices() {
        assert_eq!(val(v.pos_y), 0.0);
    }
}

#[test]
fn color_raster_colors_vertices_with_opaque_alpha() {
    let colors = uniform_raster(2, 2, Pixel { r: 255, g: 0, b: 51, a: 7 });
    let m = generate_tiled_plane_colorimg(
        20,
        20,
        1,
        1,
        None,
        Some(&colors),
        MeshColoring::Color,
    )
    .unwrap();
    for v in m.vertices() {
        assert_eq!(val(v.col_r), 1.0);
        assert_eq!(val(v.col_g), 0.0);
        assert_eq!(val(v.col_b), 0.2);
        // alpha is forced fully opaque regardless of the raster's alpha
        assert_eq!(val(v.col_a), 1.0);
    }
}

#[test]
fn color_mode_without_raster_falls_back_to_height_gray() {
    let white = uniform_raster(2, 2, Pixel { r: 255, g: 255, b: 255, a: 255 });
    let m = generate_tiled_plane_colorimg(
        20,
        20,
        1,
        1,
        Some(&white),
        None,
        MeshColoring::Color,
    )
    .unwrap();
    for v in m.vertices() {
        // h/6 + 0.25 with h = 2.25 gives 0.625
        assert_eq!(val(v.col_r), 0.625);
        assert_eq!(val(v.col_g), 0.625);
        assert_eq!(val(v.col_b), 0.625);
    }
}

#[test]
fn mismatched_raster_resolution_is_rejected() {
    let r = uniform_raster(3, 3, Pixel { r: 0, g: 0, b: 0, a: 255 });
    let out = generate_tiled_plane_colorimg(20, 20, 4, 4, Some(&r), None, MeshColoring::Height);
    assert_eq!(out.unwrap_err(), TerrainError::PreconditionViolation);
    let out = generate_tiled_plane_colorimg(20, 20, 4, 4, None, Some(&r), MeshColoring::Color);
    assert_eq!(out.unwrap_err(), TerrainError::PreconditionViolation);
}

#[test]
fn single_tile_triangles_share_all_four_vertices() {
    let m = generate_tiled_plane(20, 20, 1, 1);
    // vertex index of (x, y) is x * 2 + y
    assert_eq!(m.triangle_indices().as_slice(), &[0, 2, 1, 3, 1, 2]);
    assert_eq!(
        m.wireframe_indices().as_slice(),
        &[0, 2, 2, 1, 1, 0, 3, 1, 1, 2, 2, 3]
    );
}

#[test]
fn every_index_stays_below_the_vertex_count() {
    let m = generate_tiled_plane(20, 20, 5, 7);
    let n = m.vertices().len() as u32;
    assert!(m.triangle_indices().iter().all(|i| *i < n));
    assert!(m.wireframe_indices().iter().all(|i| *i < n));
}

#[test]
fn wireframe_derivation_expands_each_triangle_to_three_edges() {
    let tris: Vec<u32> = vec![4, 5, 6, 1, 2, 3];
    let wires = derive_wireframe(&tris);
    assert_eq!(wires, vec![4, 5, 5, 6, 6, 4, 1, 2, 2, 3, 3, 1]);
}

#[test]
fn topology_toggle_touches_only_the_tag() {
    let mut m = generate_tiled_plane(20, 20, 2, 2);
    let verts_before: Vec<_> = m.vertices().clone();
    let tris_before = m.triangle_indices().clone();
    let wires_before = m.wireframe_indices().clone();
    assert_eq!(m.active_indices(), m.triangle_indices());
    m.set_topology_mode(TopologyMode::Wireframe);
    assert_eq!(m.topology_mode(), TopologyMode::Wireframe);
    assert_eq!(m.vertices(), &verts_before);
    assert_eq!(m.triangle_indices(), &tris_before);
    assert_eq!(m.wireframe_indices(), &wires_before);
    assert_eq!(m.active_indices(), &wires_before);
}

#[test]
fn mesh_new_validates_indices() {
    let m = generate_tiled_plane(20, 20, 1, 1);
    let verts = m.vertices().clone();
    let ok = Mesh::new(verts.clone(), vec![0, 1, 2], TopologyMode::Filled).unwrap();
    assert_eq!(ok.wireframe_indices().as_slice(), &[0, 1, 1, 2, 2, 0]);
    // an index past the vertex count is rejected
    let bad = Mesh::new(verts.clone(), vec![0, 1, 9], TopologyMode::Filled);
    assert_eq!(bad.unwrap_err(), TerrainError::PreconditionViolation);
    // a list that is not whole triples is rejected
    let bad = Mesh::new(verts, vec![0, 1], TopologyMode::Filled);
    assert_eq!(bad.unwrap_err(), TerrainError::PreconditionViolation);
}

#[test]
fn builder_output_is_deterministic() {
    let heights = uniform_raster(4, 3, Pixel { r: 9, g: 30, b: 77, a: 255 });
    let a = generate_tiled_plane_colorimg(20, 20, 3, 2, Some(&heights), None, MeshColoring::Height)
        .unwrap();
    let b = generate_tiled_plane_colorimg(20, 20, 3, 2, Some(&heights), None, MeshColoring::Height)
        .unwrap();
    assert_eq!(a.vertices(), b.vertices());
    assert_eq!(a.triangle_indices(), b.triangle_indices());
    assert_eq!(a.wireframe_indices(), b.wireframe_indices());
}
