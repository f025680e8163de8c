//! Tiled terrain-mesh building.
//!
//! A [`Mesh`] holds per-vertex attributes (position, texture coordinate,
//! color — all exact rationals) plus two index topologies over the same
//! vertices: a filled triangle list and a wireframe edge list derived from
//! it.  [`generate_tiled_plane_colorimg`] builds a shared-vertex grid mesh
//! whose heights and colors are sampled from rasters of matching
//! resolution; [`generate_tiled_plane`] builds the same grid flat.

use crate::frac::Frac;
use crate::raster::Raster;
use crate::TerrainError;
use vstd::arithmetic::div_mod::{
    lemma_fundamental_div_mod, lemma_fundamental_div_mod_converse_div,
    lemma_fundamental_div_mod_converse_mod, lemma_multiply_divide_lt,
};
use vstd::prelude::*;

verus! {

/// Which index buffer a renderer should bind.  Switching the mode never
/// touches vertex data; both index lists are kept precomputed.
#[derive(Clone, Copy, Debug, PartialEq, Eq, Structural)]
pub enum TopologyMode {
    Filled,
    Wireframe,
}

/// How the mesh builder colors vertices: from a color raster, or as a
/// grayscale visualization of each vertex's own height.
#[derive(Clone, Copy, Debug, PartialEq, Eq, Structural)]
pub enum MeshColoring {
    Color,
    Height,
}

/// One mesh vertex: position, texture coordinate and RGBA color, each
/// scalar an exact rational.
#[derive(Clone, Copy, Debug, PartialEq, Eq, Structural)]
pub struct Vertex {
    pub pos_x: Frac,
    pub pos_y: Frac,
    pub pos_z: Frac,
    pub u: Frac,
    pub v: Frac,
    pub col_r: Frac,
    pub col_g: Frac,
    pub col_b: Frac,
    pub col_a: Frac,
}

/// A triangle index list is valid over `vcount` vertices when it comes in
/// whole triples and every index refers to an existing vertex.
pub open spec fn valid_triangle_indices(t: Seq<u32>, vcount: nat) -> bool {
    t.len() % 3 == 0 && forall|i: int| 0 <= i < t.len() ==> (t[i] as nat) < vcount
}

/// Element `k` of the wireframe expansion: triangle `k / 6` contributes,
/// in order, `a, b, b, c, c, a` — its edges `(a,b)`, `(b,c)`, `(c,a)`.
pub open spec fn wireframe_elem(t: Seq<u32>, k: int) -> u32 {
    let tri = k / 6;
    let r = k % 6;
    if r == 0 {
        t[3 * tri]
    } else if r == 1 {
        t[3 * tri + 1]
    } else if r == 2 {
        t[3 * tri + 1]
    } else if r == 3 {
        t[3 * tri + 2]
    } else if r == 4 {
        t[3 * tri + 2]
    } else {
        t[3 * tri]
    }
}

/// The wireframe expansion of a triangle list: every triangle contributes
/// its three edges as index pairs; an edge shared by two triangles is kept
/// once per owning triangle, not deduplicated.
pub open spec fn wireframe_of(t: Seq<u32>) -> Seq<u32> {
    Seq::new((t.len() / 3 * 6) as nat, |k: int| wireframe_elem(t, k))
}

/// Derive the wireframe index list from a triangle index list.
#[verifier::loop_isolation(false)]
pub fn derive_wireframe(tri: &Vec<u32>) -> (out: Vec<u32>)
    requires
        tri@.len() % 3 == 0,
    ensures
        out@ == wireframe_of(tri@),
{
    let n = tri.len();
    let m = n / 3;
    proof {
        lemma_fundamental_div_mod(n as int, 3);
    }
    let mut out: Vec<u32> = Vec::new();
    let mut t: usize = 0;
    while t < m
        invariant
            t <= m,
            out@.len() == t * 6,
            forall|k: int| 0 <= k < out@.len() ==> out@[k] == wireframe_elem(tri@, k),
        decreases m - t,
    {
        let base = t * 3;
        let a = tri[base];
        let b = tri[base + 1];
        let c = tri[base + 2];
        out.push(a);
        out.push(b);
        out.push(b);
        out.push(c);
        out.push(c);
        out.push(a);
        proof {
            assert forall|k: int| 0 <= k < out@.len() implies out@[k] == wireframe_elem(
                tri@,
                k,
            ) by {
                if k >= t * 6 {
                    let r = k - t * 6;
                    lemma_fundamental_div_mod_converse_div(k, 6, t as int, r);
                    lemma_fundamental_div_mod_converse_mod(k, 6, t as int, r);
                }
            }
        }
        t = t + 1;
    }
    proof {
        assert(out@ =~= wireframe_of(tri@));
    }
    out
}

/// A grid mesh: vertex attributes plus the two index topologies.
#[derive(Debug)]
pub struct Mesh {
    vertices: Vec<Vertex>,
    triangle_indices: Vec<u32>,
    wireframe_indices: Vec<u32>,
    topology_mode: TopologyMode,
}

impl Mesh {
    /// The vertex sequence.
    pub closed spec fn vertices_view(self) -> Seq<Vertex> {
        self.vertices@
    }

    /// The filled-triangle index sequence (flat, three entries per
    /// triangle).
    pub closed spec fn triangles_view(self) -> Seq<u32> {
        self.triangle_indices@
    }

    /// The wireframe index sequence (flat, two entries per edge).
    pub closed spec fn wireframe_view(self) -> Seq<u32> {
        self.wireframe_indices@
    }

    /// The active topology.
    pub closed spec fn mode_view(self) -> TopologyMode {
        self.topology_mode
    }

    /// Every index in both index buffers refers to an existing vertex, and
    /// the wireframe list is exactly the edge expansion of the triangle
    /// list.
    pub open spec fn wf(self) -> bool {
        valid_triangle_indices(self.triangles_view(), self.vertices_view().len())
            && self.wireframe_view() == wireframe_of(self.triangles_view())
    }

    /// Assemble a mesh from vertices and a triangle index list, deriving
    /// the wireframe list.  An index list that is not whole triangles over
    /// the given vertices is rejected.
    pub fn new(
        vertices: Vec<Vertex>,
        triangle_indices: Vec<u32>,
        topology_mode: TopologyMode,
    ) -> (out: Result<Mesh, TerrainError>)
        ensures
            match out {
                Ok(m) => {
                    &&& valid_triangle_indices(triangle_indices@, vertices@.len())
                    &&& m.wf()
                    &&& m.vertices_view() == vertices@
                    &&& m.triangles_view() == triangle_indices@
                    &&& m.wireframe_view() == wireframe_of(triangle_indices@)
                    &&& m.mode_view() == topology_mode
                },
                Err(e) => e == TerrainError::PreconditionViolation && !valid_triangle_indices(
                    triangle_indices@,
                    vertices@.len(),
                ),
            },
    {
        if triangle_indices.len() % 3 != 0 {
            return Err(TerrainError::PreconditionViolation);
        }
        let vcount = vertices.len();
        let n = triangle_indices.len();
        let mut i: usize = 0;
        while i < n
            invariant
                i <= n,
                n == triangle_indices@.len(),
                vcount == vertices@.len(),
                forall|k: int| 0 <= k < i ==> (triangle_indices@[k] as nat) < vcount,
            decreases n - i,
        {
            if triangle_indices[i] as usize >= vcount {
                return Err(TerrainError::PreconditionViolation);
            }
            i = i + 1;
        }
        let wireframe_indices = derive_wireframe(&triangle_indices);
        Ok(Mesh { vertices, triangle_indices, wireframe_indices, topology_mode })
    }

    /// The vertices.
    pub fn vertices(&self) -> (v: &Vec<Vertex>)
        ensures
            v@ == self.vertices_view(),
    {
        &self.vertices
    }

    /// The filled-triangle index buffer.
    pub fn triangle_indices(&self) -> (v: &Vec<u32>)
        ensures
            v@ == self.triangles_view(),
    {
        &self.triangle_indices
    }

    /// The wireframe index buffer.
    pub fn wireframe_indices(&self) -> (v: &Vec<u32>)
        ensures
            v@ == self.wireframe_view(),
    {
        &self.wireframe_indices
    }

    /// The active topology.
    pub fn topology_mode(&self) -> (m: TopologyMode)
        ensures
            m == self.mode_view(),
    {
        self.topology_mode
    }

    /// Select which index buffer is active.  Vertex data and both index
    /// buffers are untouched: the toggle only changes the tag.
    pub fn set_topology_mode(&mut self, mode: TopologyMode)
        ensures
            final(self).mode_view() == mode,
            final(self).vertices_view() == old(self).vertices_view(),
            final(self).triangles_view() == old(self).triangles_view(),
            final(self).wireframe_view() == old(self).wireframe_view(),
            old(self).wf() ==> final(self).wf(),
    {
        self.topology_mode = mode;
    }

    /// The index buffer selected by the active topology.
    pub fn active_indices(&self) -> (v: &Vec<u32>)
        ensures
            self.mode_view() == TopologyMode::Filled ==> v@ == self.triangles_view(),
            self.mode_view() == TopologyMode::Wireframe ==> v@ == self.wireframe_view(),
    {
        match self.topology_mode {
            TopologyMode::Filled => &self.triangle_indices,
            TopologyMode::Wireframe => &self.wireframe_indices,
        }
    }
}

/// In a well-formed mesh every wireframe index, like every triangle index,
/// refers to an existing vertex.
pub proof fn lemma_wireframe_indices_bounded(m: Mesh)
    requires
        m.wf(),
    ensures
        forall|k: int|
            0 <= k < m.wireframe_view().len() ==> (m.wireframe_view()[k] as nat)
                < m.vertices_view().len(),
{
    let t = m.triangles_view();
    assert forall|k: int| 0 <= k < m.wireframe_view().len() implies (m.wireframe_view()[k] as nat)
        < m.vertices_view().len() by {
        lemma_fundamental_div_mod(t.len() as int, 3);
        lemma_multiply_divide_lt(k, 6, t.len() as int / 3);
        vstd::arithmetic::div_mod::lemma_mod_bound(k, 6);
        vstd::arithmetic::div_mod::lemma_div_pos_is_pos(k, 6);
        assert(3 * (k / 6) + 2 < t.len());
    }
}

/// The vertex index of grid point `(x, y)`: row-major by `x`, one vertex
/// per grid point, shared by every adjoining triangle.
pub open spec fn vert_index(x: int, y: int, tiles_y: int) -> int {
    x * (tiles_y + 1) + y
}

/// A raster option is well-formed when present.
pub open spec fn opt_raster_wf(r: Option<&Raster>) -> bool {
    match r {
        Option::Some(rr) => rr.wf(),
        Option::None => true,
    }
}

/// A raster option matches the grid when absent or of resolution exactly
/// `(tiles_x + 1) x (tiles_y + 1)`.
pub open spec fn raster_matches_grid(r: Option<&Raster>, tiles_x: int, tiles_y: int) -> bool {
    match r {
        Option::Some(rr) => rr.width == tiles_x + 1 && rr.height == tiles_y + 1,
        Option::None => true,
    }
}

/// The channel sum of the height raster's pixel at a grid point; zero
/// without a height raster.
pub open spec fn height_sum_at(r: Option<&Raster>, x: int, y: int) -> int {
    match r {
        Option::Some(rr) => rr.pixel_at(x, y).r + rr.pixel_at(x, y).g + rr.pixel_at(x, y).b,
        Option::None => 0,
    }
}

/// The color raster's pixel at a grid point, when color-mode coloring has
/// one to sample; otherwise the vertex gets the grayscale elevation color.
pub open spec fn color_pixel_at(
    coloring: MeshColoring,
    r: Option<&Raster>,
    x: int,
    y: int,
) -> Option<crate::raster::Pixel> {
    if coloring == MeshColoring::Color {
        match r {
            Option::Some(rr) => Option::Some(rr.pixel_at(x, y)),
            Option::None => Option::None,
        }
    } else {
        Option::None
    }
}

/// The attributes a grid vertex must carry.  With `hs` the height raster's
/// channel sum at the grid point, the height is `hs * 3 / (255 * 4)`, so an
/// opaque white pixel gives `2.25` and black gives `0`.  The grayscale
/// fallback color is `h / 6 + 1/4 = (hs + 510) / 2040` per channel.
pub open spec fn grid_vertex_ok(
    vtx: Vertex,
    width: int,
    height: int,
    tiles_x: int,
    tiles_y: int,
    x: int,
    y: int,
    hs: int,
    cpix: Option<crate::raster::Pixel>,
) -> bool {
    &&& vtx.pos_x.num == width * (2 * x - tiles_x)
    &&& vtx.pos_x.den == 2 * tiles_x
    &&& vtx.pos_y.num == 3 * hs
    &&& vtx.pos_y.den == 1020
    &&& vtx.pos_z.num == height * (2 * y - tiles_y)
    &&& vtx.pos_z.den == 2 * tiles_y
    &&& vtx.u.num == x
    &&& vtx.u.den == tiles_x
    &&& vtx.v.num == y
    &&& vtx.v.den == tiles_y
    &&& match cpix {
        Option::Some(p) => vtx.col_r == (Frac { num: p.r as i64, den: 255 }) && vtx.col_g == (Frac {
            num: p.g as i64,
            den: 255,
        }) && vtx.col_b == (Frac { num: p.b as i64, den: 255 }) && vtx.col_a == (Frac {
            num: 255,
            den: 255,
        }),
        Option::None => vtx.col_r.num == hs + 510 && vtx.col_r.den == 2040 && vtx.col_g
            == vtx.col_r && vtx.col_b == vtx.col_r && vtx.col_a == (Frac { num: 2040, den: 2040 }),
    }
}

/// Build the vertex sequence of the grid, in row-major-by-`x` order.
#[verifier::loop_isolation(false)]
#[verifier::rlimit(50)]
fn build_vertices(
    width: i64,
    height: i64,
    tiles_x: usize,
    tiles_y: usize,
    height_raster: Option<&Raster>,
    color_raster: Option<&Raster>,
    coloring: MeshColoring,
) -> (verts: Vec<Vertex>)
    requires
        1 <= tiles_x <= 65535,
        1 <= tiles_y <= 65535,
        (tiles_x + 1) * (tiles_y + 1) <= usize::MAX,
        -0x8000_0000 <= width <= 0x8000_0000,
        -0x8000_0000 <= height <= 0x8000_0000,
        opt_raster_wf(height_raster),
        opt_raster_wf(color_raster),
        raster_matches_grid(height_raster, tiles_x as int, tiles_y as int),
        raster_matches_grid(color_raster, tiles_x as int, tiles_y as int),
    ensures
        verts@.len() == (tiles_x + 1) * (tiles_y + 1),
        forall|x: int, y: int|
            0 <= x <= tiles_x && 0 <= y <= tiles_y ==> grid_vertex_ok(
                verts@[vert_index(x, y, tiles_y as int)],
                width as int,
                height as int,
                tiles_x as int,
                tiles_y as int,
                x,
                y,
                height_sum_at(height_raster, x, y),
                color_pixel_at(coloring, color_raster, x, y),
            ),
{
    let cols = tiles_y + 1;
    let mut verts: Vec<Vertex> = Vec::new();
    let mut x: usize = 0;
    while x < tiles_x + 1
        invariant
            x <= tiles_x + 1,
            verts@.len() == x * cols,
            forall|px: int, py: int|
                0 <= px < x && 0 <= py <= tiles_y ==> grid_vertex_ok(
                    verts@[vert_index(px, py, tiles_y as int)],
                    width as int,
                    height as int,
                    tiles_x as int,
                    tiles_y as int,
                    px,
                    py,
                    height_sum_at(height_raster, px, py),
                    color_pixel_at(coloring, color_raster, px, py),
                ),
        decreases tiles_x + 1 - x,
    {
        proof {
            assert(x * cols + cols <= (tiles_x + 1) * (tiles_y + 1)) by (nonlinear_arith)
                requires
                    0 <= x <= tiles_x,
                    cols == tiles_y + 1,
            ;
        }
        let mut y: usize = 0;
        while y < cols
            invariant
                x <= tiles_x,
                y <= cols,
                verts@.len() == x * cols + y,
                forall|px: int, py: int|
                    0 <= px <= tiles_x && 0 <= py <= tiles_y && (px < x || (px == x && py < y))
                        ==> grid_vertex_ok(
                        verts@[vert_index(px, py, tiles_y as int)],
                        width as int,
                        height as int,
                        tiles_x as int,
                        tiles_y as int,
                        px,
                        py,
                        height_sum_at(height_raster, px, py),
                        color_pixel_at(coloring, color_raster, px, py),
                    ),
            decreases cols - y,
        {
            proof {
                assert(width * (2 * (x as int) - tiles_x) <= 0x8000_0000 * 0x20000 && width * (2
                    * (x as int) - tiles_x) >= -(0x8000_0000 * 0x20000) && height * (2 * (
                y as int) - tiles_y) <= 0x8000_0000 * 0x20000 && height * (2 * (y as int)
                    - tiles_y) >= -(0x8000_0000 * 0x20000)) by (nonlinear_arith)
                    requires
                        -0x8000_0000 <= width <= 0x8000_0000,
                        -0x8000_0000 <= height <= 0x8000_0000,
                        0 <= x <= tiles_x <= 65535,
                        0 <= y <= tiles_y <= 65535,
                ;
            }
            let px_num: i64 = width * (2 * (x as i64) - tiles_x as i64);
            let pz_num: i64 = height * (2 * (y as i64) - tiles_y as i64);
            let hs: i64 = match height_raster {
                Some(r) => {
                    let p = r.get_pixel(x, y);
                    p.r as i64 + p.g as i64 + p.b as i64
                },
                None => 0,
            };
            let gray = Frac { num: hs + 510, den: 2040 };
            let (col_r, col_g, col_b, col_a): (Frac, Frac, Frac, Frac) = match coloring {
                MeshColoring::Color => match color_raster {
                    Some(r) => {
                        let p = r.get_pixel(x, y);
                        (
                            Frac { num: p.r as i64, den: 255 },
                            Frac { num: p.g as i64, den: 255 },
                            Frac { num: p.b as i64, den: 255 },
                            Frac { num: 255, den: 255 },
                        )
                    },
                    None => (gray, gray, gray, Frac { num: 2040, den: 2040 }),
                },
                MeshColoring::Height => (gray, gray, gray, Frac { num: 2040, den: 2040 }),
            };
            let vtx = Vertex {
                pos_x: Frac { num: px_num, den: 2 * tiles_x as i64 },
                pos_y: Frac { num: 3 * hs, den: 1020 },
                pos_z: Frac { num: pz_num, den: 2 * tiles_y as i64 },
                u: Frac { num: x as i64, den: tiles_x as i64 },
                v: Frac { num: y as i64, den: tiles_y as i64 },
                col_r,
                col_g,
                col_b,
                col_a,
            };
            verts.push(vtx);
            proof {
                assert forall|px: int, py: int|
                    0 <= px <= tiles_x && 0 <= py <= tiles_y && (px < x || (px == x && py < y + 1))
                        implies grid_vertex_ok(
                    verts@[vert_index(px, py, tiles_y as int)],
                    width as int,
                    height as int,
                    tiles_x as int,
                    tiles_y as int,
                    px,
                    py,
                    height_sum_at(height_raster, px, py),
                    color_pixel_at(coloring, color_raster, px, py),
                ) by {
                    if px < x || py < y {
                        crate::raster::lemma_row_major_below(
                            py,
                            px,
                            y as int,
                            x as int,
                            cols as int,
                        );
                    }
                }
            }
            y = y + 1;
        }
        proof {
            assert((x + 1) * cols == x * cols + cols) by (nonlinear_arith);
        }
        x = x + 1;
    }
    verts
}

/// The two triangles contributed by grid point `(x, y)`: one joining it to
/// its left and lower neighbors (skipped on the first column or row), one
/// to its right and upper neighbors (skipped on the last).  This diagonal
/// pairing covers every quad with two triangles, shares all vertices, and
/// keeps one consistent winding across the grid.
pub open spec fn point_tris(tiles_x: int, tiles_y: int, x: int, y: int) -> Seq<u32> {
    (if x > 0 && y > 0 {
        seq![
            vert_index(x, y, tiles_y) as u32,
            vert_index(x - 1, y, tiles_y) as u32,
            vert_index(x, y - 1, tiles_y) as u32,
        ]
    } else {
        Seq::empty()
    }) + (if x < tiles_x && y < tiles_y {
        seq![
            vert_index(x, y, tiles_y) as u32,
            vert_index(x + 1, y, tiles_y) as u32,
            vert_index(x, y + 1, tiles_y) as u32,
        ]
    } else {
        Seq::empty()
    })
}

/// The triangles of the first `n` grid points, visited row-major by `x`.
pub open spec fn tris_upto(tiles_x: int, tiles_y: int, n: nat) -> Seq<u32>
    decreases n,
{
    if n == 0 {
        Seq::empty()
    } else {
        let k = (n - 1) as int;
        tris_upto(tiles_x, tiles_y, (n - 1) as nat) + point_tris(
            tiles_x,
            tiles_y,
            k / (tiles_y + 1),
            k % (tiles_y + 1),
        )
    }
}

/// The filled-triangle index list of the whole grid.
pub open spec fn grid_triangles(tiles_x: int, tiles_y: int) -> Seq<u32> {
    tris_upto(tiles_x, tiles_y, ((tiles_x + 1) * (tiles_y + 1)) as nat)
}

/// Build the triangle index list of the grid: `2 * tiles_x * tiles_y`
/// triangles, every index below the vertex count.
#[verifier::loop_isolation(false)]
#[verifier::rlimit(50)]
fn build_triangles(tiles_x: usize, tiles_y: usize) -> (tris: Vec<u32>)
    requires
        1 <= tiles_x <= 65535,
        1 <= tiles_y <= 65535,
        (tiles_x + 1) * (tiles_y + 1) <= usize::MAX,
    ensures
        tris@ == grid_triangles(tiles_x as int, tiles_y as int),
        tris@.len() == 6 * tiles_x * tiles_y,
        valid_triangle_indices(tris@, ((tiles_x + 1) * (tiles_y + 1)) as nat),
{
    let cols = tiles_y + 1;
    let ghost vcount: int = (tiles_x + 1) * (tiles_y + 1);
    let mut tris: Vec<u32> = Vec::new();
    let mut x: usize = 0;
    while x < tiles_x + 1
        invariant
            x <= tiles_x + 1,
            tris@ == tris_upto(tiles_x as int, tiles_y as int, (x * cols) as nat),
            tris@.len() == 3 * ((if x >= 1 {
                tiles_y * (x - 1)
            } else {
                0int
            }) + tiles_y * (if x <= tiles_x {
                x as int
            } else {
                tiles_x as int
            })),
            forall|k: int| 0 <= k < tris@.len() ==> (tris@[k] as int) < vcount,
        decreases tiles_x + 1 - x,
    {
        proof {
            assert(x * cols + cols <= vcount) by (nonlinear_arith)
                requires
                    0 <= x <= tiles_x,
                    cols == tiles_y + 1,
                    vcount == (tiles_x + 1) * (tiles_y + 1),
            ;
        }
        let mut y: usize = 0;
        while y < cols
            invariant
                x <= tiles_x,
                y <= cols,
                tris@ == tris_upto(tiles_x as int, tiles_y as int, (x * cols + y) as nat),
                tris@.len() == 3 * ((if x >= 1 {
                    tiles_y * (x - 1)
                } else {
                    0int
                }) + (if x >= 1 && y >= 1 {
                    y - 1
                } else {
                    0int
                }) + tiles_y * x + (if x < tiles_x {
                    if y <= tiles_y {
                        y as int
                    } else {
                        tiles_y as int
                    }
                } else {
                    0int
                })),
                forall|k: int| 0 <= k < tris@.len() ==> (tris@[k] as int) < vcount,
            decreases cols - y,
        {
            let ghost n0: int = x * cols + y;
            let ghost old_tris = tris@;
            proof {
                lemma_fundamental_div_mod_converse_div(n0, cols as int, x as int, y as int);
                lemma_fundamental_div_mod_converse_mod(n0, cols as int, x as int, y as int);
                assert((x + 1) * cols + y < vcount || x == tiles_x) by (nonlinear_arith)
                    requires
                        0 <= x <= tiles_x,
                        0 <= y <= tiles_y,
                        cols == tiles_y + 1,
                        vcount == (tiles_x + 1) * (tiles_y + 1),
                ;
                assert(x * cols + y < vcount && vcount <= 0x1_0000_0000) by (nonlinear_arith)
                    requires
                        0 <= x <= tiles_x <= 65535,
                        0 <= y <= tiles_y <= 65535,
                        cols == tiles_y + 1,
                        vcount == (tiles_x + 1) * (tiles_y + 1),
                ;
            }
            let own = (x * cols + y) as u32;
            if x > 0 && y > 0 {
                proof {
                    assert(0 <= (x - 1) * cols + y < x * cols + y) by (nonlinear_arith)
                        requires
                            1 <= x,
                            1 <= cols,
                            0 <= y,
                    ;
                }
                let left = ((x - 1) * cols + y) as u32;
                let down = (x * cols + (y - 1)) as u32;
                tris.push(own);
                tris.push(left);
                tris.push(down);
            }
            if x < tiles_x && y < tiles_y {
                proof {
                    assert(0 <= (x + 1) * cols + y < vcount && x * cols + (y + 1) < vcount)
                        by (nonlinear_arith)
                        requires
                            0 <= x < tiles_x,
                            0 <= y < tiles_y,
                            cols == tiles_y + 1,
                            vcount == (tiles_x + 1) * (tiles_y + 1),
                    ;
                }
                let right = ((x + 1) * cols + y) as u32;
                let up = (x * cols + (y + 1)) as u32;
                tris.push(own);
                tris.push(right);
                tris.push(up);
            }
            proof {
                assert(tris@ =~= old_tris + point_tris(
                    tiles_x as int,
                    tiles_y as int,
                    x as int,
                    y as int,
                ));
                assert(tris@ == tris_upto(tiles_x as int, tiles_y as int, (n0 + 1) as nat));
            }
            y = y + 1;
        }
        proof {
            assert(x * cols + cols == (x + 1) * cols) by (nonlinear_arith);
            assert(tiles_y * (x + 1) == tiles_y * x + tiles_y && tiles_y * ((x + 1) - 1)
                == tiles_y * x && tiles_y * ((x as int) - 1) + tiles_y == tiles_y * x)
                by (nonlinear_arith);
        }
        x = x + 1;
    }
    proof {
        assert(tris@.len() == 6 * tiles_x * tiles_y) by (nonlinear_arith)
            requires
                tris@.len() == 3 * (tiles_y * (tiles_x as int) + tiles_y * (tiles_x as int)),
                1 <= tiles_x,
                1 <= tiles_y,
        ;
        assert((tiles_x + 1) * cols == (tiles_x + 1) * (tiles_y + 1)) by (nonlinear_arith)
            requires
                cols == tiles_y + 1,
        ;
    }
    tris
}

/// Build the tiled grid mesh: one shared vertex per grid point, heights
/// sampled from the height raster, colors from the color raster or from
/// the grayscale elevation fallback, filled topology active.  A present
/// raster whose resolution is not exactly `(tiles_x + 1) x (tiles_y + 1)`
/// is rejected with [`TerrainError::PreconditionViolation`]; matching
/// inputs always succeed.
pub fn generate_tiled_plane_colorimg(
    width: i64,
    height: i64,
    tiles_x: usize,
    tiles_y: usize,
    height_raster: Option<&Raster>,
    color_raster: Option<&Raster>,
    coloring: MeshColoring,
) -> (out: Result<Mesh, TerrainError>)
    requires
        1 <= tiles_x <= 65535,
        1 <= tiles_y <= 65535,
        (tiles_x + 1) * (tiles_y + 1) <= usize::MAX,
        -0x8000_0000 <= width <= 0x8000_0000,
        -0x8000_0000 <= height <= 0x8000_0000,
        opt_raster_wf(height_raster),
        opt_raster_wf(color_raster),
    ensures
        match out {
            Ok(m) => {
                &&& raster_matches_grid(height_raster, tiles_x as int, tiles_y as int)
                &&& raster_matches_grid(color_raster, tiles_x as int, tiles_y as int)
                &&& m.wf()
                &&& m.mode_view() == TopologyMode::Filled
                &&& m.vertices_view().len() == (tiles_x + 1) * (tiles_y + 1)
                &&& m.triangles_view().len() == 6 * tiles_x * tiles_y
                &&& m.wireframe_view().len() == 12 * tiles_x * tiles_y
                &&& m.triangles_view() == grid_triangles(tiles_x as int, tiles_y as int)
                &&& forall|x: int, y: int|
                    0 <= x <= tiles_x && 0 <= y <= tiles_y ==> grid_vertex_ok(
                        m.vertices_view()[vert_index(x, y, tiles_y as int)],
                        width as int,
                        height as int,
                        tiles_x as int,
                        tiles_y as int,
                        x,
                        y,
                        height_sum_at(height_raster, x, y),
                        color_pixel_at(coloring, color_raster, x, y),
                    )
            },
            Err(e) => {
                &&& e == TerrainError::PreconditionViolation
                &&& !(raster_matches_grid(height_raster, tiles_x as int, tiles_y as int)
                    && raster_matches_grid(color_raster, tiles_x as int, tiles_y as int))
            },
        },
{
    match height_raster {
        Some(r) => {
            if r.width != tiles_x + 1 || r.height != tiles_y + 1 {
                return Err(TerrainError::PreconditionViolation);
            }
        },
        None => {},
    }
    match color_raster {
        Some(r) => {
            if r.width != tiles_x + 1 || r.height != tiles_y + 1 {
                return Err(TerrainError::PreconditionViolation);
            }
        },
        None => {},
    }
    let vertices = build_vertices(
        width,
        height,
        tiles_x,
        tiles_y,
        height_raster,
        color_raster,
        coloring,
    );
    let triangle_indices = build_triangles(tiles_x, tiles_y);
    let wireframe_indices = derive_wireframe(&triangle_indices);
    proof {
        assert(6 * tiles_x * tiles_y == (2 * tiles_x * tiles_y) * 3 + 0 && 0 <= 2 * tiles_x
            * tiles_y && 6 * (2 * tiles_x * tiles_y) == 12 * tiles_x * tiles_y)
            by (nonlinear_arith);
        lemma_fundamental_div_mod_converse_div(
            6 * tiles_x as int * tiles_y as int,
            3,
            2 * tiles_x as int * tiles_y as int,
            0,
        );
    }
    Ok(
        Mesh {
            vertices,
            triangle_indices,
            wireframe_indices,
            topology_mode: TopologyMode::Filled,
        },
    )
}

/// Build a flat tiled grid mesh: the same grid with every height zero and
/// the uniform grayscale fallback color.
pub fn generate_tiled_plane(width: i64, height: i64, tiles_x: usize, tiles_y: usize) -> (m: Mesh)
    requires
        1 <= tiles_x <= 65535,
        1 <= tiles_y <= 65535,
        (tiles_x + 1) * (tiles_y + 1) <= usize::MAX,
        -0x8000_0000 <= width <= 0x8000_0000,
        -0x8000_0000 <= height <= 0x8000_0000,
    ensures
        m.wf(),
        m.mode_view() == TopologyMode::Filled,
        m.vertices_view().len() == (tiles_x + 1) * (tiles_y + 1),
        m.triangles_view().len() == 6 * tiles_x * tiles_y,
        m.wireframe_view().len() == 12 * tiles_x * tiles_y,
        m.triangles_view() == grid_triangles(tiles_x as int, tiles_y as int),
        forall|x: int, y: int|
            0 <= x <= tiles_x && 0 <= y <= tiles_y ==> grid_vertex_ok(
                m.vertices_view()[vert_index(x, y, tiles_y as int)],
                width as int,
                height as int,
                tiles_x as int,
                tiles_y as int,
                x,
                y,
                0,
                Option::None,
            ),
{
    let out = generate_tiled_plane_colorimg(
        width,
        height,
        tiles_x,
        tiles_y,
        None,
        None,
        MeshColoring::Height,
    );
    match out {
        Ok(m) => {
            proof {
                assert forall|x: int, y: int| 0 <= x <= tiles_x && 0 <= y <= tiles_y
                    implies grid_vertex_ok(
                    m.vertices_view()[vert_index(x, y, tiles_y as int)],
                    width as int,
                    height as int,
                    tiles_x as int,
                    tiles_y as int,
                    x,
                    y,
                    0,
                    Option::None,
                ) by {
                    assert(grid_vertex_ok(
                        m.vertices_view()[vert_index(x, y, tiles_y as int)],
                        width as int,
                        height as int,
                        tiles_x as int,
                        tiles_y as int,
                        x,
                        y,
                        height_sum_at(Option::None, x, y),
                        color_pixel_at(MeshColoring::Height, Option::None, x, y),
                    ));
                }
            }
            m
        },
        Err(_) => vstd::pervasive::unreached(),
    }
}

} // verus!
