//! Verified core of a terrain-building pipeline.
//!
//! The library covers the algorithmic heart of an interactive heightmap
//! editor: a square paintable canvas with a disk-shaped additive brush
//! ([`drawing`]), an exact bicubic raster resampler ([`resample`]), and a
//! tiled grid-mesh builder that samples height and color rasters into vertex
//! data and two index topologies ([`mesh`]).  Window handling, pointer
//! polling, image decoding and GPU uploads are left to the surrounding
//! application; the library works on plain rasters of RGBA bytes and exact
//! rational scalars ([`frac`]).

pub mod drawing;
pub mod frac;
pub mod mesh;
pub mod raster;
pub mod resample;

use vstd::prelude::*;

verus! {

/// A failure of one of the raster pipeline stages.
///
/// The brush has a third failure kind in principle — a blended channel
/// falling outside its byte range — but the blending here is verified to
/// stay in range, so no variant for it can ever be produced.
#[derive(Clone, Copy, Debug, PartialEq, Eq, Structural)]
pub enum TerrainError {
    /// The resampler was handed a raster that is not square.
    ShapeError,
    /// The mesh builder was handed a raster whose resolution does not match
    /// the grid, or an index stream that does not describe whole triangles
    /// over the given vertices.
    PreconditionViolation,
}

} // verus!
