//! Exact rational scalars.
//!
//! Mesh vertex attributes (positions, texture coordinates, colors) are exact
//! rationals: every value the builder produces is a quotient of two small
//! integers, so contracts can state each attribute exactly.  A renderer
//! divides numerator by denominator when it uploads the data.

use vstd::prelude::*;

verus! {

/// The rational number `num / den`.  Every producer in this crate states
/// the exact numerator and denominator it emits, with the denominator
/// positive.
#[derive(Clone, Copy, Debug, PartialEq, Eq, Structural)]
pub struct Frac {
    pub num: i64,
    pub den: i64,
}

} // verus!
