//! Sky panorama.
use vstd::prelude::*;

verus! {

/// A sky texture with its latitude table.
#[derive(Debug, Clone)]
pub struct Sky {
    /// Packed texels, row after row.
    pub pixels: Vec<i32>,
    /// Latitude table: `(xoff << 16) | (-yoff & 0xffff)` per column.
    pub lat: Vec<i32>,
    /// Last column of the texture.
    pub xsiz: i32,
    /// Bytes per row.
    pub bpl: i32,
    /// Number of rows.
    pub ysiz: i32,
}

} // verus!
