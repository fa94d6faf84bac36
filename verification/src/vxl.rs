//! A parsed voxel map and the colours it stores.
use vstd::prelude::*;

verus! {

/// A voxel map: the slab bytes of all columns, where each column starts,
/// and where each level of detail starts in the column table.
pub struct Vxl {
    /// Side of the square map in columns.
    pub vsid: u32,
    /// Slab bytes of every column at every level.
    pub data: Vec<u8>,
    /// Start of each column in `data`, level after level.
    pub column_offset: Vec<u32>,
    /// Start of each level in `column_offset`, and its length at the end.
    pub mip_base_offsets: Vec<usize>,
}

/// A packed voxel colour: brightness in the high byte, then red, green
/// and blue.
#[derive(Debug, Clone, Copy, PartialEq, Eq, Structural)]
pub struct VoxColor(pub u32);

} // verus!
