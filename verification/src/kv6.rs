//! A sprite as the voxels of its surface, column after column.
use vstd::prelude::*;

verus! {

/// A voxel of a sprite.
#[derive(Debug, Clone, Copy, PartialEq, Eq, Structural)]
pub struct Voxel {
    /// Packed colour.
    pub col: u32,
    /// Height in its column.
    pub z: u16,
    /// One bit for each face that can be seen.
    pub vis: u8,
    /// Index of its normal.
    pub dir: u8,
}

/// A sprite of `xsiz * ysiz` columns of height `zsiz`. The voxels are
/// stored slice after slice along x, and column after column along y
/// within a slice.
#[derive(Debug, Clone)]
pub struct Kv6 {
    pub xsiz: u32,
    pub ysiz: u32,
    pub zsiz: u32,
    pub voxels: Vec<Voxel>,
    /// Number of voxels in each slice.
    pub xlen: Vec<u32>,
    /// Number of voxels in each column of each slice.
    pub ylen: Vec<Vec<u16>>,
}

/// Sum of the first `n` slice lengths.
pub open spec fn slices_sum(s: Seq<u32>, n: int) -> int
    decreases n,
{
    if n <= 0 {
        0
    } else {
        slices_sum(s, n - 1) + s[n - 1]
    }
}

/// Sum of the first `n` column lengths.
pub open spec fn columns_sum(s: Seq<u16>, n: int) -> int
    decreases n,
{
    if n <= 0 {
        0
    } else {
        columns_sum(s, n - 1) + s[n - 1]
    }
}

impl Kv6 {
    /// Whether the lengths share the voxels out: the slices hold all
    /// voxels, and the columns of a slice hold the slice.
    pub open spec fn shared_out(self) -> bool {
        &&& self.xlen@.len() == self.xsiz
        &&& self.ylen@.len() == self.xsiz
        &&& slices_sum(self.xlen@, self.xsiz as int) == self.voxels@.len()
        &&& forall|i: int|
            0 <= i < self.xsiz ==> (#[trigger] self.ylen@[i])@.len() == self.ysiz && columns_sum(
                self.ylen@[i]@,
                self.ysiz as int,
            ) == self.xlen@[i]
    }
}

} // verus!
