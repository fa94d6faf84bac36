//! Frames of an animated sprite.
use vstd::prelude::*;

verus! {

/// One frame: for each column the bits of the heights that are there, and
/// their colours from the top down. Column `(x, y)` of a box of width `w`
/// is the one at `x + y * w`.
#[derive(Debug, Clone)]
pub struct VoxelFrame {
    /// Whole words of bits for each column, the lowest height first.
    pub occupancy: Vec<u32>,
    /// Colours, column after column.
    pub colors: Vec<u32>,
    /// Where the colours of each column start.
    pub color_offsets: Vec<u32>,
}

/// An animated sprite: frames of the same size.
#[derive(Debug, Clone)]
pub struct DecodedClip {
    pub dims: [u32; 3],
    pub frames: Vec<VoxelFrame>,
}

/// Number of words of bits in a column of height `mz`.
pub open spec fn words_per_column(mz: int) -> int {
    if mz == 0 {
        1
    } else {
        (mz + 31) / 32
    }
}

/// Whether a word has bit `k`.
pub open spec fn word_bit(word: u32, k: u32) -> bool {
    (word >> k) & 1 != 0
}

impl VoxelFrame {
    /// Whether column `c` of height `mz` has a voxel at height `z`.
    pub open spec fn has(self, mz: int, c: int, z: int) -> bool {
        word_bit(self.occupancy@[c * words_per_column(mz) + z / 32], (z % 32) as u32)
    }

    /// Number of voxels of a column above height `z`.
    pub open spec fn rank(self, mz: int, c: int, z: int) -> int
        decreases z,
    {
        if z <= 0 {
            0
        } else {
            self.rank(mz, c, z - 1) + if self.has(mz, c, z - 1) {
                1int
            } else {
                0int
            }
        }
    }

    /// The stored colour of a voxel.
    pub open spec fn voxel(self, dims: [u32; 3], x: int, y: int, z: int) -> Option<u32> {
        let c = x + y * dims[0];
        if self.has(dims[2] as int, c, z) {
            Some(self.colors@[self.color_offsets@[c] + self.rank(dims[2] as int, c, z)])
        } else {
            None
        }
    }

    /// Whether the frame holds what a box of these sizes needs.
    pub open spec fn fits(self, dims: [u32; 3]) -> bool {
        let columns = dims[0] * dims[1];
        &&& dims[0] <= i32::MAX && dims[1] <= i32::MAX && dims[2] <= i32::MAX
        &&& columns <= u32::MAX
        &&& columns * dims[2] <= u32::MAX
        &&& columns <= self.color_offsets@.len()
        &&& columns * words_per_column(dims[2] as int) <= self.occupancy@.len()
        &&& forall|c: int|
            0 <= c < columns ==> #[trigger] self.color_offsets@[c] + self.rank(
                dims[2] as int,
                c,
                dims[2] as int,
            ) <= self.colors@.len()
    }
}

/// A column has just as many words as its bits need.
pub proof fn lemma_words_hold_the_column(mz: int)
    requires
        mz >= 0,
    ensures
        32 * words_per_column(mz) >= mz,
        mz > 0 ==> 32 * (words_per_column(mz) - 1) < mz,
        words_per_column(mz) >= 1,
{
}

/// Bit `k` of a word is the one that is worth `2^k`: no other bit of the
/// word matters to it.
pub proof fn lemma_bits_are_apart(a: u32, b: u32, k: u32)
    requires
        k < 32,
    ensures
        word_bit(1u32 << k, k),
        word_bit(a | b, k) == (word_bit(a, k) || word_bit(b, k)),
        word_bit(a & b, k) == (word_bit(a, k) && word_bit(b, k)),
{
    assert(((1u32 << k) >> k) & 1 != 0 && ((((a | b) >> k) & 1 != 0) == (((a >> k) & 1 != 0) || ((b
        >> k) & 1 != 0))) && ((((a & b) >> k) & 1 != 0) == (((a >> k) & 1 != 0) && ((b >> k) & 1
        != 0)))) by (bit_vector)
        requires
            k < 32,
    ;
}

impl VoxelFrame {
    /// The colours of a column are stored from the top down, one for each
    /// voxel: the highest voxel has the first colour of the column, and of
    /// two voxels with none between them the lower one has the next.
    pub proof fn lemma_colours_in_order(self, dims: [u32; 3], x: int, y: int, z: int, below: int)
        requires
            0 <= z < below,
            self.voxel(dims, x, y, z) is Some,
            self.voxel(dims, x, y, below) is Some,
            forall|k: int| z < k < below ==> (#[trigger] self.voxel(dims, x, y, k)) is None,
        ensures
            ({
                let start = self.color_offsets@[x + y * dims[0]];
                exists|i: int|
                    i >= start && #[trigger] self.colors@[i] == self.voxel(dims, x, y, z)->0
                        && self.colors@[i + 1] == self.voxel(dims, x, y, below)->0 && ((forall|
                        k: int,
                    |
                        0 <= k < z ==> (#[trigger] self.voxel(dims, x, y, k)) is None) ==> i
                        == start)
            }),
    {
        let c = x + y * dims[0];
        let mz = dims[2] as int;
        let start = self.color_offsets@[c];
        self.lemma_rank_over_air(dims, x, y, z + 1, below);
        self.lemma_rank_nonnegative(mz, c, z);
        let i = start + self.rank(mz, c, z);
        assert(self.rank(mz, c, z + 1) == self.rank(mz, c, z) + 1);
        if forall|k: int| 0 <= k < z ==> (#[trigger] self.voxel(dims, x, y, k)) is None {
            self.lemma_rank_over_air(dims, x, y, 0, z);
        }
        assert(self.colors@[i] == self.voxel(dims, x, y, z)->0);
        assert(self.colors@[i + 1] == self.voxel(dims, x, y, below)->0);
    }

    proof fn lemma_rank_nonnegative(self, mz: int, c: int, z: int)
        ensures
            self.rank(mz, c, z) >= 0,
        decreases z,
    {
        if z > 0 {
            self.lemma_rank_nonnegative(mz, c, z - 1);
        }
    }

    proof fn lemma_rank_over_air(self, dims: [u32; 3], x: int, y: int, from: int, to: int)
        requires
            0 <= from <= to,
            forall|k: int| from <= k < to ==> (#[trigger] self.voxel(dims, x, y, k)) is None,
        ensures
            self.rank(dims[2] as int, x + y * dims[0], to) == self.rank(
                dims[2] as int,
                x + y * dims[0],
                from,
            ),
        decreases to - from,
    {
        if from < to {
            self.lemma_rank_over_air(dims, x, y, from, to - 1);
            assert(self.voxel(dims, x, y, to - 1) is None);
        }
    }

    /// Whether a voxel is there is told by its own bit: of the words of its
    /// column the one for its 32 heights, the lowest bit for the highest
    /// voxel.
    pub proof fn lemma_voxel_by_its_bit(self, dims: [u32; 3], x: int, y: int, w: int, k: u32)
        requires
            k < 32,
            0 <= w,
        ensures
            (self.voxel(dims, x, y, 32 * w + k) is Some) == word_bit(
                self.occupancy@[(x + y * dims[0]) * words_per_column(dims[2] as int) + w],
                k,
            ),
    {
    }
}

} // verus!
