//! Borrowed view of a voxel world: one chunk, or a grid of chunks.
use crate::slab;
use crate::slab::read_word;
use crate::vxl::{VoxColor, Vxl};
use vstd::prelude::*;

pub mod laws;

verus! {

/// Height of one chunk in voxels: slab heights are bytes.
pub const CHUNK_SIZE_Z: u32 = 256;

/// View of one chunk's columns, and of the chunk grid it stands for where
/// there is one.
#[derive(Clone, Copy)]
pub struct GridView<'a> {
    /// Side of the chunk in columns.
    pub vsid: u32,
    /// Side of each chunk of the grid in columns.
    pub chunk_size_xy: u32,
    /// Height of each chunk in voxels.
    pub chunk_size_z: u32,
    /// Slab bytes of every column at every level.
    pub slab_buf: &'a [u8],
    /// Start of each column in `slab_buf`, level after level.
    pub column_offsets: &'a [u32],
    /// Start of each level in `column_offsets`, and its length at the end.
    pub mip_base_offsets: &'a [usize],
    /// The chunks behind this view; `None` for a single chunk.
    pub chunk_grid: Option<&'a ChunkGrid<'a>>,
}

/// A box of chunks. The chunk at `(dx, dy, dz)` from the origin is
/// `chunks[(dz * chunks_y + dy) * chunks_x + dx]`.
#[derive(Clone, Copy)]
pub struct ChunkGrid<'a> {
    pub chunks: &'a [Option<GridView<'a>>],
    /// Index of the first chunk along x and y.
    pub origin_chunk_xy: [i32; 2],
    /// Index of the first chunk along z.
    pub origin_chunk_z: i32,
    pub chunks_x: u32,
    pub chunks_y: u32,
    pub chunks_z: u32,
}

impl<'a> ChunkGrid<'a> {
    /// Whether the box holds the chunk index.
    pub open spec fn holds(self, x: int, y: int, z: int) -> bool {
        &&& 0 <= x - self.origin_chunk_xy[0] < self.chunks_x
        &&& 0 <= y - self.origin_chunk_xy[1] < self.chunks_y
        &&& 0 <= z - self.origin_chunk_z < self.chunks_z
    }

    /// Position of the chunk in `chunks`.
    pub open spec fn slot(self, x: int, y: int, z: int) -> int {
        ((z - self.origin_chunk_z) * self.chunks_y + (y - self.origin_chunk_xy[1])) * self.chunks_x
            + (x - self.origin_chunk_xy[0])
    }
}

/// The first chunk that is there, at position `i` or after it.
pub open spec fn first_populated<'a>(chunks: Seq<Option<GridView<'a>>>, i: int) -> Option<
    GridView<'a>,
>
    decreases chunks.len() - i,
{
    if i < 0 || i >= chunks.len() {
        None
    } else if chunks[i] is Some {
        chunks[i]
    } else {
        first_populated(chunks, i + 1)
    }
}

/// Height of a column at level `mip`.
pub open spec fn depth_at(mip: u32) -> i32 {
    (CHUNK_SIZE_Z >> mip) as i32
}

fn is_i32(v: i64) -> (r: bool)
    ensures
        r == (i32::MIN <= v <= i32::MAX),
{
    i32::MIN as i64 <= v && v <= i32::MAX as i64
}

/// The product of two 32-bit numbers is far from the ends of 64 bits.
proof fn lemma_small_product(a: int, b: int)
    requires
        i32::MIN <= a <= i32::MAX,
        i32::MIN <= b <= i32::MAX,
    ensures
        -0x4000_0000_0000_0000 <= a * b <= 0x4000_0000_0000_0000,
{
    assert(-0x4000_0000_0000_0000 <= a * b <= 0x4000_0000_0000_0000) by (nonlinear_arith)
        requires
            -0x8000_0000 <= a <= 0x8000_0000,
            -0x8000_0000 <= b <= 0x8000_0000,
    ;
}

impl<'a> GridView<'a> {
    /// The chunk at an index: one of the grid's, or this view itself at
    /// `(0, 0)` where there is no grid.
    pub open spec fn chunk(self, x: int, y: int, z: int) -> Option<GridView<'a>> {
        match self.chunk_grid {
            Some(cg) => if cg.holds(x, y, z) && cg.slot(x, y, z) < cg.chunks@.len() {
                cg.chunks@[cg.slot(x, y, z)]
            } else {
                None
            },
            None => if x == 0 && y == 0 {
                Some(self)
            } else {
                None
            },
        }
    }

    /// Whether looking the index up stays inside machine integers.
    pub open spec fn chunk_index_fits(self, x: int, y: int, z: int) -> bool {
        match self.chunk_grid {
            Some(cg) => {
                &&& i32::MIN <= x - cg.origin_chunk_xy[0] <= i32::MAX
                &&& i32::MIN <= y - cg.origin_chunk_xy[1] <= i32::MAX
                &&& i32::MIN <= z - cg.origin_chunk_z <= i32::MAX
                &&& cg.holds(x, y, z) ==> cg.slot(x, y, z) <= usize::MAX
            },
            None => true,
        }
    }

    /// Number of levels.
    pub open spec fn levels(self) -> u32 {
        if self.mip_base_offsets@.len() == 0 {
            0
        } else {
            (self.mip_base_offsets@.len() - 1) as u32
        }
    }

    /// Side of the chunk in columns at level `mip`.
    pub open spec fn side(self, mip: u32) -> int {
        if self.vsid >> mip == 0 {
            1
        } else {
            (self.vsid >> mip) as int
        }
    }

    /// Whether the view has the column at this level.
    pub open spec fn has_cell(self, x: int, y: int, mip: u32) -> bool {
        mip < self.levels() && x < self.side(mip) && y < self.side(mip)
    }

    /// Position of the column in `column_offsets`.
    pub open spec fn cell_index(self, x: int, y: int, mip: u32) -> int {
        self.mip_base_offsets@[mip as int] + y * self.side(mip) + x
    }

    /// The bytes from the start of the column on, where it has some.
    pub open spec fn column(self, x: int, y: int, mip: u32) -> Option<Seq<u8>> {
        let i = self.cell_index(x, y, mip);
        if self.has_cell(x, y, mip) && i < self.column_offsets@.len()
            && self.column_offsets@[i] <= self.slab_buf@.len() {
            Some(self.slab_buf@.skip(self.column_offsets@[i] as int))
        } else {
            None
        }
    }

    /// Whether the column's position stays inside machine integers.
    pub open spec fn cell_fits(self, x: int, y: int, mip: u32) -> bool {
        mip < self.levels() ==> mip < 32 && (self.has_cell(x, y, mip) ==> y * self.side(mip) + x
            <= u32::MAX && self.cell_index(x, y, mip) <= usize::MAX)
    }

    /// Whether the column can be read as a chain of slabs.
    pub open spec fn readable(self, x: int, y: int, mip: u32) -> bool {
        self.cell_fits(x, y, mip) && (self.column(x, y, mip) matches Some(s) ==> slab::well_linked(s, 0))
    }

    /// Whether the colours of the column can be read as well.
    pub open spec fn paintable(self, x: int, y: int, mip: u32) -> bool {
        mip < 32 && self.readable(x, y, mip) && (self.column(x, y, mip) matches Some(s) ==> slab::lists_fit(s, 0))
    }

    /// The solid runs of the column; none where there is no column.
    pub open spec fn runs(self, x: int, y: int, mip: u32) -> Seq<(i32, i32)> {
        match self.column(x, y, mip) {
            Some(s) => slab::column_runs(s, depth_at(mip)),
            None => Seq::empty(),
        }
    }

    /// Top of the solid run that holds the voxel.
    pub open spec fn solid_top(self, x: int, y: int, z: int, mip: u32) -> Option<i32> {
        if z < depth_at(mip) {
            slab::run_top(self.runs(x, y, mip), z)
        } else {
            None
        }
    }

    /// The colour that the column stores for the voxel.
    pub open spec fn colour(self, x: int, y: int, z: int, mip: u32) -> Option<u32> {
        match self.column(x, y, mip) {
            Some(s) => if z < depth_at(mip) {
                slab::stored_colour(s, z)
            } else {
                None
            },
            None => None,
        }
    }

    /// The stored colour of the voxel, unless it has zero red, green and
    /// blue.
    pub open spec fn textured_colour(self, x: int, y: int, z: int, mip: u32) -> Option<VoxColor> {
        match self.colour(x, y, z, mip) {
            Some(c) => if c & 0x00ff_ffff != 0 {
                Some(VoxColor(c))
            } else {
                None
            },
            None => None,
        }
    }

    /// The colour to show for the voxel; `None` for air.
    pub open spec fn shown_colour(
        self,
        x: int,
        y: int,
        z: int,
        mip: u32,
        fallback: VoxColor,
    ) -> Option<VoxColor> {
        match self.solid_top(x, y, z, mip) {
            None => None,
            Some(top) => if self.colour(x, y, z, mip) is Some {
                self.textured_colour(x, y, z, mip)
            } else if top >= 0 && self.textured_colour(x, y, top as int, mip) is Some {
                self.textured_colour(x, y, top as int, mip)
            } else {
                Some(fallback)
            },
        }
    }

    /// Index of the lowest layer of chunks.
    pub open spec fn origin_layer(self) -> int {
        match self.chunk_grid {
            Some(cg) => cg.origin_chunk_z as int,
            None => 0,
        }
    }

    /// Lowest coordinate of the grid along an axis.
    pub open spec fn low_corner(self, axis: int) -> int {
        match self.chunk_grid {
            Some(cg) => if axis == 2 {
                cg.origin_chunk_z * 256
            } else {
                cg.origin_chunk_xy[axis] * (self.chunk_size_xy as i32)
            },
            None => 0,
        }
    }

    /// First coordinate past the grid along an axis.
    pub open spec fn high_corner(self, axis: int) -> int {
        match self.chunk_grid {
            Some(cg) => if axis == 0 {
                self.low_corner(0) + (cg.chunks_x as i32) * (self.chunk_size_xy as i32)
            } else if axis == 1 {
                self.low_corner(1) + (cg.chunks_y as i32) * (self.chunk_size_xy as i32)
            } else {
                (cg.origin_chunk_z + (cg.chunks_z as i32)) * 256
            },
            None => if axis == 2 {
                256
            } else {
                (self.vsid as i32) as int
            },
        }
    }

    /// Whether the box along x and y stays inside machine integers.
    pub open spec fn aabb_fits(self) -> bool {
        self.chunk_grid matches Some(cg) ==> {
            &&& i32::MIN <= self.low_corner(0) <= i32::MAX
            &&& i32::MIN <= self.low_corner(1) <= i32::MAX
            &&& i32::MIN <= (cg.chunks_x as i32) * (self.chunk_size_xy as i32) <= i32::MAX
            &&& i32::MIN <= (cg.chunks_y as i32) * (self.chunk_size_xy as i32) <= i32::MAX
            &&& i32::MIN <= self.high_corner(0) <= i32::MAX
            &&& i32::MIN <= self.high_corner(1) <= i32::MAX
        }
    }

    /// Whether the box along z stays inside machine integers.
    pub open spec fn z_span_fits(self) -> bool {
        self.chunk_grid matches Some(cg) ==> {
            &&& i32::MIN <= self.low_corner(2) <= i32::MAX
            &&& i32::MIN <= cg.origin_chunk_z + (cg.chunks_z as i32) <= i32::MAX
            &&& i32::MIN <= self.high_corner(2) <= i32::MAX
        }
    }

    /// Builds a single-chunk view.
    #[must_use]
    pub fn from_parts(
        vsid: u32,
        slab_buf: &'a [u8],
        column_offsets: &'a [u32],
        mip_base_offsets: &'a [usize],
    ) -> (r: Self)
        ensures
            r == (GridView {
                vsid,
                chunk_size_xy: vsid,
                chunk_size_z: CHUNK_SIZE_Z,
                slab_buf,
                column_offsets,
                mip_base_offsets,
                chunk_grid: None,
            }),
    {
        GridView {
            vsid,
            chunk_size_xy: vsid,
            chunk_size_z: CHUNK_SIZE_Z,
            slab_buf,
            column_offsets,
            mip_base_offsets,
            chunk_grid: None,
        }
    }

    /// Views a whole map as one chunk.
    #[must_use]
    pub fn from_single_vxl(vxl: &'a Vxl) -> (r: Self)
        ensures
            r.vsid == vxl.vsid,
            r.chunk_size_xy == vxl.vsid,
            r.chunk_size_z == CHUNK_SIZE_Z,
            r.slab_buf@ == vxl.data@,
            r.column_offsets@ == vxl.column_offset@,
            r.mip_base_offsets@ == vxl.mip_base_offsets@,
            r.chunk_grid is None,
    {
        GridView::from_parts(
            vxl.vsid,
            vxl.data.as_slice(),
            vxl.column_offset.as_slice(),
            vxl.mip_base_offsets.as_slice(),
        )
    }

    /// Views a grid of chunks. The flat fields are those of the first
    /// chunk that is there; without any they are empty.
    #[must_use]
    pub fn from_chunk_grid(chunk_grid: &'a ChunkGrid<'a>, chunk_size_xy: u32) -> (r: Self)
        ensures
            r.chunk_grid == Some(chunk_grid),
            r.chunk_size_xy == chunk_size_xy,
            r.chunk_size_z == CHUNK_SIZE_Z,
            match first_populated(chunk_grid.chunks@, 0) {
                Some(c) => r.vsid == c.vsid && r.slab_buf@ == c.slab_buf@ && r.column_offsets@
                    == c.column_offsets@ && r.mip_base_offsets@ == c.mip_base_offsets@,
                None => r.vsid == chunk_size_xy && r.slab_buf@.len() == 0
                    && r.column_offsets@.len() == 0 && r.mip_base_offsets@.len() == 0,
            },
    {
        let n: usize = chunk_grid.chunks.len();
        let mut i: usize = 0;
        while i < n
            invariant
                n == chunk_grid.chunks@.len(),
                i <= n,
                first_populated(chunk_grid.chunks@, 0) == first_populated(
                    chunk_grid.chunks@,
                    i as int,
                ),
            decreases n - i,
        {
            if let Some(c) = chunk_grid.chunks[i] {
                return GridView {
                    vsid: c.vsid,
                    chunk_size_xy,
                    chunk_size_z: CHUNK_SIZE_Z,
                    slab_buf: c.slab_buf,
                    column_offsets: c.column_offsets,
                    mip_base_offsets: c.mip_base_offsets,
                    chunk_grid: Some(chunk_grid),
                };
            }
            i += 1;
        }
        GridView {
            vsid: chunk_size_xy,
            chunk_size_xy,
            chunk_size_z: CHUNK_SIZE_Z,
            slab_buf: &[],
            column_offsets: &[],
            mip_base_offsets: &[],
            chunk_grid: Some(chunk_grid),
        }
    }

    /// Sets the side of the grid's chunks.
    #[must_use]
    pub fn with_chunk_size_xy(self, chunk_size_xy: u32) -> (r: Self)
        ensures
            r == (GridView { chunk_size_xy, ..self }),
    {
        GridView { chunk_size_xy, ..self }
    }

    /// Number of levels; `0` only for an empty view.
    #[must_use]
    pub fn mip_count(&self) -> (r: u32)
        ensures
            r == self.levels(),
    {
        let n: usize = self.mip_base_offsets.len();
        if n == 0 {
            0
        } else {
            (n - 1) as u32
        }
    }

    /// The bytes of column `(x, y)` at level `mip` and all that follow
    /// them, or `None` where the view has no such column.
    pub fn column_slab_mip(&self, x: u32, y: u32, mip: u32) -> (r: Option<&'a [u8]>)
        requires
            self.cell_fits(x as int, y as int, mip),
        ensures
            match r {
                Some(b) => self.column(x as int, y as int, mip) == Some(b@),
                None => self.column(x as int, y as int, mip) is None,
            },
    {
        if mip >= self.mip_count() {
            return None;
        }
        let shifted: u32 = self.vsid >> mip;
        let vsid_m: u32 = if shifted == 0 {
            1
        } else {
            shifted
        };
        if x >= vsid_m || y >= vsid_m {
            return None;
        }
        let ghost side = self.side(mip);
        assert(0 <= y * side <= y * side + x) by (nonlinear_arith)
            requires
                side >= 0,
        ;
        assert(y * vsid_m == y * side);
        assert(mip < self.mip_base_offsets@.len());
        let base: usize = self.mip_base_offsets[mip as usize];
        let col_idx: usize = base + (y * vsid_m + x) as usize;
        if col_idx >= self.column_offsets.len() {
            return None;
        }
        let start: usize = self.column_offsets[col_idx] as usize;
        let total: usize = self.slab_buf.len();
        if start > total {
            return None;
        }
        let bytes: &'a [u8] = &self.slab_buf[start..total];
        assert(bytes@ =~= self.slab_buf@.skip(start as int));
        Some(bytes)
    }

    /// Top of the solid run that holds voxel `(x, y, z)` at level 0, or
    /// `None` where the voxel is air.
    #[must_use]
    pub fn voxel_run_top(&self, x: u32, y: u32, z: u32) -> (r: Option<i32>)
        requires
            self.readable(x as int, y as int, 0),
        ensures
            r == self.solid_top(x as int, y as int, z as int, 0),
    {
        self.voxel_run_top_mip(x, y, z, 0)
    }

    /// Top of the solid run that holds voxel `(x, y, z)` at level `mip`,
    /// in that level's coordinates, or `None` where the voxel is air.
    #[must_use]
    pub fn voxel_run_top_mip(&self, x: u32, y: u32, z: u32, mip: u32) -> (r: Option<i32>)
        requires
            mip < 32,
            self.readable(x as int, y as int, mip),
        ensures
            r == self.solid_top(x as int, y as int, z as int, mip),
    {
        let maxz: i32 = column_depth(mip);
        if z as i64 >= maxz as i64 {
            return None;
        }
        match self.column_slab_mip(x, y, mip) {
            None => None,
            Some(slab) => run_top_in(slab, z as i32, maxz),
        }
    }

    /// The solid runs `[top, bottom)` of column `(x, y)` at level 0, top
    /// to bottom.
    #[must_use]
    pub fn for_each_run(&self, x: u32, y: u32) -> (r: Vec<(i32, i32)>)
        requires
            self.readable(x as int, y as int, 0),
        ensures
            r@ == self.runs(x as int, y as int, 0),
    {
        self.for_each_run_mip(x, y, 0)
    }

    /// The solid runs `[top, bottom)` of column `(x, y)` at level `mip`,
    /// top to bottom; none where there is no column.
    #[must_use]
    pub fn for_each_run_mip(&self, x: u32, y: u32, mip: u32) -> (r: Vec<(i32, i32)>)
        requires
            self.readable(x as int, y as int, mip),
        ensures
            r@ == self.runs(x as int, y as int, mip),
    {
        match self.column_slab_mip(x, y, mip) {
            None => Vec::new(),
            Some(slab) => runs_in(slab, column_depth(mip)),
        }
    }

    /// Colour to show for voxel `(x, y, z)` at level 0. See
    /// [`Self::surface_color_mip`].
    #[must_use]
    pub fn surface_color(&self, x: u32, y: u32, z: u32, fallback: VoxColor) -> (r: Option<VoxColor>)
        requires
            self.paintable(x as int, y as int, 0),
        ensures
            r == self.shown_colour(x as int, y as int, z as int, 0, fallback),
    {
        self.surface_color_mip(x, y, z, 0, fallback)
    }

    /// Colour to show for voxel `(x, y, z)` at level `mip`, or `None` for
    /// air. A solid voxel shows its own stored colour, else the colour
    /// stored at the top of its run, else `fallback`; a stored colour of
    /// zero red, green and blue marks the voxel as air.
    #[must_use]
    pub fn surface_color_mip(
        &self,
        x: u32,
        y: u32,
        z: u32,
        mip: u32,
        fallback: VoxColor,
    ) -> (r: Option<VoxColor>)
        requires
            self.paintable(x as int, y as int, mip),
        ensures
            r == self.shown_colour(x as int, y as int, z as int, mip, fallback),
    {
        let top: i32 = match self.voxel_run_top_mip(x, y, z, mip) {
            Some(t) => t,
            None => return None,
        };
        match self.voxel_color_raw_mip(x, y, z, mip) {
            Some(c) => if c.0 & 0x00ff_ffff != 0 {
                Some(c)
            } else {
                None
            },
            None => {
                if top < 0 {
                    return Some(fallback);
                }
                match self.voxel_color_raw_mip(x, y, top as u32, mip) {
                    Some(c) => if c.0 & 0x00ff_ffff != 0 {
                        Some(c)
                    } else {
                        Some(fallback)
                    },
                    None => Some(fallback),
                }
            },
        }
    }

    /// Stored colour of voxel `(x, y, z)` at level 0. See
    /// [`Self::voxel_color_mip`].
    #[must_use]
    pub fn voxel_color(&self, x: u32, y: u32, z: u32) -> (r: Option<VoxColor>)
        requires
            self.paintable(x as int, y as int, 0),
        ensures
            r == self.textured_colour(x as int, y as int, z as int, 0),
    {
        self.voxel_color_mip(x, y, z, 0)
    }

    /// Stored colour of voxel `(x, y, z)` at level `mip`; `None` where
    /// none is stored or where it has zero red, green and blue.
    #[must_use]
    pub fn voxel_color_mip(&self, x: u32, y: u32, z: u32, mip: u32) -> (r: Option<VoxColor>)
        requires
            self.paintable(x as int, y as int, mip),
        ensures
            r == self.textured_colour(x as int, y as int, z as int, mip),
    {
        match self.voxel_color_raw_mip(x, y, z, mip) {
            Some(c) => if c.0 & 0x00ff_ffff != 0 {
                Some(c)
            } else {
                None
            },
            None => None,
        }
    }

    /// Stored colour of voxel `(x, y, z)` at level `mip`, zero included;
    /// `None` only where none is stored.
    #[must_use]
    pub fn voxel_color_raw_mip(&self, x: u32, y: u32, z: u32, mip: u32) -> (r: Option<VoxColor>)
        requires
            self.paintable(x as int, y as int, mip),
        ensures
            match r {
                Some(c) => self.colour(x as int, y as int, z as int, mip) == Some(c.0),
                None => self.colour(x as int, y as int, z as int, mip) is None,
            },
    {
        let maxz: i32 = column_depth(mip);
        if z as i64 >= maxz as i64 {
            return None;
        }
        match self.column_slab_mip(x, y, mip) {
            None => None,
            Some(slab) => match stored_colour_in(slab, z as i32) {
                Some(c) => Some(VoxColor(c)),
                None => None,
            },
        }
    }

    /// Whether a chunk index can be looked up.
    #[must_use]
    pub fn can_index(&self, idx: [i32; 3]) -> (r: bool)
        ensures
            r == self.chunk_index_fits(idx[0] as int, idx[1] as int, idx[2] as int),
    {
        let cg = match self.chunk_grid {
            Some(cg) => cg,
            None => return true,
        };
        let dx: i64 = idx[0] as i64 - cg.origin_chunk_xy[0] as i64;
        let dy: i64 = idx[1] as i64 - cg.origin_chunk_xy[1] as i64;
        let dz: i64 = idx[2] as i64 - cg.origin_chunk_z as i64;
        let (lo, hi) = (i32::MIN as i64, i32::MAX as i64);
        if dx < lo || dx > hi || dy < lo || dy > hi || dz < lo || dz > hi {
            return false;
        }
        if dx < 0 || dy < 0 || dz < 0 || dx >= cg.chunks_x as i64 || dy >= cg.chunks_y as i64 || dz
            >= cg.chunks_z as i64 {
            return true;
        }
        let (w, h) = (cg.chunks_x as u128, cg.chunks_y as u128);
        let (a, b, c) = (dx as u128, dy as u128, dz as u128);
        assert(c * h <= 0x8000_0000 * 0x1_0000_0000) by (nonlinear_arith)
            requires
                c <= 0x8000_0000,
                h <= 0x1_0000_0000,
        ;
        let row: u128 = c * h + b;
        assert(row * w <= 0x1_0000_0000_0000_0000 * 0x1_0000_0000) by (nonlinear_arith)
            requires
                row <= 0x1_0000_0000_0000_0000,
                w <= 0x1_0000_0000,
        ;
        row * w + a <= usize::MAX as u128
    }

    /// Whether the bounding box of the grid can be told.
    #[must_use]
    pub fn has_bounds(&self) -> (r: bool)
        ensures
            r == (self.aabb_fits() && self.z_span_fits()),
    {
        let cg = match self.chunk_grid {
            Some(cg) => cg,
            None => return true,
        };
        let cs: i64 = self.chunk_size_xy as i32 as i64;
        let (x, y, z) = (
            cg.origin_chunk_xy[0] as i64,
            cg.origin_chunk_xy[1] as i64,
            cg.origin_chunk_z as i64,
        );
        let (nx, ny, nz) = (
            cg.chunks_x as i32 as i64,
            cg.chunks_y as i32 as i64,
            cg.chunks_z as i32 as i64,
        );
        let end: i64 = z + nz;
        proof {
            lemma_small_product(x as int, cs as int);
            lemma_small_product(y as int, cs as int);
            lemma_small_product(nx as int, cs as int);
            lemma_small_product(ny as int, cs as int);
        }
        is_i32(x * cs) && is_i32(y * cs) && is_i32(nx * cs) && is_i32(ny * cs) && is_i32(
            x * cs + nx * cs,
        ) && is_i32(y * cs + ny * cs) && is_i32(z * 256) && is_i32(end) && is_i32(end * 256)
    }

    /// Bounding box of the grid in columns, `[min, max)` along x and y.
    #[must_use]
    pub fn aabb_xy(&self) -> (r: ([i32; 2], [i32; 2]))
        requires
            self.aabb_fits(),
        ensures
            r.0[0] == self.low_corner(0),
            r.0[1] == self.low_corner(1),
            r.1[0] == self.high_corner(0),
            r.1[1] == self.high_corner(1),
    {
        if let Some(cg) = self.chunk_grid {
            let cs: i32 = self.chunk_size_xy as i32;
            let chunks_x: i32 = cg.chunks_x as i32;
            let chunks_y: i32 = cg.chunks_y as i32;
            let xmin: i32 = cg.origin_chunk_xy[0] * cs;
            let ymin: i32 = cg.origin_chunk_xy[1] * cs;
            let xmax: i32 = xmin + chunks_x * cs;
            let ymax: i32 = ymin + chunks_y * cs;
            ([xmin, ymin], [xmax, ymax])
        } else {
            let v: i32 = self.vsid as i32;
            ([0, 0], [v, v])
        }
    }

    /// Bounding box of the grid in voxels, `[min, max)` along each axis.
    #[must_use]
    pub fn voxel_bounds(&self) -> (r: ([i32; 3], [i32; 3]))
        requires
            self.aabb_fits(),
            self.z_span_fits(),
        ensures
            forall|a: int| 0 <= a < 3 ==> #[trigger] r.0[a] == self.low_corner(a),
            forall|a: int| 0 <= a < 3 ==> #[trigger] r.1[a] == self.high_corner(a),
    {
        let (lo, hi) = self.aabb_xy();
        let csz: i32 = CHUNK_SIZE_Z as i32;
        if let Some(cg) = self.chunk_grid {
            let chunks_z: i32 = cg.chunks_z as i32;
            let z0: i32 = cg.origin_chunk_z * csz;
            let z1: i32 = (cg.origin_chunk_z + chunks_z) * csz;
            ([lo[0], lo[1], z0], [hi[0], hi[1], z1])
        } else {
            ([lo[0], lo[1], 0], [hi[0], hi[1], csz])
        }
    }

    /// The chunk at an index along x and y, in the lowest layer.
    #[must_use]
    pub fn chunk_at_xy(&self, chunk_idx: [i32; 2]) -> (r: Option<GridView<'a>>)
        requires
            self.chunk_index_fits(
                chunk_idx[0] as int,
                chunk_idx[1] as int,
                self.origin_layer(),
            ),
        ensures
            r == self.chunk(chunk_idx[0] as int, chunk_idx[1] as int, self.origin_layer()),
    {
        let z: i32 = match self.chunk_grid {
            Some(cg) => cg.origin_chunk_z,
            None => 0,
        };
        self.chunk_at_xyz([chunk_idx[0], chunk_idx[1], z])
    }

    /// The chunk at an index; this view itself at `(0, 0)`, whatever the
    /// layer, where there is no chunk grid.
    #[must_use]
    pub fn chunk_at_xyz(&self, chunk_idx: [i32; 3]) -> (r: Option<GridView<'a>>)
        requires
            self.chunk_index_fits(
                chunk_idx[0] as int,
                chunk_idx[1] as int,
                chunk_idx[2] as int,
            ),
        ensures
            r == self.chunk(chunk_idx[0] as int, chunk_idx[1] as int, chunk_idx[2] as int),
    {
        if let Some(cg) = self.chunk_grid {
            let dx: i32 = chunk_idx[0] - cg.origin_chunk_xy[0];
            let dy: i32 = chunk_idx[1] - cg.origin_chunk_xy[1];
            let dz: i32 = chunk_idx[2] - cg.origin_chunk_z;
            if dx < 0 || dy < 0 || dz < 0 {
                return None;
            }
            if dx as u32 >= cg.chunks_x || dy as u32 >= cg.chunks_y || dz as u32 >= cg.chunks_z {
                return None;
            }
            let ghost row = dz * cg.chunks_y + dy;
            assert(0 <= dz * cg.chunks_y <= row <= row * cg.chunks_x <= row * cg.chunks_x + dx)
                by (nonlinear_arith)
                requires
                    dz >= 0,
                    dy >= 0,
                    dx >= 0,
                    cg.chunks_x >= 1,
                    cg.chunks_y >= 1,
                    row == dz * cg.chunks_y + dy,
            ;
            let r: usize = dz as usize * cg.chunks_y as usize + dy as usize;
            let i: usize = r * cg.chunks_x as usize + dx as usize;
            if i < cg.chunks.len() {
                cg.chunks[i]
            } else {
                None
            }
        } else if chunk_idx[0] == 0 && chunk_idx[1] == 0 {
            Some(*self)
        } else {
            None
        }
    }
}

fn stored_colour_in(bytes: &[u8], z: i32) -> (r: Option<u32>)
    requires
        slab::well_linked(bytes@, 0),
        slab::lists_fit(bytes@, 0),
        0 <= z < 256,
    ensures
        r == slab::stored_colour(bytes@, z as int),
{
    let ghost s = bytes@;
    let mut v: usize = 0;
    loop
        invariant
            s == bytes@,
            slab::well_linked(s, v as int),
            slab::lists_fit(s, v as int),
            0 <= z < 256,
            slab::colour_pos(s, v as int, z as int) == slab::colour_pos(s, 0, z as int),
        decreases s.len() - v,
    {
        let nextptr: u8 = bytes[v];
        let z_start: i32 = bytes[v + 1] as i32;
        let z1c: i32 = bytes[v + 2] as i32;
        if z >= z_start && z <= z1c {
            return word_if_there(bytes, v, (z - z_start) as usize + 1);
        }
        if nextptr == 0 {
            return None;
        }
        let ghost n = slab::next_header(s, v as int);
        assert(slab::well_linked(s, n));
        assert(slab::lists_fit(s, n));
        v = v + nextptr as usize * 4;
        let ze: i32 = bytes[v + 3] as i32;
        let ceil_z_start: i32 = ze + z1c - z_start - nextptr as i32 + 2;
        if z >= ceil_z_start && z < ze {
            return word_if_there(bytes, v - (ze - z) as usize * 4, 0);
        }
    }
}

/// The word `words` after byte `at`, where it is there.
fn word_if_there(bytes: &[u8], at: usize, words: usize) -> (r: Option<u32>)
    requires
        at < bytes@.len(),
        words <= 1024,
    ensures
        r == (if at + words * 4 + 4 <= bytes@.len() {
            Some(slab::word_at(bytes@, at + words * 4))
        } else {
            None
        }),
{
    let room: usize = bytes.len() - at;
    if room >= words * 4 + 4 {
        Some(read_word(bytes, at + words * 4))
    } else {
        None
    }
}

/// Height of a column at level `mip`.
fn column_depth(mip: u32) -> (r: i32)
    requires
        mip < 32,
    ensures
        r == depth_at(mip),
        0 <= r <= 256,
{
    assert(256u32 >> mip <= 256) by (bit_vector)
        requires
            mip < 32,
    ;
    (CHUNK_SIZE_Z >> mip) as i32
}

fn run_top_in(bytes: &[u8], z: i32, depth: i32) -> (r: Option<i32>)
    requires
        slab::well_linked(bytes@, 0),
        0 <= z < depth,
    ensures
        r == slab::run_top(slab::column_runs(bytes@, depth), z as int),
{
    let ghost s = bytes@;
    let mut top: i32 = bytes[1] as i32;
    let mut v: usize = 0;
    loop
        invariant
            s == bytes@,
            slab::well_linked(s, v as int),
            0 <= z < depth,
            slab::run_top(slab::runs_from(s, v as int, top, depth), z as int) == slab::run_top(
                slab::column_runs(s, depth),
                z as int,
            ),
        decreases s.len() - v,
    {
        let nextptr: usize = bytes[v] as usize;
        let ghost here = slab::runs_from(s, v as int, top, depth);
        if nextptr == 0 {
            if bytes[v + 2] as i32 + 1 < bytes[v + 1] as i32 {
                return None;
            }
            assert(here.skip(1) =~= Seq::empty());
            assert(slab::run_top(here.skip(1), z as int) is None);
            return if z >= top && z < depth {
                Some(top)
            } else {
                None
            };
        }
        let ghost n = slab::next_header(s, v as int);
        assert(slab::well_linked(s, n));
        v = v + nextptr * 4;
        let ze: i32 = bytes[v + 3] as i32;
        let z1: i32 = bytes[v + 1] as i32;
        if ze < z1 {
            let ghost rest = slab::runs_from(s, n, z1, depth);
            assert(here =~= seq![(top, ze)] + rest);
            assert(here.skip(1) =~= rest);
            if z >= top && z < ze {
                return Some(top);
            }
            top = z1;
        }
    }
}

fn runs_in(bytes: &[u8], depth: i32) -> (r: Vec<(i32, i32)>)
    requires
        slab::well_linked(bytes@, 0),
    ensures
        r@ == slab::column_runs(bytes@, depth),
{
    let ghost s = bytes@;
    let mut out: Vec<(i32, i32)> = Vec::new();
    let mut top: i32 = bytes[1] as i32;
    let mut v: usize = 0;
    assert(out@ + slab::column_runs(s, depth) =~= slab::column_runs(s, depth));
    loop
        invariant
            s == bytes@,
            slab::well_linked(s, v as int),
            out@ + slab::runs_from(s, v as int, top, depth) == slab::column_runs(s, depth),
        decreases s.len() - v,
    {
        let nextptr: usize = bytes[v] as usize;
        let ghost here = slab::runs_from(s, v as int, top, depth);
        let ghost done = out@;
        if nextptr == 0 {
            if bytes[v + 2] as i32 + 1 < bytes[v + 1] as i32 {
                assert(done + here =~= out@);
                return out;
            }
            out.push((top, depth));
            assert(done + here =~= out@);
            return out;
        }
        let ghost n = slab::next_header(s, v as int);
        assert(slab::well_linked(s, n));
        v = v + nextptr * 4;
        let ze: i32 = bytes[v + 3] as i32;
        let z1: i32 = bytes[v + 1] as i32;
        if ze < z1 {
            out.push((top, ze));
            assert(done + here =~= out@ + slab::runs_from(s, n, z1, depth));
            top = z1;
        }
    }
}

/// Two chunks of the box never share a slot.
pub proof fn lemma_one_chunk_per_slot(
    cg: ChunkGrid,
    x: int,
    y: int,
    z: int,
    x2: int,
    y2: int,
    z2: int,
)
    requires
        cg.holds(x, y, z),
        cg.holds(x2, y2, z2),
        cg.slot(x, y, z) == cg.slot(x2, y2, z2),
    ensures
        x == x2 && y == y2 && z == z2,
{
    let w = cg.chunks_x as int;
    let h = cg.chunks_y as int;
    let (a, b, c) = (x - cg.origin_chunk_xy[0], y - cg.origin_chunk_xy[1], z - cg.origin_chunk_z);
    let (d, e, f) = (
        x2 - cg.origin_chunk_xy[0],
        y2 - cg.origin_chunk_xy[1],
        z2 - cg.origin_chunk_z,
    );
    let p = c * h + b;
    let q = f * h + e;
    vstd::arithmetic::div_mod::lemma_fundamental_div_mod_converse(p * w + a, w, p, a);
    vstd::arithmetic::div_mod::lemma_fundamental_div_mod_converse(q * w + d, w, q, d);
    vstd::arithmetic::div_mod::lemma_fundamental_div_mod_converse(c * h + b, h, c, b);
    vstd::arithmetic::div_mod::lemma_fundamental_div_mod_converse(f * h + e, h, f, e);
}

/// Only solid voxels show a colour. A solid voxel shows one unless the
/// column stores zero red, green and blue for it.
pub proof fn lemma_solid_shows_colour(
    grid: GridView,
    x: int,
    y: int,
    z: int,
    mip: u32,
    fallback: VoxColor,
)
    ensures
        grid.shown_colour(x, y, z, mip, fallback) is Some ==> grid.solid_top(x, y, z, mip) is Some,
        grid.solid_top(x, y, z, mip) is Some && (grid.colour(x, y, z, mip) is None
            || grid.textured_colour(x, y, z, mip) is Some) ==> grid.shown_colour(
            x,
            y,
            z,
            mip,
            fallback,
        ) is Some,
{
}

/// The top of a solid run is a voxel with a colour record, where the
/// column's floor colours are there and the slab that opens the run lists
/// some. A buried bottom, which lists none, may have a top without one.
pub proof fn lemma_run_top_is_coloured(grid: GridView, x: int, y: int, z: int, mip: u32)
    requires
        0 <= z,
        grid.column(x, y, mip) matches Some(s) ==> slab::floors_there(s, 0) && (slab::opener(
            s,
            0,
            0,
            z,
            depth_at(mip) as int,
        ) matches Some(p) ==> s[p + 1] <= s[p + 2]),
    ensures
        grid.solid_top(x, y, z, mip) matches Some(top) ==> grid.colour(
            x,
            y,
            top as int,
            mip,
        ) is Some,
{
    if grid.column(x, y, mip) is Some && grid.solid_top(x, y, z, mip) is Some {
        let s = grid.column(x, y, mip)->0;
        slab::lemma_listed_top_is_coloured(s, z, depth_at(mip));
        let k = slab::lemma_run_top(slab::column_runs(s, depth_at(mip)), z);
    }
}

} // verus!
