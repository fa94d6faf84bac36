//! Ray scan through voxel columns: the state of a scan, its phases, and
//! the two primitives that every fill uses.
use crate::arith;
use crate::color;
use crate::grid_view::GridView;
use crate::rasterizer::{CastDat, ScanScratch};
use crate::sky::Sky;
use vstd::prelude::*;

pub mod columns;
pub mod empty;
pub mod fill;
pub mod fill_laws;
pub mod ground;
pub mod guard;
pub mod laws;
pub mod level_laws;
pub mod mip;
pub mod order;
pub mod run;
pub mod sky_laws;
pub mod skyfill;
pub mod splits;
pub mod stack;
pub mod step;
pub mod walk_laws;
pub mod walls;
pub mod within;

verus! {

/// One open segment of the view: the radar slots `i0..=i1`, the heights
/// between which it looks, and its two edge vectors.
#[derive(Debug, Clone, Copy, PartialEq, Eq, Structural)]
pub struct CfType {
    pub i0: isize,
    pub i1: isize,
    pub z0: i32,
    pub z1: i32,
    pub cx0: i32,
    pub cy0: i32,
    pub cx1: i32,
    pub cy1: i32,
    /// Layer of chunks that the segment reads.
    pub chz_layer: i32,
}

impl CfType {
    /// The segment whose fields are all zero.
    pub open spec fn zero() -> CfType {
        CfType { i0: 0, i1: 0, z0: 0, z1: 0, cx0: 0, cy0: 0, cx1: 0, cy1: 0, chz_layer: 0 }
    }
}

impl Default for CfType {
    fn default() -> (r: Self)
        ensures
            r == CfType::zero(),
    {
        CfType { i0: 0, i1: 0, z0: 0, z1: 0, cx0: 0, cy0: 0, cx1: 0, cy1: 0, chz_layer: 0 }
    }
}

/// Number of segments that the stack has room for.
pub const CF_LEN: usize = 256;

/// Bottom of the segment stack, where the seed stands.
pub const CF_SEED_INDEX: usize = 128;

/// Highest stack position that a split may push to.
pub const CF_TOP_INDEX: usize = 191;

/// What a scan reads of a sky texture.
#[derive(Clone, Copy)]
pub struct SkyRef<'a> {
    /// Packed texels, row after row.
    pub pixels: &'a [i32],
    /// Latitude table.
    pub lat: &'a [i32],
    /// Column at which the latitude search starts.
    pub xsiz_post: i32,
    /// Texels per row.
    pub row_stride: i32,
}

impl<'a> SkyRef<'a> {
    /// Borrows a sky for one scan.
    #[must_use]
    pub fn from_sky(sky: &'a Sky) -> (r: Self)
        ensures
            r.pixels@ == sky.pixels@,
            r.lat@ == sky.lat@,
            r.xsiz_post == sky.xsiz,
            r.row_stride == if sky.bpl >= 0 {
                sky.bpl as int / 4
            } else {
                -(-(sky.bpl as int) / 4)
            },
    {
        let bpl: i32 = sky.bpl;
        SkyRef {
            pixels: sky.pixels.as_slice(),
            lat: sky.lat.as_slice(),
            xsiz_post: sky.xsiz,
            row_stride: quarter(bpl),
        }
    }
}

/// `x / 4`, rounded toward zero.
fn quarter(x: i32) -> (r: i32)
    ensures
        r == if x >= 0 {
            x as int / 4
        } else {
            -(-(x as int) / 4)
        },
{
    let wide: i64 = x as i64;
    if wide >= 0 {
        (wide as u32 / 4) as i32
    } else {
        -((((0 - wide) as u32) / 4) as i32)
    }
}

/// Switches for narrowing segments where the ray moves to coarser
/// columns.
#[derive(Debug, Clone, Copy, PartialEq, Eq, Structural)]
pub struct CfNarrowing {
    /// Narrow when the ray moves to a coarser level.
    pub at_mip: bool,
    /// Narrow at every column step of a coarse level.
    pub per_column: bool,
    /// Keep the slots of a segment that is narrowed per column.
    pub keep_slots: bool,
}

/// What one scan reads and does not change.
pub struct GrouscanInputs<'a> {
    /// Slab bytes of the column that the scan starts in.
    pub column: &'a [u8],
    /// Screen position per height, level after level.
    pub gylookup: &'a [i32],
    /// Shading per side.
    pub gcsub: &'a [i64; 9],
    /// Slab bytes of the chunk that the scan starts in.
    pub slab_buf: &'a [u8],
    /// Column starts of that chunk, level after level.
    pub column_offsets: &'a [u32],
    /// Level starts in `column_offsets`.
    pub mip_base_offsets: &'a [usize],
    /// Side of that chunk in columns.
    pub vsid: u32,
    /// Sky texture, if the sky is not plain.
    pub sky: Option<SkyRef<'a>>,
    /// The whole grid.
    pub grid_view: GridView<'a>,
    /// Layer of chunks that the camera is in.
    pub camera_chunk_z: i32,
    /// Height of the layer's first voxel.
    pub chunk_world_z_base: i32,
    /// Height of one chunk in voxels.
    pub chunk_size_z: u32,
    /// Segment narrowing switches.
    pub narrowing: CfNarrowing,
}

/// State of one scan.
pub struct GrouscanState<'a> {
    pub scratch: &'a mut ScanScratch,
    /// Slab bytes of the column that the ray is in.
    pub column: Vec<u8>,
    pub gylookup: &'a [i32],
    pub gcsub: &'a [i64; 9],
    pub slab_buf: &'a [u8],
    pub column_offsets: &'a [u32],
    pub mip_base_offsets: &'a [usize],
    pub vsid: u32,
    pub sky: Option<SkyRef<'a>>,
    /// Heights and edge vectors of the current segment.
    pub z0: i32,
    pub z1: i32,
    pub cx0: i32,
    pub cy0: i32,
    pub cx1: i32,
    pub cy1: i32,
    /// Depths of the near and the far side of the column.
    pub ogx: i32,
    pub gx: i32,
    /// Depth at which the ray moves to the next level.
    pub ngxmax: i32,
    /// Axis of the next grid line: `0` for x, `1` for y.
    pub lane: usize,
    pub color: u32,
    pub gy_raw: i32,
    pub off: i32,
    /// Last shaded colour.
    pub mm5_tail: u32,
    /// Axis of the wall that is being filled.
    pub wall_lane: usize,
    /// Radar slot of the next wall pixel.
    pub ebx: isize,
    /// Byte position of the current slab in `column`.
    pub vptr_offset: usize,
    /// Stack position of the current segment.
    pub c_idx: usize,
    /// Top of the segment stack.
    pub ce_idx: usize,
    /// Stack position that the current values are saved to.
    pub c_presync_idx: usize,
    /// Position of the column in `column_offsets`.
    pub ixy_sptr_col_idx: usize,
    /// Column coordinates, at level 0 and at the current level.
    pub cx: i32,
    pub cy: i32,
    pub cx_mip: i32,
    pub cy_mip: i32,
    pub vsid_signed: i32,
    /// Current level.
    pub gmipcnt: i32,
    /// Number of levels.
    pub gmipnum: u32,
    pub grid_view: GridView<'a>,
    pub chunk_size_xy: u32,
    pub chunk_size_xy_log2: u32,
    pub chunk_size_xy_mask: i32,
    /// Chunk that the ray is in.
    pub current_chunk_idx_xy: [i32; 2],
    /// Whether that chunk is there.
    pub current_chunk_exists: bool,
    pub camera_chunk_z: i32,
    pub chunk_world_z_base: i32,
    pub chunk_size_z: u32,
    pub current_chunk_z: i32,
    pub narrowing: CfNarrowing,
}

/// Mathematical model of the state of one scan.
#[verifier::ext_equal]
pub struct Ray<'a> {
    pub radar: Seq<CastDat>,
    pub cf: Seq<CfType>,
    pub gpz: Seq<i32>,
    pub gdz: Seq<i32>,
    pub gixy: Seq<i32>,
    pub gi0: i32,
    pub gi1: i32,
    pub gxmax: i32,
    pub skycast: CastDat,
    pub sky_off: i32,
    pub treat_z_max_as_air: bool,
    pub column: Seq<u8>,
    pub gylookup: Seq<i32>,
    pub gcsub: Seq<i64>,
    pub slab_buf: Seq<u8>,
    pub column_offsets: Seq<u32>,
    pub mip_base_offsets: Seq<usize>,
    pub vsid: u32,
    pub sky: Option<SkyRef<'a>>,
    pub z0: i32,
    pub z1: i32,
    pub cx0: i32,
    pub cy0: i32,
    pub cx1: i32,
    pub cy1: i32,
    pub ogx: i32,
    pub gx: i32,
    pub ngxmax: i32,
    pub lane: int,
    pub color: u32,
    pub gy_raw: i32,
    pub off: i32,
    pub mm5_tail: u32,
    pub wall_lane: int,
    pub ebx: int,
    pub vptr_offset: int,
    pub c_idx: int,
    pub ce_idx: int,
    pub c_presync_idx: int,
    pub ixy_sptr_col_idx: int,
    pub cx: i32,
    pub cy: i32,
    pub cx_mip: i32,
    pub cy_mip: i32,
    pub vsid_signed: i32,
    pub gmipcnt: i32,
    pub gmipnum: u32,
    pub grid_view: GridView<'a>,
    pub chunk_size_xy: u32,
    pub chunk_size_xy_log2: u32,
    pub chunk_size_xy_mask: i32,
    pub current_chunk_idx_xy: Seq<i32>,
    pub current_chunk_exists: bool,
    pub camera_chunk_z: i32,
    pub chunk_world_z_base: i32,
    pub chunk_size_z: u32,
    pub current_chunk_z: i32,
    pub narrowing: CfNarrowing,
}

impl<'a> View for GrouscanState<'a> {
    type V = Ray<'a>;

    open spec fn view(&self) -> Ray<'a> {
        Ray {
            radar: self.scratch.radar@,
            cf: self.scratch.cf@,
            gpz: self.scratch.gpz@,
            gdz: self.scratch.gdz@,
            gixy: self.scratch.gixy@,
            gi0: self.scratch.gi0,
            gi1: self.scratch.gi1,
            gxmax: self.scratch.gxmax,
            skycast: self.scratch.skycast,
            sky_off: self.scratch.sky_off,
            treat_z_max_as_air: self.scratch.treat_z_max_as_air,
            column: self.column@,
            gylookup: self.gylookup@,
            gcsub: self.gcsub@,
            slab_buf: self.slab_buf@,
            column_offsets: self.column_offsets@,
            mip_base_offsets: self.mip_base_offsets@,
            vsid: self.vsid,
            sky: self.sky,
            z0: self.z0,
            z1: self.z1,
            cx0: self.cx0,
            cy0: self.cy0,
            cx1: self.cx1,
            cy1: self.cy1,
            ogx: self.ogx,
            gx: self.gx,
            ngxmax: self.ngxmax,
            lane: self.lane as int,
            color: self.color,
            gy_raw: self.gy_raw,
            off: self.off,
            mm5_tail: self.mm5_tail,
            wall_lane: self.wall_lane as int,
            ebx: self.ebx as int,
            vptr_offset: self.vptr_offset as int,
            c_idx: self.c_idx as int,
            ce_idx: self.ce_idx as int,
            c_presync_idx: self.c_presync_idx as int,
            ixy_sptr_col_idx: self.ixy_sptr_col_idx as int,
            cx: self.cx,
            cy: self.cy,
            cx_mip: self.cx_mip,
            cy_mip: self.cy_mip,
            vsid_signed: self.vsid_signed,
            gmipcnt: self.gmipcnt,
            gmipnum: self.gmipnum,
            grid_view: self.grid_view,
            chunk_size_xy: self.chunk_size_xy,
            chunk_size_xy_log2: self.chunk_size_xy_log2,
            chunk_size_xy_mask: self.chunk_size_xy_mask,
            current_chunk_idx_xy: self.current_chunk_idx_xy@,
            current_chunk_exists: self.current_chunk_exists,
            camera_chunk_z: self.camera_chunk_z,
            chunk_world_z_base: self.chunk_world_z_base,
            chunk_size_z: self.chunk_size_z,
            current_chunk_z: self.current_chunk_z,
            narrowing: self.narrowing,
        }
    }
}

/// Which fill a scan begins with.
#[derive(Debug, Clone, Copy, PartialEq, Eq, Structural)]
pub enum InitialDispatch {
    /// The camera is above the first slab of its column.
    DrawFlor,
    /// The camera is in a gap between two slabs.
    DrawCeil,
}

/// What a scan starts from.
#[derive(Debug, Clone, Copy, PartialEq, Eq, Structural)]
pub struct GrouscanPrologue {
    pub z0: i32,
    pub z1: i32,
    pub cx0: i32,
    pub cy0: i32,
    pub cx1: i32,
    pub cy1: i32,
    pub lane: usize,
    pub ogx: i32,
    pub gx: i32,
    pub ngxmax: i32,
    pub dispatch: InitialDispatch,
}

/// One phase of a scan.
#[derive(Debug, Clone, Copy, PartialEq, Eq, Structural)]
pub enum Phase {
    /// Fill the wall below the view, from the right edge.
    DrawFwall,
    /// Fill the wall above the view, from the left edge.
    DrawCwall,
    PreDrawCeil,
    /// Fill the ceiling above the view.
    DrawCeil,
    PreDrawFlor,
    /// Fill the floor below the view.
    DrawFlor,
    PreDeleteZ,
    /// Take the current segment off the stack.
    DeleteZ,
    AfterDelete,
    /// Move to the next segment, or to the next column.
    AfterDeleteKeptPresync,
    SkipixyWithPresync,
    /// Save the current values and load those of the current segment.
    SyncFromPresync,
    /// Look at the first slab of the column.
    Skipixy3,
    /// Look at the current slab.
    Intoslabloop,
    /// Move to the next slab.
    Findslabloop,
    /// Move to the next level, or end in the sky.
    Remiporend,
    /// Fill what is left with sky.
    Startsky,
    Done,
}

/// Byte `i` of the two's complement of `x`.
pub open spec fn byte_of_wide(x: i64, i: int) -> int
    decreases i,
{
    if i <= 0 {
        x as int % 0x100
    } else {
        byte_of_wide((x as int / 0x100) as i64, i - 1)
    }
}

/// Lane `i` before shading: the tail's byte below the voxel's, each less
/// its shade, not below zero.
pub open spec fn shade_lane(vox: u32, tail: u32, csub: i64, i: int) -> int {
    arith::max_int(color::byte_of(tail, i) - byte_of_wide(csub, 2 * i), 0) + 0x100 * arith::max_int(
        color::byte_of(vox, i) - byte_of_wide(csub, 2 * i + 1),
        0,
    )
}

/// Byte `i` of a shaded colour: the lane scaled by the brightness lane.
pub open spec fn shade_byte(vox: u32, tail: u32, csub: i64, i: int) -> int {
    arith::min_int(
        shade_lane(vox, tail, csub, i) * shade_lane(vox, tail, csub, 3) / 0x80_0000,
        0xff,
    )
}

/// The shaded colour of a voxel.
pub open spec fn shade(vox: u32, tail: u32, csub: i64) -> u32 {
    (shade_byte(vox, tail, csub, 0) + shade_byte(vox, tail, csub, 1) * 0x100 + shade_byte(
        vox,
        tail,
        csub,
        2,
    ) * 0x1_0000 + shade_byte(vox, tail, csub, 3) * 0x100_0000) as u32
}

/// Lowest byte of `x`.
fn low_byte(x: i64) -> (r: u32)
    ensures
        r == x as int % 0x100,
        r < 0x100,
{
    assert(x & 0xff == x % 0x100 && 0 <= x & 0xff < 0x100) by (bit_vector);
    (x & 0xff) as u32
}

/// `x` without its lowest byte.
fn drop_byte(x: i64) -> (r: i64)
    ensures
        r == x as int / 0x100,
{
    assert(x >> 8u32 == x / 0x100) by (bit_vector);
    x >> 8u32
}

fn lane(tail_byte: u32, vox_byte: u32, tail_sub: u32, vox_sub: u32) -> (r: u32)
    requires
        tail_byte < 0x100,
        vox_byte < 0x100,
    ensures
        r == arith::max_int(tail_byte - tail_sub, 0) + 0x100 * arith::max_int(
            vox_byte - vox_sub,
            0,
        ),
        r < 0x1_0000,
{
    tail_byte.saturating_sub(tail_sub) + 0x100 * vox_byte.saturating_sub(vox_sub)
}

fn scale_lane(w: u32, bright: u32) -> (r: u32)
    requires
        w < 0x1_0000,
        bright < 0x1_0000,
    ensures
        r == arith::min_int(w * bright / 0x80_0000, 0xff),
        r <= 0xff,
{
    assert(w * bright <= 0xffff * 0xffff) by (nonlinear_arith)
        requires
            w <= 0xffff,
            bright <= 0xffff,
    ;
    let scaled: u32 = w * bright / 0x80_0000;
    if scaled > 0xff {
        0xff
    } else {
        scaled
    }
}

/// Shades one voxel: subtracts the side's shade from the bytes of the
/// voxel and of the last colour, then scales by the brightness lane. The
/// result becomes the last colour.
#[must_use]
pub fn grouscan_shade(vox: u32, tail: &mut u32, csub_qword: i64) -> (r: u32)
    ensures
        r == shade(vox, *old(tail), csub_qword),
        *final(tail) == r,
{
    let t: u32 = *tail;
    let s1: i64 = drop_byte(csub_qword);
    let s2: i64 = drop_byte(s1);
    let s3: i64 = drop_byte(s2);
    let s4: i64 = drop_byte(s3);
    let s5: i64 = drop_byte(s4);
    let s6: i64 = drop_byte(s5);
    let s7: i64 = drop_byte(s6);
    proof {
        reveal_with_fuel(byte_of_wide, 8);
    }
    let w0: u32 = lane(t % 0x100, vox % 0x100, low_byte(csub_qword), low_byte(s1));
    let w1: u32 = lane(t / 0x100 % 0x100, vox / 0x100 % 0x100, low_byte(s2), low_byte(s3));
    let w2: u32 = lane(t / 0x1_0000 % 0x100, vox / 0x1_0000 % 0x100, low_byte(s4), low_byte(s5));
    let w3: u32 = lane(t / 0x100_0000, vox / 0x100_0000, low_byte(s6), low_byte(s7));
    assert(w0 == shade_lane(vox, t, csub_qword, 0));
    assert(w1 == shade_lane(vox, t, csub_qword, 1));
    assert(w2 == shade_lane(vox, t, csub_qword, 2));
    assert(w3 == shade_lane(vox, t, csub_qword, 3));
    let color: u32 = scale_lane(w0, w3) + scale_lane(w1, w3) * 0x100 + scale_lane(w2, w3)
        * 0x1_0000 + scale_lane(w3, w3) * 0x100_0000;
    *tail = color;
    color
}

/// Which side of the ray an edge vector lies on: the cross product of the
/// high halves, with the screen position in the low half of `gy`.
pub open spec fn cross(cx: i32, cy: i32, depth: i32, gy: i32) -> int {
    arith::high16(cx) * arith::low16(gy as int) + arith::high16(cy) * arith::high16(depth)
}

/// The cross product, which is in range unless all four factors are the
/// lowest there are.
#[must_use]
pub fn grouscan_cross_sign(cx: i32, cy: i32, depth: i32, gy_raw: i32) -> (r: i32)
    requires
        cross(cx, cy, depth, gy_raw) <= i32::MAX,
    ensures
        r == cross(cx, cy, depth, gy_raw),
{
    proof {
        arith::lemma_low16(gy_raw);
        arith::lemma_shr16(depth);
        arith::lemma_shr16(cx);
        arith::lemma_shr16(cy);
    }
    let gy_s16: i32 = gy_raw as i16 as i32;
    let depth_s16: i32 = depth >> 16u32;
    let cx_s16: i32 = cx >> 16u32;
    let cy_s16: i32 = cy >> 16u32;
    assert(-0x4000_0000 <= cx_s16 * gy_s16 <= 0x4000_0000) by (nonlinear_arith)
        requires
            -0x8000 <= cx_s16 < 0x8000,
            -0x8000 <= gy_s16 < 0x8000,
    ;
    assert(-0x4000_0000 <= cy_s16 * depth_s16 <= 0x4000_0000) by (nonlinear_arith)
        requires
            -0x8000 <= cy_s16 < 0x8000,
            -0x8000 <= depth_s16 < 0x8000,
    ;
    cx_s16 * gy_s16 + cy_s16 * depth_s16
}

} // verus!
