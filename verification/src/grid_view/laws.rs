//! How the columns and the chunks of a grid are laid out, and what colour
//! a voxel shows.
use crate::color;
use crate::grid_view;
use crate::grid_view::{ChunkGrid, GridView};
use crate::vxl::VoxColor;
use vstd::arithmetic::power2;
use vstd::prelude::*;

verus! {

/// The columns of a level come row by row from the start of the level:
/// the next column along x is the next one, and the one beside it along y
/// is a side on.
pub proof fn lemma_cells_in_rows(grid: GridView, x: int, y: int, mip: u32)
    ensures
        grid.cell_index(0, 0, mip) == grid.mip_base_offsets@[mip as int],
        grid.cell_index(x + 1, y, mip) == grid.cell_index(x, y, mip) + 1,
        grid.cell_index(x, y + 1, mip) == grid.cell_index(x, y, mip) + grid.side(mip),
{
    let side = grid.side(mip);
    assert((y + 1) * side == y * side + side && 0 * side == 0) by (nonlinear_arith);
}

proof fn lemma_shifts_halve(v: u32, mip: u32)
    requires
        mip < 31,
    ensures
        v >> 0u32 == v,
        v >> ((mip + 1) as u32) == (v >> mip) / 2,
{
    vstd::bits::lemma_u32_shr_is_div(v, 0);
    vstd::bits::lemma_u32_shr_is_div(v, mip);
    vstd::bits::lemma_u32_shr_is_div(v, (mip + 1) as u32);
    power2::lemma2_to64();
    power2::lemma_pow2_unfold((mip + 1) as nat);
    power2::lemma_pow2_pos(mip as nat);
    vstd::arithmetic::div_mod::lemma_div_denominator(v as int, power2::pow2(mip as nat) as int, 2);
}

/// Each level has half the side and half the height of the one before it,
/// but a side of at least one column; the first has those of the chunk.
pub proof fn lemma_levels_halve(grid: GridView, mip: u32)
    requires
        mip < 31,
    ensures
        grid.vsid > 0 ==> grid.side(0) == grid.vsid,
        grid.side(mip) >= 2 ==> grid.side((mip + 1) as u32) == grid.side(mip) / 2,
        grid.side(mip) == 1 ==> grid.side((mip + 1) as u32) == 1,
        grid.side(mip) >= 1,
        grid_view::depth_at(0) == 256,
        grid_view::depth_at((mip + 1) as u32) == grid_view::depth_at(mip) / 2,
{
    lemma_shifts_halve(grid.vsid, mip);
    lemma_shifts_halve(256, mip);
    vstd::bits::lemma_u32_shr_is_div(256, mip);
    power2::lemma_pow2_pos(mip as nat);
    vstd::arithmetic::div_mod::lemma_div_is_ordered_by_denominator(
        256,
        1,
        power2::pow2(mip as nat) as int,
    );
}

/// The chunks of a grid come along x, then along y, then along z, from
/// the chunk at the origin on.
pub proof fn lemma_chunks_in_order(cg: ChunkGrid, x: int, y: int, z: int)
    ensures
        cg.slot(
            cg.origin_chunk_xy[0] as int,
            cg.origin_chunk_xy[1] as int,
            cg.origin_chunk_z as int,
        ) == 0,
        cg.slot(x + 1, y, z) == cg.slot(x, y, z) + 1,
        cg.slot(x, y + 1, z) == cg.slot(x, y, z) + cg.chunks_x,
        cg.slot(x, y, z + 1) == cg.slot(x, y, z) + cg.chunks_x * cg.chunks_y,
{
    let (w, h) = (cg.chunks_x as int, cg.chunks_y as int);
    let (b, c) = (y - cg.origin_chunk_xy[1], z - cg.origin_chunk_z);
    assert((c * h + b + 1) * w == (c * h + b) * w + w) by (nonlinear_arith);
    assert(((c + 1) * h + b) * w == (c * h + b) * w + w * h) by (nonlinear_arith);
    assert(0 * h == 0 && 0 * w == 0) by (nonlinear_arith);
}

/// A grid hands out chunk `(x, y, z)` for the indices inside its box and
/// none outside it; a view without a grid is its own only chunk, in every
/// layer.
pub proof fn lemma_chunks_inside_box(grid: GridView, x: int, y: int, z: int)
    ensures
        grid.chunk_grid is None && x == 0 && y == 0 ==> grid.chunk(x, y, z) == Some(grid),
        grid.chunk_grid is None && !(x == 0 && y == 0) ==> grid.chunk(x, y, z) is None,
        grid.chunk_grid matches Some(cg) ==> {
            &&& x < cg.origin_chunk_xy[0] || x >= cg.origin_chunk_xy[0] + cg.chunks_x || y
                < cg.origin_chunk_xy[1] || y >= cg.origin_chunk_xy[1] + cg.chunks_y || z
                < cg.origin_chunk_z || z >= cg.origin_chunk_z + cg.chunks_z ==> grid.chunk(
                x,
                y,
                z,
            ) is None
            &&& cg.chunks_x > 0 && cg.chunks_y > 0 && cg.chunks_z > 0 && cg.chunks@.len() > 0
                ==> grid.chunk(
                cg.origin_chunk_xy[0] as int,
                cg.origin_chunk_xy[1] as int,
                cg.origin_chunk_z as int,
            ) == cg.chunks@[0]
        },
{
    if grid.chunk_grid is Some {
        lemma_chunks_in_order(*grid.chunk_grid->0, x, y, z);
    }
}

/// Whether a stored colour has any red, green or blue.
pub open spec fn tinted(c: u32) -> bool {
    color::byte_of(c, 0) + color::byte_of(c, 1) + color::byte_of(c, 2) > 0
}

proof fn lemma_tinted(c: u32)
    ensures
        tinted(c) <==> c & 0x00ff_ffff != 0,
{
    vstd::bits::lemma_u32_low_bits_mask_is_mod(c, 24);
    vstd::bits::lemma_low_bits_mask_values();
    power2::lemma2_to64();
    assert(c & 0x00ff_ffff == c % 0x100_0000);
    assert(c % 0x100_0000 == color::byte_of(c, 0) + 0x100 * color::byte_of(c, 1) + 0x1_0000
        * color::byte_of(c, 2));
}

/// Air shows nothing. A solid voxel shows the colour that is stored for
/// it, and nothing where that has no red, green or blue. One with no
/// stored colour shows that of the top of its run, or else the fallback.
pub proof fn lemma_voxel_shows(
    grid: GridView,
    x: int,
    y: int,
    z: int,
    mip: u32,
    fallback: VoxColor,
)
    ensures
        ({
            let shown = grid.shown_colour(x, y, z, mip, fallback);
            match grid.solid_top(x, y, z, mip) {
                None => shown is None,
                Some(top) => {
                    &&& grid.colour(x, y, z, mip) matches Some(c) ==> (tinted(c) ==> shown == Some(
                        VoxColor(c),
                    )) && (!tinted(c) ==> shown is None)
                    &&& grid.colour(x, y, z, mip) is None && top >= 0 ==> match grid.colour(
                        x,
                        y,
                        top as int,
                        mip,
                    ) {
                        Some(c) => if tinted(c) {
                            shown == Some(VoxColor(c))
                        } else {
                            shown == Some(fallback)
                        },
                        None => shown == Some(fallback),
                    }
                },
            }
        }),
{
    if grid.colour(x, y, z, mip) is Some {
        lemma_tinted(grid.colour(x, y, z, mip)->0);
    }
    match grid.solid_top(x, y, z, mip) {
        None => {},
        Some(top) => {
            if grid.colour(x, y, top as int, mip) is Some {
                lemma_tinted(grid.colour(x, y, top as int, mip)->0);
            }
        },
    }
}

/// A voxel below the last of a level is neither solid nor coloured, and
/// so is every voxel of a column past the side of the level.
pub proof fn lemma_nothing_outside(grid: GridView, x: int, y: int, z: int, mip: u32)
    requires
        z >= grid_view::depth_at(mip) || x >= grid.side(mip) || y >= grid.side(mip) || mip
            >= grid.mip_base_offsets@.len() - 1,
        grid.mip_base_offsets@.len() <= u32::MAX,
    ensures
        grid.solid_top(x, y, z, mip) is None,
        grid.colour(x, y, z, mip) is None,
{
}

/// The box of a grid has one chunk side for each chunk along x and y, and
/// 256 voxels for each layer, from the first chunk on.
pub proof fn lemma_box_spans_chunks(grid: GridView)
    requires
        grid.chunk_size_xy <= i32::MAX,
        grid.chunk_grid matches Some(cg) ==> cg.chunks_x <= i32::MAX && cg.chunks_y <= i32::MAX
            && cg.chunks_z <= i32::MAX,
    ensures
        grid.chunk_grid matches Some(cg) ==> {
            let side = grid.chunk_size_xy as int;
            &&& grid.low_corner(0) == cg.origin_chunk_xy[0] * side
            &&& grid.low_corner(1) == cg.origin_chunk_xy[1] * side
            &&& grid.low_corner(2) == cg.origin_chunk_z * 256
            &&& grid.high_corner(0) - grid.low_corner(0) == cg.chunks_x * side
            &&& grid.high_corner(1) - grid.low_corner(1) == cg.chunks_y * side
            &&& grid.high_corner(2) - grid.low_corner(2) == cg.chunks_z * 256
        },
        grid.chunk_grid is None && grid.vsid <= i32::MAX ==> grid.low_corner(0) == 0
            && grid.low_corner(1) == 0 && grid.low_corner(2) == 0 && grid.high_corner(0)
            == grid.vsid && grid.high_corner(1) == grid.vsid && grid.high_corner(2) == 256,
{
}

/// The first chunk that is there has none before it, and there is none
/// only where no chunk is there.
pub proof fn lemma_first_populated(chunks: Seq<Option<GridView<'_>>>, i: int) -> (at: int)
    requires
        0 <= i,
    ensures
        match grid_view::first_populated(chunks, i) {
            Some(c) => {
                &&& i <= at < chunks.len()
                &&& chunks[at] == Some(c)
                &&& forall|j: int| i <= j < at ==> (#[trigger] chunks[j]) is None
            },
            None => forall|j: int| i <= j < chunks.len() ==> (#[trigger] chunks[j]) is None,
        },
    decreases chunks.len() - i,
{
    if i >= chunks.len() || chunks[i] is Some {
        i
    } else {
        lemma_first_populated(chunks, i + 1)
    }
}

/// Looking a chunk up by its column takes the grid's first layer, and the
/// only one of a view without a grid.
pub proof fn lemma_first_layer(grid: GridView, x: int, y: int)
    ensures
        grid.chunk_grid matches Some(cg) ==> grid.chunk(x, y, grid.origin_layer()) == grid.chunk(
            x,
            y,
            cg.origin_chunk_z as int,
        ) && grid.origin_layer() == cg.origin_chunk_z,
        grid.chunk_grid is None ==> grid.origin_layer() == 0,
{
}

} // verus!
