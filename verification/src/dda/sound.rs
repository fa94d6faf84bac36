//! Whether a grid can be drawn: what has to be known of it before its
//! brick maps are built, and of a cell before its colour is read.
use crate::dda::brick;
use crate::dda::level;
use crate::dda::sampler;
use crate::dda::sampler::Sampler;
use crate::grid_view::{ChunkGrid, GridView, CHUNK_SIZE_Z};
use crate::slab;
use crate::slab::{is_linked_chain, is_sound_chain};
use vstd::prelude::*;

verus! {

fn runs_within(runs: &Vec<(i32, i32)>, depth: i32) -> (r: bool)
    ensures
        r == brick::runs_fit(runs@, depth as int),
{
    let mut k: usize = 0;
    while k < runs.len()
        invariant
            k <= runs@.len(),
            brick::runs_fit(runs@.take(k as int), depth as int),
        decreases runs@.len() - k,
    {
        let run: (i32, i32) = runs[k];
        if run.0 < 0 || run.1 < 0 || run.1 > depth {
            return false;
        }
        assert(runs@.take(k + 1) =~= runs@.take(k as int).push(runs@[k as int]));
        assert forall|j: int| 0 <= j < k + 1 implies 0 <= (#[trigger] runs@.take(k + 1)[j]).0 && 0
            <= runs@.take(k + 1)[j].1 <= depth by {
            if j < k {
                assert(runs@.take(k + 1)[j] == runs@.take(k as int)[j]);
            }
        }
        k += 1;
    }
    assert(runs@.take(k as int) =~= runs@);
    true
}

/// Number of cells along one axis at level `mip`, for `size` voxels.
fn level_side(size: u32, mip: u32) -> (r: u32)
    requires
        mip < 32,
    ensures
        r == sampler::cells_of(size, mip),
{
    let n: u32 = size >> mip;
    if n == 0 {
        1
    } else {
        n
    }
}

/// Whether the position of a column stays inside machine integers.
fn cell_is_fit(view: &GridView<'_>, x: u32, y: u32, mip: u32) -> (r: bool)
    ensures
        r == view.cell_fits(x as int, y as int, mip),
{
    if mip >= view.mip_count() {
        return true;
    }
    if mip >= 32 {
        return false;
    }
    let side: u32 = level_side(view.vsid, mip);
    if x >= side || y >= side {
        return true;
    }
    assert(0 <= y * side <= 0xffff_ffff * 0xffff_ffff) by (nonlinear_arith)
        requires
            0 <= y <= 0xffff_ffff,
            0 <= side <= 0xffff_ffff,
    ;
    let at: u64 = y as u64 * side as u64 + x as u64;
    assert(at == y * view.side(mip) + x);
    at <= u32::MAX as u64 && at as usize <= usize::MAX - view.mip_base_offsets[mip as usize]
}

/// Whether a column can be read with its colours.
#[must_use]
pub fn can_paint(view: &GridView<'_>, x: u32, y: u32, mip: u32) -> (r: bool)
    ensures
        r == view.paintable(x as int, y as int, mip),
{
    if mip >= 32 || !cell_is_fit(view, x, y, mip) {
        return false;
    }
    match view.column_slab_mip(x, y, mip) {
        Some(bytes) => {
            proof {
                if slab::lists_fit(bytes@, 0) {
                    slab::lemma_lists_link(bytes@, 0);
                }
            }
            is_sound_chain(bytes)
        },
        None => true,
    }
}

/// Whether a column can be read, and lies within the height of its chunk.
fn column_is_mappable(view: &GridView<'_>, x: u32, y: u32, mip: u32) -> (r: bool)
    requires
        mip < 32,
    ensures
        r == (view.readable(x as int, y as int, mip) && brick::runs_fit(
            view.runs(x as int, y as int, mip),
            brick::height_at(mip),
        )),
{
    if !cell_is_fit(view, x, y, mip) {
        return false;
    }
    if let Some(bytes) = view.column_slab_mip(x, y, mip) {
        if !is_linked_chain(bytes) {
            return false;
        }
    }
    let runs: Vec<(i32, i32)> = view.for_each_run_mip(x, y, mip);
    let depth: i32 = level_side(CHUNK_SIZE_Z, mip) as i32;
    runs_within(&runs, depth)
}

/// Whether bricks can be laid over a chunk at level `mip`.
#[must_use]
pub fn chunk_is_mappable(view: &GridView<'_>, mip: u32) -> (r: bool)
    ensures
        r == brick::brickable(*view, mip),
{
    if mip >= 32 {
        return false;
    }
    let side: u32 = level_side(view.vsid, mip);
    if side > i32::MAX as u32 - 8 {
        return false;
    }
    let nb: u64 = (side as u64 + 7) / 8;
    let nz: u64 = (level_side(CHUNK_SIZE_Z, mip) as u64 + 7) / 8;
    proof {
        assert(256u32 >> mip <= 256) by (bit_vector);
        assert(0 <= nb * nb <= 0x2000_0000 * 0x2000_0000) by (nonlinear_arith)
            requires
                0 <= nb <= 0x2000_0000,
        ;
        let sq = nb * nb;
        assert(0 <= sq * nz <= 0x400_0000_0000_0000 * 0x21) by (nonlinear_arith)
            requires
                0 <= sq <= 0x400_0000_0000_0000,
                0 <= nz <= 0x21,
        ;
    }
    if nb * nb * nz > i32::MAX as u64 {
        return false;
    }
    let mut y: u32 = 0;
    while y < side
        invariant
            mip < 32,
            side == view.side(mip),
            y <= side,
            forall|a: int, b: int|
                0 <= a < side && 0 <= b < y ==> {
                    &&& #[trigger] view.readable(a, b, mip)
                    &&& brick::runs_fit(view.runs(a, b, mip), brick::height_at(mip))
                },
        decreases side - y,
    {
        let mut x: u32 = 0;
        while x < side
            invariant
                mip < 32,
                side == view.side(mip),
                y < side,
                x <= side,
                forall|a: int, b: int|
                    0 <= a < side && 0 <= b < y || 0 <= a < x && b == y ==> {
                        &&& #[trigger] view.readable(a, b, mip)
                        &&& brick::runs_fit(view.runs(a, b, mip), brick::height_at(mip))
                    },
            decreases side - x,
        {
            if !column_is_mappable(view, x, y, mip) {
                proof {
                    if brick::brickable(*view, mip) {
                        assert(view.readable(x as int, y as int, mip));
                    }
                }
                return false;
            }
            x += 1;
        }
        y += 1;
    }
    true
}

/// Whether a chunk of the grid can be mapped: the one at `(dx, dy, dz)`
/// from the origin, where there is such a chunk.
fn one_is_mappable(
    grid: &GridView<'_>,
    cg: &ChunkGrid<'_>,
    mip: u32,
    dx: i32,
    dy: i32,
    dz: i32,
) -> (r: bool)
    requires
        grid.chunk_grid == Some(cg),
        cg.chunks_x * cg.chunks_y * cg.chunks_z <= i32::MAX,
        0 <= dx < cg.chunks_x,
        0 <= dy < cg.chunks_y,
        0 <= dz < cg.chunks_z,
    ensures
        r == fine_at(
            *grid,
            cg.origin_chunk_xy[0] + dx,
            cg.origin_chunk_xy[1] + dy,
            cg.origin_chunk_z + dz,
            mip,
        ),
{
    let ghost (x, y, z) = (
        cg.origin_chunk_xy[0] + dx,
        cg.origin_chunk_xy[1] + dy,
        cg.origin_chunk_z + dz,
    );
    proof {
        let (a, b, c) = (cg.chunks_x as int, cg.chunks_y as int, cg.chunks_z as int);
        assert(0 <= dz * b && dz * b + dy < c * b) by (nonlinear_arith)
            requires
                0 <= dz < c,
                0 <= dy < b,
        ;
        let r = dz * b + dy;
        assert(0 <= r * a && r * a + dx < (c * b) * a && r <= r * a) by (nonlinear_arith)
            requires
                0 <= r < c * b,
                0 <= dx < a,
        ;
        assert((c * b) * a == a * b * c) by (nonlinear_arith);
        assert(cg.holds(x, y, z));
        assert(cg.slot(x, y, z) == r * a + dx);
    }
    let slot: usize = (dz as usize * cg.chunks_y as usize + dy as usize) * cg.chunks_x as usize
        + dx as usize;
    if slot >= cg.chunks.len() {
        return true;
    }
    match &cg.chunks[slot] {
        Some(view) => {
            assert(grid.chunk(x, y, z) == Some(*view));
            let top: i64 = i32::MAX as i64;
            cg.origin_chunk_xy[0] as i64 + dx as i64 <= top && cg.origin_chunk_xy[1] as i64
                + dy as i64 <= top && cg.origin_chunk_z as i64 + dz as i64 <= top
                && chunk_is_mappable(view, mip)
        },
        None => true,
    }
}

/// Whether the chunk at an index, if any, can be mapped.
pub open spec fn fine_at(grid: GridView<'_>, x: int, y: int, z: int, mip: u32) -> bool {
    grid.chunk(x, y, z) is Some ==> {
        &&& x <= i32::MAX && y <= i32::MAX && z <= i32::MAX
        &&& brick::brickable(grid.chunk(x, y, z)->0, mip)
    }
}

/// Whether the chunks before the one at `(dx, dy, dz)` from the origin can
/// be mapped.
spec fn fine_up_to(
    grid: GridView<'_>,
    cg: ChunkGrid<'_>,
    mip: u32,
    dx: int,
    dy: int,
    dz: int,
) -> bool {
    forall|x: int, y: int, z: int|
        level::earlier(
            x - cg.origin_chunk_xy[0],
            y - cg.origin_chunk_xy[1],
            z - cg.origin_chunk_z,
            dx,
            dy,
            dz,
        ) ==> #[trigger] fine_at(grid, x, y, z, mip)
}

/// Whether the chunks of a box can be counted.
fn is_countable(cg: &ChunkGrid<'_>) -> (r: bool)
    ensures
        r == (cg.chunks_x * cg.chunks_y * cg.chunks_z <= i32::MAX && cg.chunks_x <= i32::MAX
            && cg.chunks_y <= i32::MAX && cg.chunks_z <= i32::MAX),
{
    let top: u32 = i32::MAX as u32;
    let (x, y, z) = (cg.chunks_x as u128, cg.chunks_y as u128, cg.chunks_z as u128);
    assert(x * y <= 0xffff_ffff * 0xffff_ffff) by (nonlinear_arith)
        requires
            x <= 0xffff_ffff,
            y <= 0xffff_ffff,
    ;
    let layer: u128 = x * y;
    assert(layer * z <= 0xffff_ffff_ffff_ffff * 0xffff_ffff) by (nonlinear_arith)
        requires
            layer <= 0xffff_ffff_ffff_ffff,
            z <= 0xffff_ffff,
    ;
    cg.chunks_x <= top && cg.chunks_y <= top && cg.chunks_z <= top && layer * z <= i32::MAX as u128
}

/// Whether every chunk of a countable box can be mapped.
fn chunks_are_mappable(grid: &GridView<'_>, cg: &ChunkGrid<'_>, mip: u32) -> (r: bool)
    requires
        grid.chunk_grid == Some(cg),
        cg.chunks_x * cg.chunks_y * cg.chunks_z <= i32::MAX,
        cg.chunks_x <= i32::MAX,
        cg.chunks_y <= i32::MAX,
        cg.chunks_z <= i32::MAX,
    ensures
        r == forall|x: int, y: int, z: int| #[trigger] fine_at(*grid, x, y, z, mip),
{
    let mut dz: i32 = 0;
    while dz < cg.chunks_z as i32
        invariant
            grid.chunk_grid == Some(cg),
            cg.chunks_x * cg.chunks_y * cg.chunks_z <= i32::MAX,
            cg.chunks_x <= i32::MAX,
            cg.chunks_y <= i32::MAX,
            cg.chunks_z <= i32::MAX,
            0 <= dz <= cg.chunks_z,
            fine_up_to(*grid, *cg, mip, 0, 0, dz as int),
        decreases cg.chunks_z - dz,
    {
        let mut dy: i32 = 0;
        while dy < cg.chunks_y as i32
            invariant
                grid.chunk_grid == Some(cg),
                cg.chunks_x * cg.chunks_y * cg.chunks_z <= i32::MAX,
                cg.chunks_x <= i32::MAX,
                cg.chunks_y <= i32::MAX,
                0 <= dz < cg.chunks_z,
                0 <= dy <= cg.chunks_y,
                fine_up_to(*grid, *cg, mip, 0, dy as int, dz as int),
            decreases cg.chunks_y - dy,
        {
            let mut dx: i32 = 0;
            while dx < cg.chunks_x as i32
                invariant
                    grid.chunk_grid == Some(cg),
                    cg.chunks_x * cg.chunks_y * cg.chunks_z <= i32::MAX,
                    cg.chunks_x <= i32::MAX,
                    0 <= dz < cg.chunks_z,
                    0 <= dy < cg.chunks_y,
                    0 <= dx <= cg.chunks_x,
                    fine_up_to(*grid, *cg, mip, dx as int, dy as int, dz as int),
                decreases cg.chunks_x - dx,
            {
                if !one_is_mappable(grid, cg, mip, dx, dy, dz) {
                    return false;
                }
                dx += 1;
            }
            dy += 1;
        }
        dz += 1;
    }
    assert forall|x: int, y: int, z: int| #[trigger] fine_at(*grid, x, y, z, mip) by {
        if cg.holds(x, y, z) {
            assert(level::earlier(
                x - cg.origin_chunk_xy[0],
                y - cg.origin_chunk_xy[1],
                z - cg.origin_chunk_z,
                0,
                0,
                dz as int,
            ));
        }
    }
    true
}

/// Whether every chunk of the grid can be mapped at level `mip`.
#[must_use]
pub fn grid_is_mappable(grid: &GridView<'_>, mip: u32) -> (r: bool)
    ensures
        r == level::mappable(*grid, mip),
{
    match grid.chunk_grid {
        Some(cg) => {
            if !is_countable(cg) {
                return false;
            }
            let r: bool = chunks_are_mappable(grid, cg, mip);
            proof {
                if r {
                    assert forall|x: int, y: int, z: int| #[trigger]
                        grid.chunk(x, y, z) is Some implies x <= i32::MAX && y <= i32::MAX && z
                        <= i32::MAX && brick::brickable(grid.chunk(x, y, z)->0, mip) by {
                        assert(fine_at(*grid, x, y, z, mip));
                    }
                } else {
                    let (x, y, z) = choose|x: int, y: int, z: int|
                        !#[trigger] fine_at(*grid, x, y, z, mip);
                    assert(grid.chunk(x, y, z) is Some);
                }
            }
            r
        },
        None => chunk_is_mappable(grid, mip),
    }
}

/// Whether a number is a power of two that a signed number can hold.
fn is_power_of_two(n: u32) -> (r: bool)
    ensures
        r == sampler::is_power(n),
{
    if n == 0 || n > 0x4000_0000 {
        proof {
            assert forall|k: u32| k <= 30 implies n != #[trigger] (1u32 << k) by {
                assert(0 < 1u32 << k <= 0x4000_0000) by (bit_vector)
                    requires
                        k <= 30,
                ;
            }
        }
        return false;
    }
    let t: u32 = n.trailing_zeros();
    proof {
        vstd::std_specs::bits::axiom_u32_trailing_zeros(n);
        assert(t <= 30 && (n == 1u32 << t || forall|k: u32| k <= 30 ==> n != #[trigger] (1u32 << k)))
            by (bit_vector)
            requires
                0 < n <= 0x4000_0000,
                t < 32,
                (n >> t) & 1u32 == 1u32,
        ;
    }
    n == 1u32 << t
}

/// Whether cells of the grid can be looked up at level `mip`: the side of
/// its chunks is a power of two there.
#[must_use]
pub fn can_sample(grid: &GridView<'_>, mip: u32) -> (r: bool)
    ensures
        r == (mip < 32 && sampler::is_power(sampler::cells_of(grid.chunk_size_xy, mip))),
{
    mip < 32 && is_power_of_two(level_side(grid.chunk_size_xy, mip))
}

/// Whether the colour of a cell can be read.
#[must_use]
pub fn can_hit(s: &Sampler<'_>, c: [i32; 3]) -> (r: bool)
    requires
        s.well_formed(),
    ensures
        r == s.readable(c[0] as int, c[1] as int, c[2] as int),
{
    let (ch, loc): ([i32; 3], [u32; 3]) = s.locate(c);
    if !s.grid.can_index(ch) {
        return false;
    }
    let marked: bool = s.is_marked(c);
    if !marked {
        return true;
    }
    match s.grid.chunk_at_xyz(ch) {
        Some(v) => can_paint(&v, loc[0], loc[1], s.mip),
        None => true,
    }
}

} // verus!
