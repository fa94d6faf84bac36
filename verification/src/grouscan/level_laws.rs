//! Laws of the levels of a scan: how a ray goes over to a coarser level,
//! how its segments narrow, and how it goes from layer to layer.
use crate::arith;
use crate::cf_narrow;
use crate::grid_view::GridView;
use crate::grouscan;
use crate::grouscan::columns;
use crate::grouscan::fill;
use crate::grouscan::fill_laws;
use crate::grouscan::mip;
use crate::grouscan::run;
use crate::grouscan::stack;
use crate::grouscan::step;
use crate::grouscan::walk_laws;
use crate::grouscan::walls;
use crate::grouscan::{CfType, GrouscanInputs, Phase, Ray, CF_SEED_INDEX};
use crate::rasterizer::ScanScratch;
use crate::slab;
use vstd::arithmetic::power2;
use vstd::prelude::*;

verus! {

/// A segment gives up as many slots at its right edge as lie past the ray
/// one after the other, but keeps one; the edge moves back with them and
/// nothing else changes. A segment whose bottom is not on the screen
/// table stays.
pub proof fn lemma_segment_gives_up_slots(
    e: CfType,
    gi0: i32,
    gi1: i32,
    gylookup: Seq<i32>,
    ogx: i32,
)
    ensures
        ({
            let f = cf_narrow::narrow_once(e, gi0, gi1, gylookup, ogx);
            let k = e.i1 - f.i1;
            &&& f.cx1 == arith::wrap32(e.cx1 + k * -gi0)
            &&& f.cy1 == arith::wrap32(e.cy1 + k * -gi1)
            &&& f == (CfType { i1: f.i1, cx1: f.cx1, cy1: f.cy1, ..e })
            &&& e.i1 <= e.i0 || e.z1 < 0 || e.z1 >= gylookup.len() ==> f == e
            &&& e.i0 < e.i1 && 0 <= e.z1 < gylookup.len() ==> fill_laws::draws(
                e.cx1,
                e.cy1,
                -gi0,
                -gi1,
                ogx,
                gylookup[e.z1 as int],
                false,
                e.i1 - e.i0,
                k,
            )
        }),
    decreases arith::max_int(e.i1 - e.i0, 0),
{
    let (x, y) = (-gi0, -gi1);
    let f = cf_narrow::narrow_once(e, gi0, gi1, gylookup, ogx);
    let gy = gylookup[e.z1 as int];
    assert(0 * x == 0 && 0 * y == 0) by (nonlinear_arith);
    assert(fill_laws::cross_at(e.cx1, e.cy1, x, y, ogx, gy, 0) == grouscan::cross(
        e.cx1,
        e.cy1,
        ogx,
        gy,
    ));
    if cf_narrow::gives_up(e, gylookup, ogx) {
        let d = cf_narrow::one_less(e, gi0, gi1);
        lemma_segment_gives_up_slots(d, gi0, gi1, gylookup, ogx);
        let k = e.i1 - f.i1;
        assert((k - 1) * x == k * x - x && (k - 1) * y == k * y - y) by (nonlinear_arith);
        arith::lemma_wrap_twice(e.cx1 + x, (k - 1) * x);
        arith::lemma_wrap_twice(e.cy1 + y, (k - 1) * y);
        assert forall|j: int| #[trigger]
            fill_laws::cross_at(e.cx1, e.cy1, x, y, ogx, gy, j) == fill_laws::cross_at(
                d.cx1,
                d.cy1,
                x,
                y,
                ogx,
                gy,
                j - 1,
            ) by {
            assert((j - 1) * x == j * x - x && (j - 1) * y == j * y - y) by (nonlinear_arith);
            arith::lemma_wrap_twice(e.cx1 + x, (j - 1) * x);
            arith::lemma_wrap_twice(e.cy1 + y, (j - 1) * y);
        }
    }
}

/// A coarse column stands for twice as many finer ones at each level, up
/// to the most that are stepped through.
pub proof fn lemma_virtual_steps_double(old_mip: u32)
    requires
        old_mip < 30,
    ensures
        cf_narrow::virtual_steps(0) == 0,
        ({
            let (v, w) = (
                cf_narrow::virtual_steps(old_mip) as int,
                cf_narrow::virtual_steps((old_mip + 1) as u32) as int,
            );
            let most = cf_narrow::MAX_VIRTUAL_STEPS as int;
            &&& w <= most
            &&& 2 * v + 1 <= most ==> w == 2 * v + 1
            &&& 2 * v + 1 > most ==> w == most
        }),
{
    let next = (old_mip + 1) as u32;
    power2::lemma2_to64();
    power2::lemma_pow2_strictly_increases(old_mip as nat, 31);
    power2::lemma_pow2_strictly_increases(next as nat, 31);
    power2::lemma_pow2_unfold(next as nat);
    vstd::bits::lemma_u32_shl_is_mul(1u32, old_mip);
    vstd::bits::lemma_u32_shl_is_mul(1u32, next);
    power2::lemma_pow2_pos(old_mip as nat);
}

/// Half a distance, rounded down.
pub proof fn lemma_halves(gdz: Seq<i32>)
    ensures
        cf_narrow::halves(gdz).len() == 2,
        forall|i: int|
            0 <= i < 2 ==> 2 * #[trigger] cf_narrow::halves(gdz)[i] <= gdz[i] <= 2
                * cf_narrow::halves(gdz)[i] + 1,
{
    arith::lemma_shr1(gdz[0]);
    arith::lemma_shr1(gdz[1]);
}

/// At a coarser level a ray is in the column that the finer one is a
/// quarter of.
pub proof fn lemma_coarser_column_holds_finer(r: Ray, x: int, y: int)
    requires
        mip::old_side(r) > 0,
        0 <= x < mip::old_side(r),
        0 <= y,
        r.ixy_sptr_col_idx == r.mip_base_offsets[r.gmipcnt as int] + y * mip::old_side(r) + x,
    ensures
        mip::coarsened(r).ixy_sptr_col_idx == r.mip_base_offsets[r.gmipcnt + 1] + (y / 2) * (
        mip::old_side(r) as int / 2) + x / 2,
        mip::coarsened(r).gmipcnt == (r.gmipcnt + 1) as i32,
        mip::coarsened(r).cx_mip == r.cx_mip as int / 2,
        mip::coarsened(r).cy_mip == r.cy_mip as int / 2,
{
    let side = mip::old_side(r) as int;
    vstd::arithmetic::div_mod::lemma_fundamental_div_mod_converse(y * side + x, side, y, x);
    arith::lemma_shr1(r.cx_mip);
    arith::lemma_shr1(r.cy_mip);
}

/// At a coarser level the grid lines are twice as far apart. The next one
/// stays where it bounds the coarser column as well, and is passed over
/// where it runs through it: before the second of the two columns that
/// the ray meets. Where the distance cannot be doubled the line is out
/// of reach.
pub proof fn lemma_coarser_lines(r: Ray, x: int, y: int)
    requires
        mip::old_side(r) > 0,
        mip::old_side(r) % 2 == 0,
        0 <= x < mip::old_side(r),
        0 <= y,
        r.ixy_sptr_col_idx == r.mip_base_offsets[r.gmipcnt as int] + y * mip::old_side(r) + x,
        r.gpz.len() == 2,
        r.gdz.len() == 2,
        r.gixy.len() == 2,
        0 <= r.gpz[0] < 0x4000_0000,
        0 <= r.gpz[1] < 0x4000_0000,
    ensures
        ({
            let f = mip::coarsened(r);
            let small = |g: i32| -0x4000_0000 <= g < 0x4000_0000;
            let twin_x = if r.gixy[0] >= 0 {
                x % 2 == 0
            } else {
                x % 2 == 1
            };
            let twin_y = if r.gixy[1] >= 0 {
                y % 2 == 0
            } else {
                y % 2 == 1
            };
            &&& small(r.gdz[0]) ==> f.gdz[0] == 2 * r.gdz[0]
            &&& small(r.gdz[1]) ==> f.gdz[1] == 2 * r.gdz[1]
            &&& small(r.gdz[0]) && twin_x ==> f.gpz[0] == r.gpz[0] + r.gdz[0]
            &&& small(r.gdz[0]) && !twin_x ==> f.gpz[0] == r.gpz[0]
            &&& small(r.gdz[1]) && twin_y ==> f.gpz[1] == r.gpz[1] + r.gdz[1]
            &&& small(r.gdz[1]) && !twin_y ==> f.gpz[1] == r.gpz[1]
            &&& !small(r.gdz[0]) ==> f.gdz[0] == 0 && f.gpz[0] == i32::MAX
            &&& !small(r.gdz[1]) ==> f.gdz[1] == 0 && f.gpz[1] == i32::MAX
            &&& f.gixy[0] == r.gixy[0]
            &&& f.gixy[1] == r.gixy[1] as int / 2
        }),
{
    let side = mip::old_side(r) as int;
    let half = side / 2;
    vstd::arithmetic::div_mod::lemma_fundamental_div_mod_converse(y * side + x, side, y, x);
    assert(y * side == 2 * (y * half)) by (nonlinear_arith)
        requires
            side == 2 * half,
    ;
    assert((y * side + x) % 2 == x % 2);
    arith::lemma_shr1(r.gixy[1]);
}

/// At a coarser level an open segment holds the voxels that its old ones
/// are halves of: its top is half the old one, rounded up the screen, and
/// its bottom half the old one, rounded down the screen. The other
/// segments stay.
pub proof fn lemma_coarser_heights(r: Ray, p: int)
    requires
        r.cf.len() == 256,
        0 <= p < 256,
        0 <= r.c_presync_idx,
        r.c_presync_idx != p,
        0 <= r.cf[p].z0,
        0 <= r.cf[p].z1 < i32::MAX,
    ensures
        ({
            let f = mip::coarsened(r).cf[p];
            let e = r.cf[p];
            &&& f == (CfType { z0: f.z0, z1: f.z1, ..e })
            &&& CF_SEED_INDEX <= p <= r.ce_idx ==> 2 * f.z0 <= e.z0 <= 2 * f.z0 + 1 && 2 * f.z1 - 1
                <= e.z1 <= 2 * f.z1
            &&& !(CF_SEED_INDEX <= p <= r.ce_idx) ==> f == e
        }),
{
    vstd::bits::lemma_u32_shr_is_div(r.cf[p].z0 as u32, 1);
    vstd::bits::lemma_u32_shr_is_div((r.cf[p].z1 + 1) as u32, 1);
    power2::lemma2_to64();
}

/// The screen table of the coarser level is what follows the rows of the
/// current one: two for each voxel of a column, and four more.
pub proof fn lemma_coarser_table(r: Ray, i: int)
    requires
        0 <= r.gmipcnt < 8,
        mip::layers(r) * 512 <= u32::MAX,
        ({
            let rows = mip::layers(r) * 512 / power2::pow2(r.gmipcnt as nat) as int + 4;
            0 <= i && rows + i < r.gylookup.len()
        }),
    ensures
        ({
            let rows = mip::layers(r) * 512 / power2::pow2(r.gmipcnt as nat) as int + 4;
            &&& mip::coarsened(r).gylookup[i] == r.gylookup[rows + i]
            &&& mip::coarsened(r).gylookup.len() == r.gylookup.len() - rows
        }),
        r.grid_view.chunk_grid is None ==> mip::layers(r) == 1,
        r.grid_view.chunk_grid matches Some(cg) ==> mip::layers(r) == cg.chunks_z,
{
    let n = (mip::layers(r) * 512) as u32;
    vstd::bits::lemma_u32_shr_is_div(n, r.gmipcnt as u32);
}

/// Each level is scanned twice as deep as the one before it, but no
/// deeper than the whole scan; the scan ends where there is no further
/// level, or where the last one went to the end.
pub proof fn lemma_levels_double_depth(r: Ray)
    requires
        0 <= r.ngxmax,
        0 <= r.gxmax,
        0 <= r.gmipcnt < i32::MAX,
    ensures
        ({
            let (f, phase) = mip::remip(r);
            &&& phase == Phase::Startsky <==> r.gmipcnt + 1 >= r.gmipnum || r.ngxmax >= r.gxmax
            &&& phase != Phase::Startsky ==> phase == Phase::SyncFromPresync
            &&& phase != Phase::Startsky ==> f.ngxmax <= r.gxmax && f.ngxmax <= 2 * r.ngxmax && (
            f.ngxmax == r.gxmax || f.ngxmax == 2 * r.ngxmax)
            &&& phase != Phase::Startsky ==> f.gmipcnt == r.gmipcnt + 1
            &&& phase != Phase::Startsky ==> f.c_idx == r.ce_idx && f.ce_idx == r.ce_idx
        }),
{
}

/// At a new column of a coarse level the top segment gives up at most one
/// slot at each end, where that is switched on: at the right where the
/// edge is past the ray at the column's depth, at the left where it is
/// not. Its edges move with the slots, and where the slots are kept only
/// the edges do.
pub proof fn lemma_column_narrows_by_one(r: Ray)
    requires
        0 <= r.ce_idx < r.cf.len(),
    ensures
        ({
            let e = r.cf[r.ce_idx];
            let f = step::column_narrowed(r).cf[r.ce_idx];
            let on = r.gmipcnt > 0 && r.narrowing.per_column;
            let right = on && 0 <= e.z1 < r.gylookup.len() && e.i0 < e.i1 && grouscan::cross(
                e.cx1,
                e.cy1,
                r.gx,
                r.gylookup[e.z1 as int],
            ) > 0;
            let left = on && 0 <= e.z0 < r.gylookup.len() && e.i0 < (if right
                && !r.narrowing.keep_slots {
                e.i1 - 1
            } else {
                e.i1 as int
            }) && grouscan::cross(e.cx0, e.cy0, r.gx, r.gylookup[e.z0 as int]) <= 0;
            &&& right ==> f.cx1 == arith::wrap32(e.cx1 - r.gi0) && f.cy1 == arith::wrap32(
                e.cy1 - r.gi1,
            )
            &&& !right ==> f.cx1 == e.cx1 && f.cy1 == e.cy1 && f.i1 == e.i1
            &&& left ==> f.cx0 == arith::wrap32(e.cx0 + r.gi0) && f.cy0 == arith::wrap32(
                e.cy0 + r.gi1,
            )
            &&& !left ==> f.cx0 == e.cx0 && f.cy0 == e.cy0 && f.i0 == e.i0
            &&& right && !r.narrowing.keep_slots ==> f.i1 == e.i1 - 1
            &&& left && !r.narrowing.keep_slots ==> f.i0 == e.i0 + 1
            &&& r.narrowing.keep_slots ==> f.i0 == e.i0 && f.i1 == e.i1
            &&& f.z0 == e.z0 && f.z1 == e.z1
        }),
{
}

/// With segments left on the stack the scan goes on in the one below;
/// past the seed it goes to the next column, and over to the next level
/// where that lies beyond the depth of the current one.
pub proof fn lemma_after_a_segment(r: Ray)
    requires
        r.c_idx > 0,
    ensures
        ({
            let (f, phase) = step::after_delete_kept(r);
            let s = step::next_column(r);
            &&& r.c_idx > CF_SEED_INDEX ==> phase == Phase::SkipixyWithPresync && f == (Ray {
                c_idx: r.c_idx - 1,
                ..r
            })
            &&& r.c_idx <= CF_SEED_INDEX && 0 <= s.gpz[s.lane] && 0 <= s.ngxmax ==> (phase
                == Phase::Remiporend <==> s.gpz[s.lane] > s.ngxmax)
            &&& r.c_idx <= CF_SEED_INDEX && phase != Phase::Remiporend ==> f.c_idx == f.ce_idx
                && (phase == Phase::Skipixy3 <==> f.c_presync_idx == f.c_idx) && (phase
                == Phase::SyncFromPresync <==> f.c_presync_idx != f.c_idx)
        }),
{
}

/// A ray that goes through the open bottom of its chunk is at the top of
/// the column of the chunk below, one layer down; without such a chunk it
/// goes nowhere.
pub proof fn lemma_layer_below(r: Ray)
    requires
        fill::airy_bedrock(r),
        r.gmipcnt == 0,
        columns::handoff_fits(r),
    ensures
        ({
            let (f, phase) = fill::draw_flor(r);
            match columns::chunk_below(r) {
                Some(c) => {
                    &&& phase == Phase::Skipixy3
                    &&& f.current_chunk_z == r.current_chunk_z + 1
                    &&& f.chunk_world_z_base == r.chunk_world_z_base + (r.chunk_size_z as i32)
                    &&& f.vptr_offset == 0
                    &&& f.slab_buf == c.slab_buf@
                    &&& f.column_offsets == c.column_offsets@
                    &&& f.radar == r.radar && f.cf == r.cf
                    &&& f.ixy_sptr_col_idx < f.column_offsets.len()
                        && f.column_offsets[f.ixy_sptr_col_idx] <= f.slab_buf.len() ==> f.column
                        == slab::chain_bytes(
                        f.slab_buf,
                        f.column_offsets[f.ixy_sptr_col_idx] as int,
                    )
                },
                None => phase == Phase::AfterDelete && f == r,
            }
        }),
        columns::chunk_below(r) matches Some(c) ==> r.grid_view.chunk(
            r.current_chunk_idx_xy[0] as int,
            r.current_chunk_idx_xy[1] as int,
            r.current_chunk_z + 1,
        ) == Some(c),
        r.grid_view.chunk_grid is None ==> columns::chunk_below(r) is None,
{
}

/// The heights of a slab are its header's bytes, raised by the height of
/// the layer at the current level.
pub proof fn lemma_heights_of_slab(r: Ray)
    requires
        0 <= r.vptr_offset,
        r.vptr_offset + 4 <= r.column.len(),
        0 <= r.gmipcnt < 8,
    ensures
        ({
            let step = power2::pow2(r.gmipcnt as nat) as int;
            let top = walls::floor_top(r) - r.column[r.vptr_offset + 1];
            let end = walls::ceiling_z(r) - r.column[r.vptr_offset + 3];
            &&& top == end
            &&& step * top <= r.chunk_world_z_base < step * top + step
        }),
{
    let step = power2::pow2(r.gmipcnt as nat) as int;
    power2::lemma_pow2_pos(r.gmipcnt as nat);
    arith::lemma_shr(r.chunk_world_z_base, r.gmipcnt as u32);
    vstd::arithmetic::div_mod::lemma_fundamental_div_mod(r.chunk_world_z_base as int, step);
}

/// After the wall above, the view ends at the top of the slab's floor and
/// starts at its ceiling, if the slab is not the first. A first slab has
/// no wall above.
pub proof fn lemma_view_after_walls(r: Ray)
    requires
        0 <= r.vptr_offset,
        r.vptr_offset + 4 <= r.column.len(),
        columns::level_ok(r),
    ensures
        ({
            let (f, phase) = walls::draw_cwall(r);
            &&& r.vptr_offset == 0 ==> phase == Phase::PreDrawFlor && f.z1 == walls::floor_top(r)
                && f.radar == r.radar
            &&& r.vptr_offset > 0 && walls::ceiling_z(r) <= r.z0 ==> phase == Phase::PreDrawCeil
                && f.z1 == walls::floor_top(r) && f.z0 == walls::ceiling_z(r) && f.radar == r.radar
        }),
{
}

/// The chains of the layers of a column come one after the other, the
/// topmost first: those of two ranges of layers that meet make up those
/// of the whole range.
pub proof fn lemma_layers_follow(
    grid: GridView,
    chunk_xy: Seq<i32>,
    local: Seq<i32>,
    lo: int,
    mid: int,
    hi: int,
    size_z: i32,
)
    requires
        lo <= mid + 1,
        mid <= hi,
    ensures
        columns::stacked_chains(grid, chunk_xy, local, lo, hi, size_z) == columns::stacked_chains(
            grid,
            chunk_xy,
            local,
            lo,
            mid,
            size_z,
        ) + columns::stacked_chains(grid, chunk_xy, local, mid + 1, hi, size_z),
    decreases mid - lo + 1,
{
    let all = columns::stacked_chains(grid, chunk_xy, local, lo, hi, size_z);
    let low = columns::stacked_chains(grid, chunk_xy, local, lo, mid, size_z);
    let high = columns::stacked_chains(grid, chunk_xy, local, mid + 1, hi, size_z);
    if lo <= mid {
        lemma_layers_follow(grid, chunk_xy, local, lo + 1, mid, hi, size_z);
    }
    assert(all =~= low + high);
}

/// A layer of a column is the chain of its chunk's column, raised by the
/// height of the layers above it; the column is that of the coordinates
/// inside the chunk, row by row.
pub proof fn lemma_layer_is_raised_chain(
    grid: GridView,
    chunk_xy: Seq<i32>,
    local: Seq<i32>,
    chz: int,
    size_z: i32,
    k: u32,
)
    requires
        k <= 14,
    ensures
        grid.chunk(chunk_xy[0] as int, chunk_xy[1] as int, chz) is None
            ==> columns::stacked_chains(grid, chunk_xy, local, chz, chz, size_z).len() == 0,
        grid.chunk(chunk_xy[0] as int, chunk_xy[1] as int, chz) matches Some(c) ==> ({
            let side = c.chunk_size_xy as int;
            let i = c.mip_base_offsets@[0] + (local[1] as int % side) * side + local[0] as int
                % side;
            c.chunk_size_xy == 1u32 << k && i < c.column_offsets@.len() ==> columns::stacked_chains(
                grid,
                chunk_xy,
                local,
                chz,
                chz,
                size_z,
            ) == slab::raised_chain(c.slab_buf@, c.column_offsets@[i] as int, chz * size_z)
        }),
{
    reveal_with_fuel(columns::stacked_chains, 2);
    let one = columns::layer_chain(grid, chunk_xy, local, chz, size_z);
    assert(one + Seq::<u8>::empty() =~= one);
    if grid.chunk(chunk_xy[0] as int, chunk_xy[1] as int, chz) is Some {
        let c = grid.chunk(chunk_xy[0] as int, chunk_xy[1] as int, chz)->0;
        let side = c.chunk_size_xy as int;
        if c.chunk_size_xy == 1u32 << k {
            power2::lemma2_to64();
            if k < 14 {
                power2::lemma_pow2_strictly_increases(k as nat, 14);
            }
            vstd::bits::lemma_u32_shl_is_mul(1u32, k);
            arith::lemma_mask(local[0], k);
            arith::lemma_mask(local[1], k);
            let y = local[1] as int % side;
            assert(0 <= y * side <= 0x1000_0000) by (nonlinear_arith)
                requires
                    0 <= y < side,
                    side <= 0x4000,
            ;
        }
    }
}

/// The bottom slab of a column counts as air where that is switched on
/// and its floor is the last voxel of the column at the current level.
pub proof fn lemma_airy_bottom(r: Ray)
    requires
        0 <= r.gmipcnt < 8,
        0 <= r.vptr_offset,
    ensures
        fill::airy_bedrock(r) <==> r.treat_z_max_as_air && r.vptr_offset + 1 < r.column.len()
            && r.column[r.vptr_offset + 1] + 1 == 256int / power2::pow2(r.gmipcnt as nat) as int,
{
    vstd::bits::lemma_u8_shr_is_div(0xffu8, r.gmipcnt as u8);
    power2::lemma2_to64();
    let m = r.gmipcnt as nat;
    assert(0xffu8 >> (r.gmipcnt as u32) == 255int / power2::pow2(m) as int);
    assert(255int / power2::pow2(m) as int + 1 == 256int / power2::pow2(m) as int) by {
        if m == 0 {
            assert(255int / 1int + 1 == 256int / 1int);
        } else if m == 1 {
            assert(255int / 2int + 1 == 256int / 2int);
        } else if m == 2 {
            assert(255int / 4int + 1 == 256int / 4int);
        } else if m == 3 {
            assert(255int / 8int + 1 == 256int / 8int);
        } else if m == 4 {
            assert(255int / 16int + 1 == 256int / 16int);
        } else if m == 5 {
            assert(255int / 32int + 1 == 256int / 32int);
        } else if m == 6 {
            assert(255int / 64int + 1 == 256int / 64int);
        } else {
            assert(255int / 128int + 1 == 256int / 128int);
        }
    }
}

proof fn lemma_rows_end_at_ceiling(r: Ray)
    requires
        r.cf.len() == 256,
        0 <= r.c_idx < 256,
        r.z0 < walls::ceiling_z(r) <= i32::MAX,
    ensures
        ({
            let (f, phase) = walls::cwall_rows(r);
            &&& phase == Phase::PreDrawCeil || phase == Phase::PreDeleteZ
            &&& phase == Phase::PreDrawCeil ==> f.z0 == walls::ceiling_z(r)
            &&& phase == Phase::PreDrawCeil ==> f.cf[r.c_idx].cx0 == f.cx0 && f.cf[r.c_idx].cy0
                == f.cy0
            &&& f.z1 == r.z1
        }),
    decreases arith::max_int(walls::ceiling_z(r) - r.z0, 0),
{
    let (c, ready) = walls::cwall_row(r);
    if ready {
        let d = walls::left_after(c, walls::left_len(c));
        if walls::left_len(c) != walls::left_room(c) && d.z0 != walls::ceiling_z(r) {
            assert(walls::ceiling_z(d) == walls::ceiling_z(r));
            lemma_rows_end_at_ceiling(d);
        }
    }
}

/// After the wall above a slab that is not the first, the view starts at
/// the ceiling and ends at the top of the floor, unless the wall used the
/// segment up.
pub proof fn lemma_view_starts_at_ceiling(r: Ray)
    requires
        r.cf.len() == 256,
        0 <= r.c_idx < 256,
        0 < r.vptr_offset,
        r.vptr_offset + 4 <= r.column.len(),
        columns::level_ok(r),
    ensures
        ({
            let (f, phase) = walls::draw_cwall(r);
            &&& phase == Phase::PreDrawCeil || phase == Phase::PreDeleteZ
            &&& phase == Phase::PreDrawCeil ==> f.z0 == walls::ceiling_z(r)
            &&& f.z1 == walls::floor_top(r)
        }),
{
    let a = Ray { z1: walls::floor_top(r) as i32, ..r };
    let b = Ray { ebx: fill::current(r).i0 as int, ..a };
    assert(walls::ceiling_z(b) == walls::ceiling_z(r));
    if walls::ceiling_z(r) > r.z0 {
        lemma_rows_end_at_ceiling(b);
    }
}

/// Walls are drawn at the depth where a ray enters a column, floors and
/// ceilings at the one where it leaves it: the two are exchanged between
/// them, before a segment is deleted after its walls, and before the
/// next segment, and by no other phase.
pub proof fn lemma_depths_change_places(r: Ray, phase: Phase)
    ensures
        ({
            let (f, next) = run::step_phase(r, phase);
            let turns = phase == Phase::PreDrawCeil || phase == Phase::PreDrawFlor || phase
                == Phase::PreDeleteZ || phase == Phase::SkipixyWithPresync;
            &&& turns ==> f.ogx == r.gx && f.gx == r.ogx && f == (Ray {
                ogx: f.ogx,
                gx: f.gx,
                ..r
            })
            &&& phase == Phase::PreDrawCeil ==> next == Phase::DrawCeil
            &&& phase == Phase::PreDrawFlor ==> next == Phase::DrawFlor
            &&& phase == Phase::PreDeleteZ ==> next == Phase::DeleteZ
            &&& phase == Phase::SkipixyWithPresync ==> next == Phase::SyncFromPresync
            &&& phase == Phase::DeleteZ || phase == Phase::AfterDelete || phase
                == Phase::SyncFromPresync || phase == Phase::Findslabloop ==> f.ogx == r.ogx
                && f.gx == r.gx
        }),
{
}

/// What is in view when a segment is done with belongs to that segment:
/// it is saved there before another one is taken up.
pub proof fn lemma_done_segment_is_saved(r: Ray)
    requires
        r.cf.len() == 256,
        0 < r.c_idx < 256,
    ensures
        ({
            let (f, next) = run::step_phase(r, Phase::AfterDelete);
            let g = stack::sync_from_presync(Ray { c_idx: r.c_idx - 1, ..f });
            &&& next == Phase::AfterDeleteKeptPresync
            &&& g.cf[r.c_idx].z0 == r.z0 && g.cf[r.c_idx].z1 == r.z1
            &&& g.cf[r.c_idx].cx0 == r.cx0 && g.cf[r.c_idx].cx1 == r.cx1
            &&& g.cf[r.c_idx].cy0 == r.cy0 && g.cf[r.c_idx].cy1 == r.cy1
            &&& g.cf[r.c_idx - 1] == r.cf[r.c_idx - 1]
        }),
{
}

/// A deleted segment leaves one less on the stack. Where it was not the
/// topmost, what is in view belongs to none that is left; the scan is
/// over with the last.
pub proof fn lemma_deleted_segment_is_gone(r: Ray)
    requires
        CF_SEED_INDEX <= r.c_idx <= r.ce_idx,
    ensures
        ({
            let (f, next) = stack::delete_z(r);
            &&& next == Phase::Done <==> r.ce_idx == CF_SEED_INDEX
            &&& r.ce_idx > CF_SEED_INDEX ==> f.ce_idx == r.ce_idx - 1
            &&& r.c_idx < r.ce_idx ==> f.c_presync_idx == f.ce_idx + 1 && next
                == Phase::AfterDeleteKeptPresync
            &&& r.c_idx == r.ce_idx && r.ce_idx > CF_SEED_INDEX ==> next == Phase::AfterDelete
                && f.cf == r.cf
            &&& f.radar == r.radar
        }),
{
}

/// A scan starts with the heights and edges of the seed segment, which
/// is the only open one, at level 0, and in the column that it was given:
/// the chain at its start, or the one of the grid's only layer.
pub proof fn lemma_scan_starts_at_seed(
    sc: ScanScratch,
    inputs: GrouscanInputs<'_>,
    vptr_offset: int,
    ixy: int,
    cx: i32,
    cy: i32,
    gmipnum: u32,
)
    ensures
        ({
            let r = run::seeded(sc, inputs, vptr_offset, ixy, cx, cy, gmipnum);
            let seed = sc.cf@[128];
            &&& r.z0 == seed.z0 && r.z1 == seed.z1
            &&& r.cx0 == seed.cx0 && r.cy0 == seed.cy0 && r.cx1 == seed.cx1 && r.cy1 == seed.cy1
            &&& r.c_idx == 128 && r.ce_idx == 128
            &&& r.gmipcnt == 0 && r.cx_mip == cx && r.cy_mip == cy && r.cx == cx && r.cy == cy
            &&& r.mm5_tail == 0
            &&& r.vptr_offset == vptr_offset && r.ixy_sptr_col_idx == ixy
            &&& r.radar == sc.radar@ && r.cf == sc.cf@
            &&& r.current_chunk_z == inputs.camera_chunk_z
            &&& r.chunk_size_xy == inputs.grid_view.chunk_size_xy && r.chunk_size_xy_log2
                == run::side_log2(r.chunk_size_xy)
            &&& 0 < r.chunk_size_xy <= i32::MAX ==> r.chunk_size_xy_mask == r.chunk_size_xy - 1
            &&& r.current_chunk_exists <==> inputs.grid_view.chunk(
                r.current_chunk_idx_xy[0] as int,
                r.current_chunk_idx_xy[1] as int,
                r.current_chunk_z as int,
            ) is Some
            &&& r.current_chunk_idx_xy == run::chunk_of(cx, cy, r.chunk_size_xy)
            &&& r.vsid == inputs.vsid && r.slab_buf == inputs.slab_buf@ && r.column_offsets
                == inputs.column_offsets@ && r.mip_base_offsets == inputs.mip_base_offsets@
            &&& inputs.grid_view.chunk_grid is None && inputs.column@.len() > 0 ==> r.column
                == slab::chain_bytes(inputs.column@, 0)
        }),
{
    assert(inputs.column@.skip(0) =~= inputs.column@);
}

/// At a new level a ray is in the column of the table that it stands at,
/// and in an empty one where its chunk is not there. The bottom of its
/// view is half the old one, rounded down the screen.
pub proof fn lemma_ray_at_new_level(r: Ray)
    requires
        0 <= r.gmipcnt < 7,
        r.gmipcnt + 1 < r.gmipnum,
        0 <= r.ngxmax < r.gxmax,
        0 <= r.z1 < i32::MAX,
    ensures
        ({
            let f = mip::remip(r).0;
            let s = mip::coarsened(mip::level_narrowed(r));
            &&& !r.current_chunk_exists ==> f.column.len() == 0
            &&& r.current_chunk_exists && f.ixy_sptr_col_idx < f.column_offsets.len() ==> f.column
                == slab::chain_bytes(f.slab_buf, f.column_offsets[f.ixy_sptr_col_idx] as int)
            &&& 2 * f.z1 - 1 <= r.z1 <= 2 * f.z1
            &&& 0 <= r.c_presync_idx < 256 ==> 2 * f.z0 <= s.cf[r.c_presync_idx].z0 <= 2 * f.z0 + 1
            &&& r.c_presync_idx >= 256 ==> f.z0 == r.z0
            &&& f.lane == 0 <==> s.gpz[0] <= s.gpz[1]
        }),
{
    let s = mip::coarsened(mip::level_narrowed(r));
    vstd::bits::lemma_u32_shr_is_div((r.z1 + 1) as u32, 1);
    power2::lemma2_to64();
    arith::lemma_shr1(s.cf[r.c_presync_idx].z0);
}

/// The top of the view is saved in the segment that it belongs to when
/// the level changes, and halved there with the others if that is open.
pub proof fn lemma_top_is_saved_at_level(r: Ray)
    requires
        r.cf.len() == 256,
        0 <= r.c_presync_idx < 256,
        0 <= r.z0,
    ensures
        ({
            let p = r.c_presync_idx;
            let f = mip::coarsened(r).cf[p];
            &&& CF_SEED_INDEX <= p <= r.ce_idx ==> 2 * f.z0 <= r.z0 <= 2 * f.z0 + 1
            &&& !(CF_SEED_INDEX <= p <= r.ce_idx) ==> f.z0 == r.z0
        }),
{
    vstd::bits::lemma_u32_shr_is_div(r.z0 as u32, 1);
    power2::lemma2_to64();
}

/// Before the level changes, the open segments are narrowed by the finer
/// columns that a column of the level stands for, half as far apart as
/// its own. At level 0, and where that is switched off, none is.
pub proof fn lemma_segments_narrow_at_level(r: Ray, p: int, half: Seq<i32>)
    requires
        0 <= p < r.cf.len(),
        half.len() == 2,
        2 * half[0] <= r.gdz[0] <= 2 * half[0] + 1,
        2 * half[1] <= r.gdz[1] <= 2 * half[1] + 1,
    ensures
        ({
            let f = mip::level_narrowed(r).cf[p];
            &&& r.gmipcnt <= 0 || !r.narrowing.at_mip || p < CF_SEED_INDEX || p > r.ce_idx ==> f
                == r.cf[p]
            &&& r.gmipcnt > 0 && r.narrowing.at_mip && CF_SEED_INDEX <= p <= r.ce_idx ==> f
                == cf_narrow::narrow_steps(
                r.cf[p],
                r.gpz,
                half,
                r.gi0,
                r.gi1,
                r.gylookup,
                cf_narrow::virtual_steps(r.gmipcnt as u32),
            )
        }),
{
    arith::lemma_shr1(r.gdz[0]);
    arith::lemma_shr1(r.gdz[1]);
    assert(cf_narrow::halves(r.gdz) =~= half);
}

/// Each finer column narrows a segment at the whole depth of the nearer
/// of the two grid lines ahead, and crosses that line.
pub proof fn lemma_finer_columns_follow_lines(
    e: CfType,
    gpz: Seq<i32>,
    gdz: Seq<i32>,
    gi0: i32,
    gi1: i32,
    gylookup: Seq<i32>,
    n: nat,
    depth: i32,
)
    requires
        gpz.len() == 2,
        gdz.len() == 2,
        0 <= gpz[0] < 0x4000_0000,
        0 <= gpz[1] < 0x4000_0000,
        0 <= gdz[0] < 0x4000_0000,
        0 <= gdz[1] < 0x4000_0000,
        depth as int % 0x1_0000 == 0,
        depth <= gpz[0] && depth <= gpz[1],
        gpz[0] < depth + 0x1_0000 || gpz[1] < depth + 0x1_0000,
    ensures
        ({
            let next = if gpz[0] <= gpz[1] {
                seq![(gpz[0] + gdz[0]) as i32, gpz[1]]
            } else {
                seq![gpz[0], (gpz[1] + gdz[1]) as i32]
            };
            cf_narrow::narrow_steps(e, gpz, gdz, gi0, gi1, gylookup, n + 1)
                == cf_narrow::narrow_steps(
                cf_narrow::narrow_once(e, gi0, gi1, gylookup, depth),
                next,
                gdz,
                gi0,
                gi1,
                gylookup,
                n,
            )
        }),
{
    let near = cf_narrow::near_lane(gpz);
    walk_laws::lemma_whole_depth(gpz[near]);
    assert(cf_narrow::whole_depth(gpz[near]) == depth);
    let next = if gpz[0] <= gpz[1] {
        seq![(gpz[0] + gdz[0]) as i32, gpz[1]]
    } else {
        seq![gpz[0], (gpz[1] + gdz[1]) as i32]
    };
    assert(cf_narrow::crossed(gpz, gdz) =~= next);
}

/// A slab has a wall below to draw where its floor starts above the
/// bottom of the view, but not where it is an airy bottom; without one
/// nothing is drawn.
pub proof fn lemma_walls_below(r: Ray)
    requires
        0 <= r.vptr_offset,
        r.vptr_offset + 4 <= r.column.len(),
    ensures
        walls::has_fwall(r) <==> !fill::airy_bedrock(r) && r.column[r.vptr_offset + 1]
            + columns::level_base(r) < r.z1,
        !walls::has_fwall(r) ==> walls::draw_fwall(r) == (r, Phase::DrawCwall),
{
}

} // verus!
