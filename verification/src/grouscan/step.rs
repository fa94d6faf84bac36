//! Column steps of a scan: from the last segment of a column the ray goes
//! on to the next column, across chunks where the grid has them.
use crate::arith;
use crate::cf_narrow;
use crate::grouscan;
use crate::grouscan::columns;
use crate::grouscan::columns::{load_column_or_clear, load_column_or_keep, switch_chunk};
use crate::grouscan::{grouscan_cross_sign, CfType, GrouscanState, Phase, Ray, CF_SEED_INDEX};
use vstd::prelude::*;

verus! {

/// Sign of a number.
pub open spec fn sign(x: i32) -> int {
    if x > 0 {
        1
    } else if x < 0 {
        -1
    } else {
        0
    }
}

/// The ray with its cursor moved over the nearer grid line. Walls of the
/// new column face along the axis that was crossed.
pub open spec fn stepped<'a>(r: Ray<'a>) -> Ray<'a> {
    let a = Ray {
        wall_lane: r.lane,
        ixy_sptr_col_idx: (r.ixy_sptr_col_idx as usize).wrapping_add_signed(
            r.gixy[r.lane] as isize,
        ) as int,
        ..r
    };
    if r.lane == 0 {
        Ray {
            cx: (r.cx + sign(r.gixy[0])) as i32,
            cx_mip: (r.cx_mip + sign(r.gixy[0])) as i32,
            ..a
        }
    } else {
        Ray {
            cy: (r.cy + sign(r.gixy[1])) as i32,
            cy_mip: (r.cy_mip + sign(r.gixy[1])) as i32,
            ..a
        }
    }
}

/// Whether moving the cursor stays inside machine integers.
pub open spec fn stepped_ok(r: Ray) -> bool {
    &&& 0 <= r.lane < 2
    &&& r.lane == 0 ==> i32::MIN <= r.cx + sign(r.gixy[0]) <= i32::MAX && i32::MIN <= r.cx_mip
        + sign(r.gixy[0]) <= i32::MAX
    &&& r.lane == 1 ==> i32::MIN <= r.cy + sign(r.gixy[1]) <= i32::MAX && i32::MIN <= r.cy_mip
        + sign(r.gixy[1]) <= i32::MAX
}

/// The ray in chunk `(x, y)` of its layer. A chunk that is not there is
/// remembered as such; the tables stay those of the last one.
pub open spec fn moved_to_chunk<'a>(r: Ray<'a>, x: i32, y: i32) -> Ray<'a> {
    if r.current_chunk_idx_xy[0] == x && r.current_chunk_idx_xy[1] == y {
        r
    } else {
        let s = Ray { current_chunk_idx_xy: seq![x, y], ..r };
        match r.grid_view.chunk(x as int, y as int, r.current_chunk_z as int) {
            Some(chunk) => columns::enter_chunk(s, chunk),
            None => Ray { current_chunk_exists: false, ..s },
        }
    }
}

/// Whether looking the chunk up stays inside machine integers.
pub open spec fn moved_to_chunk_ok(r: Ray, x: i32, y: i32) -> bool {
    !(r.current_chunk_idx_xy[0] == x && r.current_chunk_idx_xy[1] == y)
        ==> r.grid_view.chunk_index_fits(x as int, y as int, r.current_chunk_z as int)
}

/// The ray in an empty column.
pub open spec fn cleared<'a>(r: Ray<'a>) -> Ray<'a> {
    Ray { column: Seq::empty(), ..r }
}

/// Side of a chunk at the current level.
pub open spec fn level_side(r: Ray) -> i32 {
    (r.chunk_size_xy >> (r.gmipcnt as u32)) as i32
}

/// Position of column `(x, y)` of a chunk in the table of the current
/// level.
pub open spec fn level_index(r: Ray, x: i32, y: i32) -> int {
    r.mip_base_offsets[r.gmipcnt as int] + (y as u32) * (level_side(r) as u32) + (x as u32)
}

/// Whether that position is a machine integer.
pub open spec fn level_index_ok(r: Ray, x: i32, y: i32) -> bool {
    &&& (y as u32) * (level_side(r) as u32) + (x as u32) <= u32::MAX
    &&& level_index(r, x, y) <= usize::MAX
}

/// The new column at level 0 of a single chunk.
pub open spec fn refresh_single<'a>(r: Ray<'a>) -> Ray<'a> {
    if 0 <= r.cx < r.vsid_signed && 0 <= r.cy < r.vsid_signed {
        columns::load_or_keep(
            r,
            (r.cy as u32).wrapping_mul(r.vsid).wrapping_add(r.cx as u32) as int,
        )
    } else {
        cleared(r)
    }
}

/// The new column at a coarser level of a single chunk.
pub open spec fn refresh_single_mip<'a>(r: Ray<'a>) -> Ray<'a> {
    if 0 <= r.cx_mip < level_side(r) && 0 <= r.cy_mip < level_side(r) {
        columns::load_or_clear(r, level_index(r, r.cx_mip, r.cy_mip))
    } else {
        cleared(r)
    }
}

/// The new column at level 0 of a chunk grid.
pub open spec fn refresh_grid<'a>(r: Ray<'a>) -> Ray<'a> {
    let log2 = r.chunk_size_xy_log2;
    let s = moved_to_chunk(r, r.cx >> log2, r.cy >> log2);
    if s.current_chunk_exists {
        columns::load_or_keep(s, columns::local_index(s))
    } else {
        cleared(s)
    }
}

/// The chunk that the ray is in at a coarser level.
pub open spec fn level_chunk<'a>(r: Ray<'a>) -> Ray<'a> {
    let log2 = (r.chunk_size_xy_log2 - r.gmipcnt) as u32;
    moved_to_chunk(r, r.cx_mip >> log2, r.cy_mip >> log2)
}

/// Column coordinates inside the chunk, at the current level.
pub open spec fn level_local(r: Ray, c: i32) -> i32 {
    c & ((level_side(r) - 1) as i32)
}

/// The new column at a coarser level of a chunk grid.
pub open spec fn refresh_grid_mip<'a>(r: Ray<'a>) -> Ray<'a> {
    let s = level_chunk(r);
    let i = level_index(s, level_local(s, s.cx_mip), level_local(s, s.cy_mip));
    if s.current_chunk_exists {
        columns::load_or_clear(s, i)
    } else {
        cleared(Ray { ixy_sptr_col_idx: i, ..s })
    }
}

/// The ray with the column that its cursor is at.
pub open spec fn refreshed<'a>(r: Ray<'a>) -> Ray<'a> {
    if r.grid_view.chunk_grid is None {
        if r.gmipcnt > 0 {
            refresh_single_mip(r)
        } else {
            refresh_single(r)
        }
    } else {
        if r.gmipcnt > 0 {
            refresh_grid_mip(r)
        } else {
            refresh_grid(r)
        }
    }
}

/// Whether finding the column stays inside machine integers.
pub open spec fn refreshed_ok(r: Ray) -> bool {
    &&& 0 <= r.gmipcnt < 8
    &&& if r.grid_view.chunk_grid is None {
        r.gmipcnt > 0 ==> r.gmipcnt < r.mip_base_offsets.len() && (0 <= r.cx_mip < level_side(r)
            && 0 <= r.cy_mip < level_side(r) ==> level_index_ok(r, r.cx_mip, r.cy_mip))
    } else {
        if r.gmipcnt > 0 {
            let log2 = (r.chunk_size_xy_log2 - r.gmipcnt) as u32;
            let s = level_chunk(r);
            &&& 0 <= r.chunk_size_xy_log2 - r.gmipcnt < 32
            &&& moved_to_chunk_ok(r, r.cx_mip >> log2, r.cy_mip >> log2)
            &&& s.gmipcnt < s.mip_base_offsets.len()
            &&& level_index_ok(s, level_local(s, s.cx_mip), level_local(s, s.cy_mip))
        } else {
            let log2 = r.chunk_size_xy_log2;
            &&& log2 < 32
            &&& moved_to_chunk_ok(r, r.cx >> log2, r.cy >> log2)
        }
    }
}

/// The segment after one column step of a coarse level at depth `ogx`,
/// seen from its right edge.
pub open spec fn narrow_right(r: Ray, e: CfType, ogx: i32) -> CfType {
    if 0 <= e.z1 < r.gylookup.len() && grouscan::cross(
        e.cx1,
        e.cy1,
        ogx,
        r.gylookup[e.z1 as int],
    ) > 0 && e.i1 > e.i0 {
        CfType {
            cx1: arith::wrap32(e.cx1 - r.gi0),
            cy1: arith::wrap32(e.cy1 - r.gi1),
            i1: if r.narrowing.keep_slots {
                e.i1
            } else {
                (e.i1 - 1) as isize
            },
            ..e
        }
    } else {
        e
    }
}

/// The same, seen from its left edge.
pub open spec fn narrow_left(r: Ray, e: CfType, ogx: i32) -> CfType {
    if 0 <= e.z0 < r.gylookup.len() && grouscan::cross(
        e.cx0,
        e.cy0,
        ogx,
        r.gylookup[e.z0 as int],
    ) <= 0 && e.i0 < e.i1 {
        CfType {
            cx0: arith::wrap32(e.cx0 + r.gi0),
            cy0: arith::wrap32(e.cy0 + r.gi1),
            i0: if r.narrowing.keep_slots {
                e.i0
            } else {
                (e.i0 + 1) as isize
            },
            ..e
        }
    } else {
        e
    }
}

/// The ray with the top segment narrowed at the new column's depth, where
/// that is switched on.
pub open spec fn column_narrowed<'a>(r: Ray<'a>) -> Ray<'a> {
    if r.gmipcnt > 0 && r.narrowing.per_column {
        let e = narrow_left(r, narrow_right(r, r.cf[r.ce_idx], r.gx), r.gx);
        Ray { cf: r.cf.update(r.ce_idx, e), ..r }
    } else {
        r
    }
}

/// Whether that narrowing stays inside machine integers.
pub open spec fn column_narrowed_ok(r: Ray) -> bool {
    r.gmipcnt > 0 && r.narrowing.per_column ==> {
        let e = r.cf[r.ce_idx];
        let f = narrow_right(r, e, r.gx);
        &&& 0 <= r.ce_idx < 256
        &&& 0 <= e.z1 < r.gylookup.len() ==> grouscan::cross(
            e.cx1,
            e.cy1,
            r.gx,
            r.gylookup[e.z1 as int],
        ) <= i32::MAX
        &&& 0 <= f.z0 < r.gylookup.len() ==> grouscan::cross(
            f.cx0,
            f.cy0,
            r.gx,
            r.gylookup[f.z0 as int],
        ) <= i32::MAX
    }
}

/// The ray at the top of its new column: the nearer grid line bounds it.
pub open spec fn at_column<'a>(r: Ray<'a>) -> Ray<'a> {
    let lane = cf_narrow::near_lane(r.gpz);
    Ray { vptr_offset: 0, lane, gx: cf_narrow::whole_depth(r.gpz[lane]), ..r }
}

/// The ray in its new column, at the top of the segment stack.
pub open spec fn entered<'a>(r: Ray<'a>) -> Ray<'a> {
    Ray { gpz: cf_narrow::crossed(r.gpz, r.gdz), c_idx: r.ce_idx, ..r }
}

/// The next column of the ray, up to where its depth is known.
pub open spec fn next_column<'a>(r: Ray<'a>) -> Ray<'a> {
    at_column(refreshed(stepped(Ray { c_idx: r.c_idx - 1, ..r })))
}

/// Moves to the segment below on the stack, or past the seed to the next
/// column; beyond the depth of the level the ray changes level.
pub open spec fn after_delete_kept<'a>(r: Ray<'a>) -> (Ray<'a>, Phase) {
    if r.c_idx == 0 {
        (r, Phase::Done)
    } else if r.c_idx - 1 >= CF_SEED_INDEX {
        (Ray { c_idx: r.c_idx - 1, ..r }, Phase::SkipixyWithPresync)
    } else {
        let s = next_column(r);
        if (s.gpz[s.lane] as u32) > (s.ngxmax as u32) {
            (s, Phase::Remiporend)
        } else {
            let e = column_narrowed(entered(s));
            (
                e,
                if e.c_presync_idx == e.c_idx {
                    Phase::Skipixy3
                } else {
                    Phase::SyncFromPresync
                },
            )
        }
    }
}

/// Whether the step stays inside machine integers.
pub open spec fn after_delete_kept_ok(r: Ray) -> bool {
    0 < r.c_idx <= CF_SEED_INDEX ==> {
        let a = Ray { c_idx: r.c_idx - 1, ..r };
        let s = next_column(r);
        &&& stepped_ok(a)
        &&& refreshed_ok(stepped(a))
        &&& (s.gpz[s.lane] as u32) <= (s.ngxmax as u32) ==> column_narrowed_ok(entered(s))
    }
}

pub(crate) fn sign_of(x: i32) -> (r: i32)
    ensures
        r == sign(x),
{
    if x > 0 {
        1
    } else if x < 0 {
        -1
    } else {
        0
    }
}

/// Moves the cursor over the nearer grid line.
fn step_cursor(state: &mut GrouscanState<'_>)
    requires
        stepped_ok(old(state)@),
    ensures
        final(state)@ == stepped(old(state)@),
        *final(final(state).scratch) == *final(old(state).scratch),
{
    state.wall_lane = state.lane;
    let step: isize = state.scratch.gixy[state.lane] as isize;
    state.ixy_sptr_col_idx = state.ixy_sptr_col_idx.wrapping_add_signed(step);
    if state.lane == 0 {
        let d: i32 = sign_of(state.scratch.gixy[0]);
        state.cx = state.cx + d;
        state.cx_mip = state.cx_mip + d;
    } else {
        let d: i32 = sign_of(state.scratch.gixy[1]);
        state.cy = state.cy + d;
        state.cy_mip = state.cy_mip + d;
    }
    assert(state@ =~= stepped(old(state)@));
}

/// Moves to chunk `(x, y)` of the layer.
fn move_to_chunk(state: &mut GrouscanState<'_>, x: i32, y: i32)
    requires
        moved_to_chunk_ok(old(state)@, x, y),
    ensures
        final(state)@ == moved_to_chunk(old(state)@, x, y),
        *final(final(state).scratch) == *final(old(state).scratch),
{
    if state.current_chunk_idx_xy[0] == x && state.current_chunk_idx_xy[1] == y {
        return;
    }
    let ghost r0 = state@;
    state.current_chunk_idx_xy = [x, y];
    let ghost s = state@;
    assert(s =~= Ray { current_chunk_idx_xy: seq![x, y], ..r0 });
    match state.grid_view.chunk_at_xyz([x, y, state.current_chunk_z]) {
        Some(chunk) => {
            switch_chunk(state, chunk);
        },
        None => {
            state.current_chunk_exists = false;
            assert(state@ =~= Ray { current_chunk_exists: false, ..s });
        },
    }
}

fn clear_column(state: &mut GrouscanState<'_>)
    ensures
        final(state)@ == cleared(old(state)@),
        *final(final(state).scratch) == *final(old(state).scratch),
{
    state.column.clear();
    assert(state@ =~= cleared(old(state)@));
}

/// Position of a column in the table of the current level.
fn level_column(state: &GrouscanState<'_>, x: i32, y: i32) -> (r: usize)
    requires
        0 <= state@.gmipcnt < 8,
        state@.gmipcnt < state@.mip_base_offsets.len(),
        level_index_ok(state@, x, y),
    ensures
        r == level_index(state@, x, y),
{
    let level: u32 = state.gmipcnt as u32;
    let side: i32 = (state.chunk_size_xy >> level) as i32;
    let base: usize = state.mip_base_offsets[state.gmipcnt as usize];
    assert(0 <= (y as u32) * (side as u32)) by (nonlinear_arith);
    let row: u32 = (y as u32) * (side as u32);
    base + (row + x as u32) as usize
}

fn refresh_single_column(state: &mut GrouscanState<'_>)
    requires
        refreshed_ok(old(state)@),
        old(state)@.grid_view.chunk_grid is None,
    ensures
        final(state)@ == refreshed(old(state)@),
        *final(final(state).scratch) == *final(old(state).scratch),
{
    if state.gmipcnt > 0 {
        let level: u32 = state.gmipcnt as u32;
        let side: i32 = (state.chunk_size_xy >> level) as i32;
        if state.cx_mip >= 0 && state.cy_mip >= 0 && state.cx_mip < side && state.cy_mip < side {
            let i: usize = level_column(state, state.cx_mip, state.cy_mip);
            load_column_or_clear(state, i);
        } else {
            clear_column(state);
        }
    } else {
        if state.cx >= 0 && state.cy >= 0 && state.cx < state.vsid_signed && state.cy
            < state.vsid_signed {
            let i: usize = (state.cy as u32).wrapping_mul(state.vsid).wrapping_add(
                state.cx as u32,
            ) as usize;
            load_column_or_keep(state, i);
        } else {
            clear_column(state);
        }
    }
}

fn refresh_grid_column(state: &mut GrouscanState<'_>)
    requires
        refreshed_ok(old(state)@),
        old(state)@.grid_view.chunk_grid is Some,
    ensures
        final(state)@ == refreshed(old(state)@),
        *final(final(state).scratch) == *final(old(state).scratch),
{
    let ghost r0 = state@;
    if state.gmipcnt > 0 {
        let level: u32 = state.gmipcnt as u32;
        let log2: u32 = state.chunk_size_xy_log2 - level;
        move_to_chunk(state, state.cx_mip >> log2, state.cy_mip >> log2);
        let ghost s = state@;
        assert(s == level_chunk(r0));
        let shifted: u32 = state.chunk_size_xy >> level;
        let mask: i32 = level_mask(shifted, state.chunk_size_xy, level);
        let local_cx: i32 = state.cx_mip & mask;
        let local_cy: i32 = state.cy_mip & mask;
        let i: usize = level_column(state, local_cx, local_cy);
        if state.current_chunk_exists {
            load_column_or_clear(state, i);
        } else {
            state.ixy_sptr_col_idx = i;
            assert(state@ =~= Ray { ixy_sptr_col_idx: i as int, ..s });
            clear_column(state);
        }
    } else {
        let log2: u32 = state.chunk_size_xy_log2;
        move_to_chunk(state, state.cx >> log2, state.cy >> log2);
        if state.current_chunk_exists {
            let local_cx: i32 = state.cx & state.chunk_size_xy_mask;
            let local_cy: i32 = state.cy & state.chunk_size_xy_mask;
            let i: usize = (local_cy as u32).wrapping_mul(state.chunk_size_xy).wrapping_add(
                local_cx as u32,
            ) as usize;
            load_column_or_keep(state, i);
        } else {
            clear_column(state);
        }
    }
}

/// Mask of the column coordinates inside a chunk of side `size >> level`.
pub(crate) fn level_mask(shifted: u32, size: u32, level: u32) -> (r: i32)
    requires
        shifted == size >> level,
        0 < level < 8,
    ensures
        r == ((shifted as i32) - 1) as i32,
{
    assert(shifted <= 0x7fff_ffff) by (bit_vector)
        requires
            shifted == size >> level,
            0 < level < 8,
    ;
    shifted as i32 - 1
}

/// Narrows the top segment at the new column's depth, where that is
/// switched on.
fn narrow_column(state: &mut GrouscanState<'_>)
    requires
        column_narrowed_ok(old(state)@),
    ensures
        final(state)@ == column_narrowed(old(state)@),
        *final(final(state).scratch) == *final(old(state).scratch),
{
    if !(state.gmipcnt > 0 && state.narrowing.per_column) {
        return;
    }
    let ghost r0 = state@;
    let ogx: i32 = state.gx;
    let gi0: i32 = state.scratch.gi0;
    let gi1: i32 = state.scratch.gi1;
    let keep: bool = state.narrowing.keep_slots;
    let mut e: CfType = state.scratch.cf[state.ce_idx];
    let ghost e0 = e;
    if e.z1 >= 0 && (e.z1 as usize) < state.gylookup.len() {
        let test: i32 = grouscan_cross_sign(e.cx1, e.cy1, ogx, state.gylookup[e.z1 as usize]);
        proof {
            arith::lemma_wrapping(e.cx1, gi0);
            arith::lemma_wrapping(e.cy1, gi1);
        }
        if test > 0 && e.i1 > e.i0 {
            e.cx1 = e.cx1.wrapping_sub(gi0);
            e.cy1 = e.cy1.wrapping_sub(gi1);
            if !keep {
                e.i1 = e.i1 - 1;
            }
        }
    }
    assert(e == narrow_right(r0, e0, ogx));
    let ghost e1 = e;
    if e.z0 >= 0 && (e.z0 as usize) < state.gylookup.len() {
        let test: i32 = grouscan_cross_sign(e.cx0, e.cy0, ogx, state.gylookup[e.z0 as usize]);
        proof {
            arith::lemma_wrapping(e.cx0, gi0);
            arith::lemma_wrapping(e.cy0, gi1);
        }
        if test <= 0 && e.i0 < e.i1 {
            e.cx0 = e.cx0.wrapping_add(gi0);
            e.cy0 = e.cy0.wrapping_add(gi1);
            if !keep {
                e.i0 = e.i0 + 1;
            }
        }
    }
    assert(e == narrow_left(r0, e1, ogx));
    state.scratch.cf[state.ce_idx] = e;
    assert(state@.cf =~= column_narrowed(r0).cf);
    assert(state@ =~= column_narrowed(r0));
}

/// Moves to the segment below on the stack, or to the next column.
pub fn phase_after_delete_kept_presync(state: &mut GrouscanState<'_>) -> (r: Phase)
    requires
        after_delete_kept_ok(old(state)@),
    ensures
        (final(state)@, r) == after_delete_kept(old(state)@),
        *final(final(state).scratch) == *final(old(state).scratch),
{
    if state.c_idx == 0 {
        return Phase::Done;
    }
    let ghost r0 = state@;
    state.c_idx = state.c_idx - 1;
    assert(state@ =~= Ray { c_idx: r0.c_idx - 1, ..r0 });
    if state.c_idx >= CF_SEED_INDEX {
        return Phase::SkipixyWithPresync;
    }
    step_cursor(state);
    if state.grid_view.chunk_grid.is_none() {
        refresh_single_column(state);
    } else {
        refresh_grid_column(state);
    }
    let ghost b = state@;
    state.vptr_offset = 0;
    state.lane = if state.scratch.gpz[1] < state.scratch.gpz[0] {
        1
    } else {
        0
    };
    let new_gpz: i32 = state.scratch.gpz[state.lane];
    state.gx = new_gpz & -0x1_0000i32;
    let ghost s = state@;
    assert(s =~= at_column(b));
    assert(s == next_column(r0));
    if new_gpz as u32 > state.ngxmax as u32 {
        return Phase::Remiporend;
    }
    state.scratch.gpz[state.lane] = new_gpz.wrapping_add(state.scratch.gdz[state.lane]);
    state.c_idx = state.ce_idx;
    assert(state@.gpz =~= entered(s).gpz);
    assert(state@ =~= entered(s));
    narrow_column(state);
    if state.c_presync_idx == state.c_idx {
        Phase::Skipixy3
    } else {
        Phase::SyncFromPresync
    }
}

} // verus!
