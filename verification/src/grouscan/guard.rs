//! Whether the next phase of a scan stays inside the tables and machine
//! integers, told before it runs.
use crate::arith;
use crate::cf_narrow;
use crate::grouscan::columns;
use crate::grouscan::columns::{column_byte_at, slab_z_at};
use crate::grouscan::fill;
use crate::grouscan::laws;
use crate::grouscan::mip;
use crate::grouscan::order;
use crate::grouscan::run;
use crate::grouscan::skyfill;
use crate::grouscan::stack;
use crate::grouscan::step;
use crate::grouscan::step::{level_mask, sign_of};
use crate::grouscan::walls;
use crate::grouscan::{grouscan_cross_sign, CfType, GrouscanState, Phase, Ray, CF_SEED_INDEX};
use vstd::prelude::*;

verus! {

fn level_is_ok(state: &GrouscanState<'_>) -> (r: bool)
    ensures
        r == columns::level_ok(state@),
{
    if state.gmipcnt < 0 || state.gmipcnt >= 8 {
        return false;
    }
    let level: u32 = state.gmipcnt as u32;
    (state.chunk_world_z_base >> level) <= i32::MAX - 0xff
}

fn header_is_there(state: &GrouscanState<'_>) -> (r: bool)
    ensures
        r == (state@.vptr_offset + 4 <= state@.column.len()),
{
    let n: usize = state.column.len();
    n >= 4 && state.vptr_offset <= n - 4
}

fn is_airy(state: &GrouscanState<'_>) -> (r: bool)
    requires
        0 <= state@.gmipcnt < 8,
    ensures
        r == fill::airy_bedrock(state@),
{
    let n: usize = state.column.len();
    let level: u32 = state.gmipcnt as u32;
    state.scratch.treat_z_max_as_air && n >= 2 && state.vptr_offset < n - 1
        && state.column[state.vptr_offset + 1] == (0xffu8 >> level)
}

fn segment_is_ok(state: &GrouscanState<'_>) -> (r: bool)
    ensures
        r == fill::segment_ok(state@),
{
    if state.c_idx >= 256 {
        return false;
    }
    let c: CfType = state.scratch.cf[state.c_idx];
    isize::MIN < c.i0 && c.i0 < isize::MAX && isize::MIN < c.i1 && c.i1 < isize::MAX
}

fn on_table(state: &GrouscanState<'_>, z: i32) -> (r: bool)
    ensures
        r == (0 <= z < state@.gylookup.len()),
{
    z >= 0 && (z as usize) < state.gylookup.len()
}

fn fwall_is_ok(state: &GrouscanState<'_>) -> (r: bool)
    requires
        order::table_fits(state@.gylookup),
    ensures
        r == walls::draw_fwall_ok(state@),
{
    if !header_is_there(state) {
        return true;
    }
    if !level_is_ok(state) {
        return false;
    }
    if is_airy(state) {
        return true;
    }
    let top: i32 = slab_z_at(state, state.vptr_offset, 1);
    if top >= state.z1 {
        return true;
    }
    proof {
        order::lemma_fwall_rows_ok(Ray { ebx: fill::current(state@).i1 as int, ..state@ });
    }
    segment_is_ok(state) && state.wall_lane < 9 && state.z1 as i64 - top as i64 <= i32::MAX as i64
}

fn cwall_is_ok(state: &GrouscanState<'_>) -> (r: bool)
    requires
        order::table_fits(state@.gylookup),
    ensures
        r == walls::draw_cwall_ok(state@),
{
    if !header_is_there(state) {
        return true;
    }
    if !level_is_ok(state) {
        return false;
    }
    let bottom: i32 = slab_z_at(state, state.vptr_offset, 3);
    if state.vptr_offset == 0 || bottom <= state.z0 {
        return true;
    }
    proof {
        let a = Ray { z1: walls::floor_top(state@) as i32, ..state@ };
        order::lemma_cwall_rows_ok(Ray { ebx: fill::current(state@).i0 as int, ..a });
    }
    segment_is_ok(state) && state.wall_lane < 9 && state.z0 as i64 - bottom as i64
        >= i32::MIN as i64
}

fn ceil_is_ok(state: &GrouscanState<'_>) -> (r: bool)
    requires
        order::table_fits(state@.gylookup),
    ensures
        r == fill::draw_ceil_ok(state@),
{
    if !on_table(state, state.z0) || state.vptr_offset < 4 || state.vptr_offset
        > state.column.len() {
        return true;
    }
    proof {
        let r = state@;
        laws::lemma_edge_in_range(
            r.cx0,
            r.cy0,
            r.gi0 as int,
            r.gi1 as int,
            r.ogx,
            r.gylookup[r.z0 as int],
            true,
            fill::room(fill::current(r).i0 as int, fill::current(r).i1 as int),
        );
    }
    segment_is_ok(state)
}

/// Whether looking for the chunk below stays inside machine integers.
fn handoff_is_fit(state: &GrouscanState<'_>) -> (r: bool)
    ensures
        r == columns::handoff_fits(state@),
{
    let cg = match state.grid_view.chunk_grid {
        Some(cg) => cg,
        None => return true,
    };
    let end: i64 = cg.origin_chunk_z as i64 + cg.chunks_z as i32 as i64;
    if state.current_chunk_z == i32::MAX || end < i32::MIN as i64 || end > i32::MAX as i64 {
        return false;
    }
    let next: i32 = state.current_chunk_z + 1;
    if next as i64 >= end {
        return true;
    }
    let (x, y) = (state.current_chunk_idx_xy[0], state.current_chunk_idx_xy[1]);
    if !state.grid_view.can_index([x, y, next]) {
        return false;
    }
    match state.grid_view.chunk_at_xyz([x, y, next]) {
        Some(_) => {
            let base: i64 = state.chunk_world_z_base as i64 + state.chunk_size_z as i32 as i64;
            i32::MIN as i64 <= base && base <= i32::MAX as i64
        },
        None => true,
    }
}

fn flor_is_ok(state: &GrouscanState<'_>) -> (r: bool)
    requires
        order::table_fits(state@.gylookup),
    ensures
        r == fill::draw_flor_ok(state@),
{
    if state.gmipcnt < 0 || state.gmipcnt >= 8 {
        return false;
    }
    if is_airy(state) {
        return state.gmipcnt != 0 || handoff_is_fit(state);
    }
    let n: usize = state.column.len();
    if !on_table(state, state.z1) || n < 8 || state.vptr_offset > n - 8 {
        return true;
    }
    proof {
        let r = state@;
        laws::lemma_edge_in_range(
            r.cx1,
            r.cy1,
            -r.gi0 as int,
            -r.gi1 as int,
            r.ogx,
            r.gylookup[r.z1 as int],
            false,
            fill::room(fill::current(r).i0 as int, fill::current(r).i1 as int),
        );
    }
    segment_is_ok(state)
}

/// The big steps of the split search, without moving the ray. Returns
/// them and the right edge after them.
fn count_big(state: &GrouscanState<'_>, gy: i32, Ghost(b): Ghost<Ray<'_>>) -> (r: (
    usize,
    i32,
    i32,
))
    requires
        state@.c_idx < 256,
        same_edges(state@, b),
        b.gy_raw == gy,
        arith::low16(gy as int) != -0x8000,
        isize::MIN <= fill::current(b).i1 - fill::current(b).i0 <= isize::MAX,
    ensures
        r.0 == stack::big_steps(b),
        r.1 == stack::edge_moved(b, 16 * r.0).cx1,
        r.2 == stack::edge_moved(b, 16 * r.0).cy1,
{
    let c: CfType = state.scratch.cf[state.c_idx];
    let span: isize = if c.i1 - c.i0 > 0 {
        c.i1 - c.i0
    } else {
        0
    };
    let limit: usize = span as usize / 16 + 1;
    let gi0_16: i32 = state.scratch.gi0 << 4u32;
    let gi1_16: i32 = state.scratch.gi1 << 4u32;
    let ogx: i32 = state.ogx;
    let mut cx: i32 = state.cx1;
    let mut cy: i32 = state.cy1;
    let mut done: usize = 0;
    proof {
        stack::lemma_shl4(b.gi0);
        stack::lemma_shl4(b.gi1);
        stack::lemma_edge_moved(b, 0, 0);
    }
    while done < limit
        invariant_except_break
            stack::big_steps(b) == done + fill::edge_len(
                arith::wrap32(cx - 16 * b.gi0),
                arith::wrap32(cy - 16 * b.gi1),
                -16 * b.gi0,
                -16 * b.gi1,
                b.ogx,
                b.gy_raw,
                false,
                (limit - done) as nat,
            ),
        invariant
            done <= limit,
            limit == stack::big_step_limit(b),
            ogx == b.ogx,
            gy == b.gy_raw,
            arith::low16(gy as int) != -0x8000,
            gi0_16 == arith::wrap32(16 * b.gi0),
            gi1_16 == arith::wrap32(16 * b.gi1),
            cx == stack::edge_moved(b, 16 * done).cx1,
            cy == stack::edge_moved(b, 16 * done).cy1,
        ensures
            done == stack::big_steps(b),
        decreases limit - done,
    {
        proof {
            arith::lemma_wrapping(cx, gi0_16);
            arith::lemma_wrapping(cy, gi1_16);
            stack::lemma_wrapped_sub(cx, 16 * b.gi0);
            stack::lemma_wrapped_sub(cy, 16 * b.gi1);
        }
        let cx_try: i32 = cx.wrapping_sub(gi0_16);
        let cy_try: i32 = cy.wrapping_sub(gi1_16);
        proof {
            laws::lemma_cross_in_range(cx_try, cy_try, ogx, gy);
        }
        if grouscan_cross_sign(cx_try, cy_try, ogx, gy) <= 0 {
            break;
        }
        proof {
            let m = stack::edge_moved(b, 16 * done);
            stack::lemma_edge_moved(b, 16 * done, 16);
            assert(cx_try == stack::edge_moved(m, 16).cx1);
            assert(cy_try == stack::edge_moved(m, 16).cy1);
        }
        cx = cx_try;
        cy = cy_try;
        done = done + 1;
    }
    (done, cx, cy)
}

/// Whether two rays look at the same segment from the same edges.
spec fn same_edges(r: Ray, b: Ray) -> bool {
    &&& r.cx1 == b.cx1 && r.cy1 == b.cy1
    &&& r.gi0 == b.gi0 && r.gi1 == b.gi1
    &&& r.ogx == b.ogx
    &&& fill::current(r).i0 == fill::current(b).i0
    &&& fill::current(r).i1 == fill::current(b).i1
}

/// The single steps of the split search from edge `(cx1, cy1)`, without
/// moving the ray.
fn count_small(state: &GrouscanState<'_>, gy: i32, cx1: i32, cy1: i32) -> (r: usize)
    requires
        arith::low16(gy as int) != -0x8000,
    ensures
        r == fill::edge_len(
            cx1,
            cy1,
            -state@.gi0 as int,
            -state@.gi1 as int,
            state@.ogx,
            gy,
            false,
            17,
        ),
{
    let (gi0, gi1, ogx) = (state.scratch.gi0, state.scratch.gi1, state.ogx);
    let mut cx: i32 = cx1;
    let mut cy: i32 = cy1;
    let mut done: usize = 0;
    let ghost total = fill::edge_len(cx1, cy1, -gi0 as int, -gi1 as int, ogx, gy, false, 17);
    while done < 17
        invariant_except_break
            total == done + fill::edge_len(
                cx,
                cy,
                -gi0 as int,
                -gi1 as int,
                ogx,
                gy,
                false,
                (17 - done) as nat,
            ),
        invariant
            done <= 17,
            arith::low16(gy as int) != -0x8000,
        ensures
            done == total,
        decreases 17 - done,
    {
        proof {
            laws::lemma_cross_in_range(cx, cy, ogx, gy);
            arith::lemma_wrapping(cx, gi0);
            arith::lemma_wrapping(cy, gi1);
        }
        if grouscan_cross_sign(cx, cy, ogx, gy) <= 0 {
            break;
        }
        cx = cx.wrapping_sub(gi0);
        cy = cy.wrapping_sub(gi1);
        done = done + 1;
    }
    done
}

/// Whether the split below height `v2` stays inside machine integers.
fn split_is_ok(state: &GrouscanState<'_>, v2: i32, Ghost(r0): Ghost<Ray<'_>>) -> (r: bool)
    requires
        order::table_fits(state@.gylookup),
        v2 < i32::MAX,
        0 <= v2 + 1 < state@.gylookup.len(),
        r0 == (Ray { gy_raw: r0.gy_raw, ..state@ }),
    ensures
        r == stack::slab_split_ok(r0, v2 as int),
{
    if state.c_idx >= 255 {
        return false;
    }
    let c: CfType = state.scratch.cf[state.c_idx];
    let span: i128 = c.i1 as i128 - c.i0 as i128;
    if span < isize::MIN as i128 || span > isize::MAX as i128 || c.i1 == isize::MAX {
        return false;
    }
    let gy: i32 = state.gylookup[(v2 + 1) as usize];
    let ghost a = fill::with_current(r0, stack::saved_segment(r0, fill::current(r0)));
    let ghost b = Ray { gy_raw: r0.gylookup[v2 + 1], ..a };
    proof {
        assert(fill::current(b) == stack::saved_segment(r0, fill::current(r0)));
        order::lemma_split_searches_ok(r0, v2 as int);
    }
    let (big, cx, cy) = count_big(state, gy, Ghost(b));
    let small: usize = count_small(state, gy, cx, cy);
    assert(stack::split_steps(b) == 16 * big + small);
    isize::MIN as i128 <= c.i1 as i128 - 16 * big as i128 - small as i128
}

fn into_slab_is_ok(state: &GrouscanState<'_>) -> (r: bool)
    requires
        order::table_fits(state@.gylookup),
    ensures
        r == stack::into_slab_ok(state@),
{
    if !level_is_ok(state) {
        return false;
    }
    let v2: i32 = slab_z_at(state, state.vptr_offset, 2);
    if v2 == i32::MAX {
        return false;
    }
    if !on_table(state, v2 + 1) {
        return true;
    }
    let gy: i32 = state.gylookup[(v2 + 1) as usize];
    proof {
        laws::lemma_cross_in_range(state.cx0, state.cy0, state.ogx, gy);
    }
    if grouscan_cross_sign(state.cx0, state.cy0, state.ogx, gy) > 0 {
        return true;
    }
    let v0: usize = column_byte_at(state, 0) as usize;
    let n_bytes: usize = state.column.len();
    let next_slab: usize = state.vptr_offset.saturating_add(v0 * 4);
    let next_v3: i32 = slab_z_at(state, next_slab, 3);
    let ghost r0 = state@;
    assert(r0.column.len() == n_bytes);
    assert(columns::column_byte(r0, next_slab + 3) == columns::column_byte(
        r0,
        r0.vptr_offset + v0 * 4 + 3,
    ));
    if !on_table(state, next_v3) {
        return true;
    }
    let next_gy: i32 = state.gylookup[next_v3 as usize];
    proof {
        laws::lemma_cross_in_range(state.cx1, state.cy1, state.ogx, next_gy);
    }
    if grouscan_cross_sign(state.cx1, state.cy1, state.ogx, next_gy) <= 0 {
        return true;
    }
    split_is_ok(state, v2, Ghost(Ray { gy_raw: next_gy, ..r0 }))
}

/// Whether one coordinate can be moved by one, forward or back.
fn moves(c: i32, c_mip: i32, d: i32) -> (r: bool)
    requires
        -1 <= d <= 1,
    ensures
        r == (i32::MIN <= c + d <= i32::MAX && i32::MIN <= c_mip + d <= i32::MAX),
{
    let (a, b) = (c as i64 + d as i64, c_mip as i64 + d as i64);
    i32::MIN as i64 <= a && a <= i32::MAX as i64 && i32::MIN as i64 <= b && b <= i32::MAX as i64
}

/// Whether the position of column `(x, y)` in the table of the current
/// level is a machine integer, given the table's levels.
fn level_index_is_ok(
    state: &GrouscanState<'_>,
    bases: &[usize],
    x: i32,
    y: i32,
    Ghost(s): Ghost<Ray<'_>>,
) -> (r: bool)
    requires
        0 <= s.gmipcnt < 8,
        s.gmipcnt < bases@.len(),
        s.gmipcnt == state@.gmipcnt,
        s.chunk_size_xy == state@.chunk_size_xy,
        s.mip_base_offsets == bases@,
    ensures
        r == step::level_index_ok(s, x, y),
{
    let level: u32 = state.gmipcnt as u32;
    let side: i32 = (state.chunk_size_xy >> level) as i32;
    let (yu, su) = (y as u32 as u64, side as u32 as u64);
    assert(yu * su <= 0xffff_ffff * 0xffff_ffff) by (nonlinear_arith)
        requires
            yu <= 0xffff_ffff,
            su <= 0xffff_ffff,
    ;
    let i: u64 = yu * su + x as u32 as u64;
    i <= u32::MAX as u64 && bases[state.gmipcnt as usize] <= usize::MAX - i as usize
}

/// Whether the column at cursor `(cx, cy)` can be found in a single chunk.
fn single_is_ok(state: &GrouscanState<'_>, cx: i32, cy: i32, Ghost(s): Ghost<Ray<'_>>) -> (r: bool)
    requires
        s == (Ray {
            cx: s.cx,
            cy: s.cy,
            cx_mip: cx,
            cy_mip: cy,
            c_idx: s.c_idx,
            wall_lane: s.wall_lane,
            ixy_sptr_col_idx: s.ixy_sptr_col_idx,
            ..state@
        }),
        s.grid_view.chunk_grid is None,
        0 <= s.gmipcnt < 8,
    ensures
        r == step::refreshed_ok(s),
{
    if state.gmipcnt == 0 {
        return true;
    }
    let level: u32 = state.gmipcnt as u32;
    let side: i32 = (state.chunk_size_xy >> level) as i32;
    if state.gmipcnt as usize >= state.mip_base_offsets.len() {
        return false;
    }
    if cx < 0 || cy < 0 || cx >= side || cy >= side {
        return true;
    }
    level_index_is_ok(state, state.mip_base_offsets, cx, cy, Ghost(s))
}

/// Whether moving to chunk `(x, y)` of the layer stays inside machine
/// integers.
fn move_is_ok(state: &GrouscanState<'_>, x: i32, y: i32, Ghost(s): Ghost<Ray<'_>>) -> (r: bool)
    requires
        s.current_chunk_idx_xy == state@.current_chunk_idx_xy,
        s.current_chunk_z == state@.current_chunk_z,
        s.grid_view == state@.grid_view,
    ensures
        r == step::moved_to_chunk_ok(s, x, y),
{
    state.current_chunk_idx_xy[0] == x && state.current_chunk_idx_xy[1] == y
        || state.grid_view.can_index([x, y, state.current_chunk_z])
}

/// Whether the column at cursor `(cx, cy)`, or `(cx_mip, cy_mip)` at a
/// coarser level, can be found in a chunk grid.
fn grid_is_ok(
    state: &GrouscanState<'_>,
    cx: i32,
    cy: i32,
    cx_mip: i32,
    cy_mip: i32,
    Ghost(s): Ghost<Ray<'_>>,
) -> (r: bool)
    requires
        s == (Ray {
            cx,
            cy,
            cx_mip,
            cy_mip,
            c_idx: s.c_idx,
            wall_lane: s.wall_lane,
            ixy_sptr_col_idx: s.ixy_sptr_col_idx,
            ..state@
        }),
        s.grid_view.chunk_grid is Some,
        0 <= s.gmipcnt < 8,
    ensures
        r == step::refreshed_ok(s),
{
    let log2: u32 = state.chunk_size_xy_log2;
    if state.gmipcnt == 0 {
        return log2 < 32 && move_is_ok(state, cx >> log2, cy >> log2, Ghost(s));
    }
    let level: u32 = state.gmipcnt as u32;
    if log2 < level || log2 - level >= 32 {
        return false;
    }
    let (x, y) = (cx_mip >> (log2 - level), cy_mip >> (log2 - level));
    if !move_is_ok(state, x, y, Ghost(s)) {
        return false;
    }
    let mut bases: &[usize] = state.mip_base_offsets;
    if !(state.current_chunk_idx_xy[0] == x && state.current_chunk_idx_xy[1] == y) {
        if let Some(chunk) = state.grid_view.chunk_at_xyz([x, y, state.current_chunk_z]) {
            bases = chunk.mip_base_offsets;
        }
    }
    let ghost t = step::level_chunk(s);
    assert(t.mip_base_offsets == bases@);
    if state.gmipcnt as usize >= bases.len() {
        return false;
    }
    let mask: i32 = level_mask(state.chunk_size_xy >> level, state.chunk_size_xy, level);
    level_index_is_ok(state, bases, cx_mip & mask, cy_mip & mask, Ghost(t))
}

/// Without an overflow in the screen table a column narrows safely.
proof fn lemma_column_narrows(r: Ray)
    requires
        order::table_fits(r.gylookup),
        0 <= r.ce_idx,
    ensures
        step::column_narrowed_ok(r) == (r.gmipcnt > 0 && r.narrowing.per_column ==> r.ce_idx < 256),
{
    let e = r.cf[r.ce_idx];
    let f = step::narrow_right(r, e, r.gx);
    if 0 <= e.z1 < r.gylookup.len() {
        laws::lemma_cross_in_range(e.cx1, e.cy1, r.gx, r.gylookup[e.z1 as int]);
    }
    if 0 <= f.z0 < r.gylookup.len() {
        laws::lemma_cross_in_range(f.cx0, f.cy0, r.gx, r.gylookup[f.z0 as int]);
    }
}

fn step_is_ok(state: &GrouscanState<'_>) -> (r: bool)
    requires
        order::table_fits(state@.gylookup),
    ensures
        r == step::after_delete_kept_ok(state@),
{
    if state.c_idx == 0 || state.c_idx > CF_SEED_INDEX {
        return true;
    }
    let ghost r0 = state@;
    let ghost a = Ray { c_idx: r0.c_idx - 1, ..r0 };
    if state.lane >= 2 || state.gmipcnt < 0 || state.gmipcnt >= 8 {
        return false;
    }
    let (mut cx, mut cy, mut cx_mip, mut cy_mip) = (
        state.cx,
        state.cy,
        state.cx_mip,
        state.cy_mip,
    );
    if state.lane == 0 {
        let d: i32 = sign_of(state.scratch.gixy[0]);
        if !moves(cx, cx_mip, d) {
            return false;
        }
        cx = cx + d;
        cx_mip = cx_mip + d;
    } else {
        let d: i32 = sign_of(state.scratch.gixy[1]);
        if !moves(cy, cy_mip, d) {
            return false;
        }
        cy = cy + d;
        cy_mip = cy_mip + d;
    }
    let ghost b = step::stepped(a);
    let found: bool = match state.grid_view.chunk_grid {
        None => single_is_ok(state, cx_mip, cy_mip, Ghost(b)),
        Some(_) => grid_is_ok(state, cx, cy, cx_mip, cy_mip, Ghost(b)),
    };
    if !found {
        return false;
    }
    let near: usize = if state.scratch.gpz[1] < state.scratch.gpz[0] {
        1
    } else {
        0
    };
    proof {
        lemma_column_narrows(step::entered(step::next_column(r0)));
    }
    state.scratch.gpz[near] as u32 > state.ngxmax as u32 || !(state.gmipcnt > 0
        && state.narrowing.per_column) || state.ce_idx < 256
}

// ---------------------------------------------------------------------
// The level change.

/// Without an overflow in the screen table one finer column narrows a
/// segment safely.
proof fn lemma_once_ok(e: CfType, gi0: i32, gi1: i32, gylookup: Seq<i32>, ogx: i32)
    requires
        order::table_fits(gylookup),
    ensures
        cf_narrow::once_ok(e, gi0, gi1, gylookup, ogx),
    decreases arith::max_int(e.i1 - e.i0, 0),
{
    if cf_narrow::on_table(e, gylookup) {
        laws::lemma_cross_in_range(e.cx1, e.cy1, ogx, gylookup[e.z1 as int]);
    }
    if cf_narrow::gives_up(e, gylookup, ogx) {
        lemma_once_ok(cf_narrow::one_less(e, gi0, gi1), gi0, gi1, gylookup, ogx);
    }
}

/// So do any number of them.
pub proof fn lemma_narrow_ok(
    e: CfType,
    gpz: Seq<i32>,
    gdz: Seq<i32>,
    gi0: i32,
    gi1: i32,
    gylookup: Seq<i32>,
    n: nat,
)
    requires
        order::table_fits(gylookup),
    ensures
        cf_narrow::narrow_ok(e, gpz, gdz, gi0, gi1, gylookup, n),
    decreases n,
{
    if n > 0 {
        let ogx = cf_narrow::whole_depth(gpz[cf_narrow::near_lane(gpz)]);
        lemma_once_ok(e, gi0, gi1, gylookup, ogx);
        lemma_narrow_ok(
            cf_narrow::narrow_once(e, gi0, gi1, gylookup, ogx),
            cf_narrow::crossed(gpz, gdz),
            gdz,
            gi0,
            gi1,
            gylookup,
            (n - 1) as nat,
        );
    }
}

/// The narrowing before a level change is safe and keeps all heights.
proof fn lemma_level_narrows(r: Ray, p: int)
    requires
        order::table_fits(r.gylookup),
        r.cf.len() == 256,
        0 <= p < 256,
    ensures
        cf_narrow::narrow_ok(
            r.cf[p],
            r.gpz,
            cf_narrow::halves(r.gdz),
            r.gi0,
            r.gi1,
            r.gylookup,
            cf_narrow::virtual_steps(r.gmipcnt as u32),
        ),
        mip::level_narrowed(r).cf[p].z1 == r.cf[p].z1,
{
    let gdz = cf_narrow::halves(r.gdz);
    let n = cf_narrow::virtual_steps(r.gmipcnt as u32);
    lemma_narrow_ok(r.cf[p], r.gpz, gdz, r.gi0, r.gi1, r.gylookup, n);
    cf_narrow::lemma_narrowing_keeps(r.cf[p], r.gpz, gdz, r.gi0, r.gi1, r.gylookup, n);
}

/// Whether the heights of all open segments can be halved.
fn heights_are_ok(state: &GrouscanState<'_>) -> (r: bool)
    requires
        order::table_fits(state@.gylookup),
        127 <= state@.ce_idx < 256,
    ensures
        r == forall|p: int|
            mip::open_at(state@, p) ==> (#[trigger] mip::level_narrowed(state@).cf[p]).z1
                < i32::MAX,
{
    let ghost r0 = state@;
    let ghost n = mip::level_narrowed(r0);
    let mut q: usize = CF_SEED_INDEX;
    while q <= state.ce_idx
        invariant
            r0 == state@,
            n == mip::level_narrowed(r0),
            order::table_fits(r0.gylookup),
            r0.cf.len() == 256,
            r0.ce_idx < 256,
            CF_SEED_INDEX <= q <= r0.ce_idx + 1,
            forall|p: int| CF_SEED_INDEX <= p < q ==> (#[trigger] n.cf[p]).z1 < i32::MAX,
        decreases r0.ce_idx + 1 - q,
    {
        proof {
            lemma_level_narrows(r0, q as int);
        }
        if state.scratch.cf[q].z1 == i32::MAX {
            assert(mip::open_at(r0, q as int));
            assert(n.cf[q as int].z1 == i32::MAX);
            return false;
        }
        q = q + 1;
    }
    true
}

/// Whether the position of the coarser column is a machine integer.
fn coarser_index_is_ok(state: &GrouscanState<'_>) -> (r: bool)
    requires
        0 <= state@.gmipcnt < 8,
        state@.gmipcnt + 1 < state@.mip_base_offsets.len(),
        state@.mip_base_offsets[state@.gmipcnt as int] <= state@.ixy_sptr_col_idx,
        mip::old_side(state@) > 0,
    ensures
        r == (mip::coarsened(mip::level_narrowed(state@)).ixy_sptr_col_idx <= usize::MAX),
{
    let level: u32 = state.gmipcnt as u32;
    let side: usize = (state.vsid >> level) as usize;
    let col: usize = state.ixy_sptr_col_idx - state.mip_base_offsets[level as usize];
    let base: u128 = state.mip_base_offsets[level as usize + 1] as u128;
    let (x, y) = ((col % side) as u128, (col / side) as u128);
    let (rows, half) = (y / 2, side as u128 / 2);
    assert(rows * half <= 0x1_0000_0000_0000_0000 * 0x1_0000_0000) by (nonlinear_arith)
        requires
            rows <= 0x1_0000_0000_0000_0000,
            half <= 0x1_0000_0000,
    ;
    base + rows * half + x / 2 <= usize::MAX as u128
}

fn remip_is_ok(state: &GrouscanState<'_>) -> (r: bool)
    requires
        order::table_fits(state@.gylookup),
    ensures
        r == mip::remip_ok(state@),
{
    if state.gmipcnt < 0 || state.gmipcnt >= 8 {
        return false;
    }
    if (state.gmipcnt + 1) as u32 >= state.gmipnum {
        return true;
    }
    let ghost r0 = state@;
    let level: u32 = state.gmipcnt as u32;
    let side: u32 = state.vsid >> level;
    if state.ce_idx < 127 || state.ce_idx >= 256 || level as usize + 1
        >= state.mip_base_offsets.len() || state.mip_base_offsets[level as usize]
        > state.ixy_sptr_col_idx || side == 0 || side & (side - 1) != 0 {
        return false;
    }
    let chunks_z: u32 = match state.grid_view.chunk_grid {
        Some(cg) => cg.chunks_z,
        None => 1,
    };
    proof {
        assert forall|p: int| mip::open_at(r0, p) implies cf_narrow::narrow_ok(
            #[trigger] r0.cf[p],
            r0.gpz,
            cf_narrow::halves(r0.gdz),
            r0.gi0,
            r0.gi1,
            r0.gylookup,
            cf_narrow::virtual_steps(r0.gmipcnt as u32),
        ) by {
            lemma_level_narrows(r0, p);
        }
    }
    chunks_z <= u32::MAX / 512 && state.z1 < i32::MAX && coarser_index_is_ok(state)
        && heights_are_ok(state)
}

// ---------------------------------------------------------------------
// The sky.

/// Whether the slots of a segment can be counted.
spec fn countable(e: CfType) -> bool {
    e.i0 <= e.i1 ==> e.i1 - e.i0 <= isize::MAX
}

/// Without an overflow in the latitude table, the sky fits where the slots
/// of the open segments can be counted.
proof fn lemma_sky_spans(r: Ray, lat: Seq<i32>, first: int, q: int)
    requires
        order::lat_fits(lat),
        0 <= q,
    ensures
        skyfill::textured_sky_ok(r, lat, first, q) == forall|p: int|
            q <= p <= r.ce_idx ==> countable(#[trigger] r.cf[p]),
    decreases r.ce_idx + 1 - q,
{
    if q <= r.ce_idx {
        let e = r.cf[q];
        assert forall|j: nat| j < skyfill::slots(e) implies skyfill::sky_column_ok(
            lat,
            #[trigger] skyfill::slot_column(r, lat, e, first, j),
            arith::wrap32(skyfill::far_x(r, e) - (j + 1) * r.gi0),
            arith::wrap32(skyfill::far_y(r, e) - (j + 1) * r.gi1),
        ) by {
            order::lemma_sky_column_ok(
                lat,
                skyfill::slot_column(r, lat, e, first, j),
                arith::wrap32(skyfill::far_x(r, e) - (j + 1) * r.gi0),
                arith::wrap32(skyfill::far_y(r, e) - (j + 1) * r.gi1),
            );
        }
        let next = skyfill::slot_column(r, lat, e, first, skyfill::slots(e));
        lemma_sky_spans(r, lat, next, q + 1);
        assert(skyfill::segment_sky_ok(r, lat, e, first) == countable(e));
        if forall|p: int| q + 1 <= p <= r.ce_idx ==> countable(#[trigger] r.cf[p]) {
            assert(countable(e) ==> forall|p: int|
                q <= p <= r.ce_idx ==> countable(#[trigger] r.cf[p]));
        }
    }
}

fn sky_is_ok(state: &GrouscanState<'_>) -> (r: bool)
    requires
        order::sky_fits(state@.sky),
    ensures
        r == skyfill::start_sky_ok(state@),
{
    if state.ce_idx >= 256 {
        return false;
    }
    if state.sky.is_none() || state.scratch.sky_off == 0 || state.ce_idx < CF_SEED_INDEX {
        return true;
    }
    let ghost r0 = state@;
    proof {
        let sky = r0.sky->0;
        lemma_sky_spans(r0, sky.lat@, sky.xsiz_post as int, CF_SEED_INDEX as int);
    }
    let mut q: usize = CF_SEED_INDEX;
    while q <= state.ce_idx
        invariant
            r0 == state@,
            r0.cf.len() == 256,
            r0.ce_idx < 256,
            CF_SEED_INDEX <= q <= r0.ce_idx + 1,
            skyfill::start_sky_ok(r0) == forall|p: int|
                CF_SEED_INDEX <= p <= r0.ce_idx ==> countable(#[trigger] r0.cf[p]),
            forall|p: int| CF_SEED_INDEX <= p < q ==> countable(#[trigger] r0.cf[p]),
        decreases r0.ce_idx + 1 - q,
    {
        let e: CfType = state.scratch.cf[q];
        if e.i1 as i128 - e.i0 as i128 > isize::MAX as i128 {
            assert(!countable(r0.cf[q as int]));
            return false;
        }
        q = q + 1;
    }
    true
}

/// Tells whether the next phase stays inside the tables and machine
/// integers, where no cross product of the scan overflows.
pub fn phase_is_ok(state: &GrouscanState<'_>, phase: Phase) -> (r: bool)
    requires
        order::tables_fit(state@),
    ensures
        r == run::step_ok(state@, phase),
{
    match phase {
        Phase::DrawFwall => fwall_is_ok(state),
        Phase::DrawCwall => cwall_is_ok(state),
        Phase::DrawCeil => ceil_is_ok(state),
        Phase::DrawFlor => flor_is_ok(state),
        Phase::DeleteZ => state.ce_idx < 256,
        Phase::AfterDeleteKeptPresync => step_is_ok(state),
        Phase::SyncFromPresync => state.c_idx < 256,
        Phase::Intoslabloop => into_slab_is_ok(state),
        Phase::Remiporend => remip_is_ok(state),
        Phase::Startsky => sky_is_ok(state),
        _ => true,
    }
}

// ---------------------------------------------------------------------
// What every phase keeps.

proof fn lemma_fwall_rows_table(r: Ray)
    ensures
        walls::fwall_rows(r).0.gylookup == r.gylookup,
        walls::fwall_rows(r).0.sky == r.sky,
    decreases arith::max_int(r.z1 - walls::floor_top(r), 0),
{
    let (c, ready) = walls::fwall_row(r);
    if r.z1 > walls::floor_top(r) && ready {
        let d = walls::right_after(c, walls::right_len(c));
        assert(walls::floor_top(d) == walls::floor_top(r));
        lemma_fwall_rows_table(d);
    }
}

proof fn lemma_cwall_rows_table(r: Ray)
    ensures
        walls::cwall_rows(r).0.gylookup == r.gylookup,
        walls::cwall_rows(r).0.sky == r.sky,
    decreases arith::max_int(walls::ceiling_z(r) - r.z0, 0),
{
    let (c, ready) = walls::cwall_row(r);
    if r.z0 < walls::ceiling_z(r) <= i32::MAX && ready {
        let d = walls::left_after(c, walls::left_len(c));
        assert(walls::ceiling_z(d) == walls::ceiling_z(r));
        lemma_cwall_rows_table(d);
    }
}

/// No phase makes a cross product of the scan overflow where none did: the
/// sky stays, and of the screen table only a part is passed on.
pub proof fn lemma_phase_keeps_tables(r: Ray, phase: Phase)
    requires
        order::tables_fit(r),
    ensures
        order::tables_fit(run::step_phase(r, phase).0),
{
    match phase {
        Phase::DrawFwall => {
            lemma_fwall_rows_table(Ray { ebx: fill::current(r).i1 as int, ..r });
        },
        Phase::DrawCwall => {
            let a = Ray { z1: walls::floor_top(r) as i32, ..r };
            lemma_cwall_rows_table(Ray { ebx: fill::current(r).i0 as int, ..a });
        },
        Phase::Remiporend => {
            let n = mip::level_narrowed(r);
            let g = mip::coarsened(n).gylookup;
            assert forall|i: int| 0 <= i < g.len() implies arith::low16((#[trigger] g[i]) as int)
                != -0x8000 by {
                let k = arith::min_int(mip::table_len(n), n.gylookup.len() as int);
                assert(g[i] == r.gylookup[i + k]);
            }
        },
        _ => {},
    }
}

} // verus!
