//! What every phase of a scan keeps: positions on the segment stack, and
//! numbers that are small enough for the phases that are still to come.
use crate::arith;
use crate::grid_view::{ChunkGrid, GridView};
use crate::grouscan::columns;
use crate::grouscan::fill;
use crate::grouscan::laws;
use crate::grouscan::run;
use crate::grouscan::skyfill;
use crate::grouscan::stack;
use crate::grouscan::step;
use crate::grouscan::walls;
use crate::grouscan::{
    CfType, GrouscanInputs, Phase, Ray, SkyRef, CF_SEED_INDEX, CF_TOP_INDEX,
};
use crate::rasterizer::ScanScratch;
use vstd::prelude::*;

verus! {

/// Whether a height is far from the ends of its range.
pub open spec fn low_height(z: i32) -> bool {
    -0x4000_0000 <= z <= 0x4000_0000
}

/// Whether a slot is far enough from the ends of its range for `k` more
/// phases.
pub open spec fn slot_fits(i: isize, k: nat) -> bool {
    -0x2000_0000 + 64 * k <= i <= 0x2000_0000 - 64 * k
}

/// Whether the slots and heights of a segment are.
pub open spec fn segment_fits(e: CfType, k: nat) -> bool {
    slot_fits(e.i0, k) && slot_fits(e.i1, k) && low_height(e.z0) && low_height(e.z1)
}

/// Whether a column coordinate is.
pub open spec fn cursor_fits(c: i32, k: nat) -> bool {
    -0x4000_0000 + k <= c <= 0x4000_0000 - k
}

/// Whether no screen position of a table makes a cross product overflow:
/// none is the lowest there is.
pub open spec fn table_fits(gylookup: Seq<i32>) -> bool {
    forall|i: int| 0 <= i < gylookup.len() ==> arith::low16((#[trigger] gylookup[i]) as int)
        != -0x8000
}

/// Whether the chunks of the grid can be looked up wherever the ray may
/// get to.
pub open spec fn grid_fits(r: Ray, k: nat) -> bool {
    r.grid_view.chunk_grid matches Some(cg) ==> {
        &&& r.chunk_size_xy_log2 < 32
        &&& r.chunk_size_z <= 256
        &&& i32::MIN <= cg.origin_chunk_z + (cg.chunks_z as i32) <= i32::MAX
        &&& r.current_chunk_idx_xy.len() == 2
        &&& cursor_fits(r.current_chunk_idx_xy[0], 0) && cursor_fits(r.current_chunk_idx_xy[1], 0)
        &&& cursor_fits(r.current_chunk_z, k)
        &&& forall|x: i32, y: i32, z: i32|
            cursor_fits(x, 0) && cursor_fits(y, 0) && cursor_fits(z, 0)
                ==> #[trigger] r.grid_view.chunk_index_fits(x as int, y as int, z as int)
    }
}

/// Whether no entry of a sky's latitude table makes a cross product
/// overflow.
pub open spec fn sky_fits(sky: Option<SkyRef>) -> bool {
    sky matches Some(s) ==> lat_fits(s.lat@)
}

/// Whether no entry of a latitude table does.
pub open spec fn lat_fits(lat: Seq<i32>) -> bool {
    forall|i: int| 0 <= i < lat.len() ==> arith::high16(#[trigger] lat[i]) != -0x8000
}

/// Whether no cross product of a scan overflows.
pub open spec fn tables_fit(r: Ray) -> bool {
    table_fits(r.gylookup) && sky_fits(r.sky)
}

/// Whether a scan of one level is in order for `k` more phases.
pub open spec fn in_order(r: Ray, k: nat) -> bool {
    &&& k <= 0x10_0000
    &&& r.cf.len() == 256 && r.gpz.len() == 2 && r.gdz.len() == 2
    &&& r.gmipcnt == 0 && r.gmipnum <= 1
    &&& CF_SEED_INDEX <= r.ce_idx <= CF_TOP_INDEX
    &&& 0 <= r.lane < 2 && 0 <= r.wall_lane < 2
    &&& 0 <= r.vptr_offset && 0 <= r.c_presync_idx
    &&& -0x2000_0000 <= r.chunk_world_z_base <= 0x2000_0000 - 256 * k
    &&& low_height(r.z0) && low_height(r.z1)
    &&& forall|p: int| 0 <= p < 256 ==> segment_fits(#[trigger] r.cf[p], k)
    &&& cursor_fits(r.cx, k) && cursor_fits(r.cy, k)
    &&& cursor_fits(r.cx_mip, k) && cursor_fits(r.cy_mip, k)
    &&& grid_fits(r, k)
    &&& tables_fit(r)
}

/// Whether a scan is in order before a phase, for it and `k` more: the
/// current segment is on the stack, or just above it where one was taken
/// off.
pub open spec fn in_order_at(r: Ray, phase: Phase, k: nat) -> bool {
    &&& in_order(r, k)
    &&& match phase {
        Phase::Remiporend | Phase::Startsky | Phase::Done => true,
        Phase::AfterDelete | Phase::AfterDeleteKeptPresync => CF_SEED_INDEX <= r.c_idx <= r.ce_idx
            + 1,
        _ => CF_SEED_INDEX <= r.c_idx <= r.ce_idx,
    }
}

/// At level 0 the height of a layer's first voxel is its height.
proof fn lemma_level_base(r: Ray)
    requires
        r.gmipcnt == 0,
    ensures
        columns::level_base(r) == r.chunk_world_z_base,
{
    arith::lemma_shr(r.chunk_world_z_base, 0);
    vstd::arithmetic::power2::lemma2_to64();
}

/// The heights of the current column are far from the ends of their range.
proof fn lemma_slab_heights(r: Ray, v: int, byte: int)
    requires
        r.gmipcnt == 0,
        -0x2000_0000 <= r.chunk_world_z_base <= 0x2000_0000,
    ensures
        columns::level_ok(r),
        -0x2000_0000 <= columns::slab_z(r, v, byte) <= 0x2000_0000 + 0xff,
{
    lemma_level_base(r);
}

/// The rows of the wall below stay inside machine integers.
pub proof fn lemma_fwall_rows_ok(r: Ray)
    requires
        table_fits(r.gylookup),
    ensures
        walls::fwall_rows_ok(r),
    decreases arith::max_int(r.z1 - walls::floor_top(r), 0),
{
    let (c, ready) = walls::fwall_row(r);
    if r.z1 > walls::floor_top(r) && ready {
        laws::lemma_edge_in_range(
            c.cx1,
            c.cy1,
            -c.gi0 as int,
            -c.gi1 as int,
            c.ogx,
            c.gy_raw,
            false,
            walls::right_room(c),
        );
        let d = walls::right_after(c, walls::right_len(c));
        assert(walls::floor_top(d) == walls::floor_top(r));
        lemma_fwall_rows_ok(d);
    }
}

/// What the rows of the wall below keep.
proof fn lemma_fwall_rows_keep(r: Ray, k: nat)
    requires
        in_order(r, k + 1),
        CF_SEED_INDEX <= r.c_idx <= r.ce_idx,
        walls::floor_top(r) < r.z1,
        fill::current(r).i0 <= r.ebx <= fill::current(r).i1 || r.ebx == fill::current(r).i1,
    ensures
        ({
            let (s, phase) = walls::fwall_rows(r);
            &&& in_order(s, k)
            &&& s.c_idx == r.c_idx && s.ce_idx == r.ce_idx
            &&& phase == Phase::DrawCwall || phase == Phase::PreDeleteZ
        }),
    decreases r.z1 - walls::floor_top(r),
{
    let (c, ready) = walls::fwall_row(r);
    lemma_slab_heights(r, r.vptr_offset, 1);
    assert(segment_fits(r.cf[r.c_idx], k + 1));
    if ready {
        let n = walls::right_len(c);
        let d = walls::right_after(c, n);
        laws::lemma_edge_len_bound(
            c.cx1,
            c.cy1,
            -c.gi0 as int,
            -c.gi1 as int,
            c.ogx,
            c.gy_raw,
            false,
            walls::right_room(c),
        );
        assert(walls::floor_top(d) == walls::floor_top(r));
        if n != walls::right_room(c) && d.z1 != walls::floor_top(r) {
            assert(in_order(d, k + 1));
            lemma_fwall_rows_keep(d, k);
        }
    }
}

/// The wall below.
proof fn lemma_fwall_keeps(r: Ray, k: nat)
    requires
        in_order_at(r, Phase::DrawFwall, k + 1),
    ensures
        walls::draw_fwall_ok(r),
        in_order_at(walls::draw_fwall(r).0, walls::draw_fwall(r).1, k),
{
    lemma_slab_heights(r, r.vptr_offset, 1);
    assert(segment_fits(r.cf[r.c_idx], k + 1));
    let s = Ray { ebx: fill::current(r).i1 as int, ..r };
    assert(walls::floor_top(s) == walls::floor_top(r));
    lemma_fwall_rows_ok(s);
    if walls::has_fwall(r) {
        assert(in_order(s, k + 1));
        lemma_fwall_rows_keep(s, k);
    }
}

/// The rows of the wall above stay inside machine integers.
pub proof fn lemma_cwall_rows_ok(r: Ray)
    requires
        table_fits(r.gylookup),
    ensures
        walls::cwall_rows_ok(r),
    decreases arith::max_int(walls::ceiling_z(r) - r.z0, 0),
{
    let (c, ready) = walls::cwall_row(r);
    if r.z0 < walls::ceiling_z(r) <= i32::MAX && ready {
        laws::lemma_edge_in_range(
            c.cx0,
            c.cy0,
            c.gi0 as int,
            c.gi1 as int,
            c.ogx,
            c.gy_raw,
            true,
            walls::left_room(c),
        );
        let d = walls::left_after(c, walls::left_len(c));
        assert(walls::ceiling_z(d) == walls::ceiling_z(r));
        lemma_cwall_rows_ok(d);
    }
}

/// What the rows of the wall above keep.
proof fn lemma_cwall_rows_keep(r: Ray, k: nat)
    requires
        in_order(r, k + 1),
        CF_SEED_INDEX <= r.c_idx <= r.ce_idx,
        fill::current(r).i0 <= r.ebx <= fill::current(r).i1 || r.ebx == fill::current(r).i0,
    ensures
        in_order_at(walls::cwall_rows(r).0, walls::cwall_rows(r).1, k),
    decreases arith::max_int(walls::ceiling_z(r) - r.z0, 0),
{
    let (c, ready) = walls::cwall_row(r);
    lemma_slab_heights(r, r.vptr_offset, 3);
    assert(segment_fits(r.cf[r.c_idx], k + 1));
    if r.z0 < walls::ceiling_z(r) && ready {
        let n = walls::left_len(c);
        let d = walls::left_after(c, n);
        laws::lemma_edge_len_bound(
            c.cx0,
            c.cy0,
            c.gi0 as int,
            c.gi1 as int,
            c.ogx,
            c.gy_raw,
            true,
            walls::left_room(c),
        );
        assert(walls::ceiling_z(d) == walls::ceiling_z(r));
        if n != walls::left_room(c) && d.z0 != walls::ceiling_z(r) {
            assert(in_order(d, k + 1));
            lemma_cwall_rows_keep(d, k);
        }
    }
}

/// The wall above.
proof fn lemma_cwall_keeps(r: Ray, k: nat)
    requires
        in_order_at(r, Phase::DrawCwall, k + 1),
    ensures
        walls::draw_cwall_ok(r),
        in_order_at(walls::draw_cwall(r).0, walls::draw_cwall(r).1, k),
{
    lemma_slab_heights(r, r.vptr_offset, 1);
    lemma_slab_heights(r, r.vptr_offset, 3);
    assert(segment_fits(r.cf[r.c_idx], k + 1));
    let a = Ray { z1: walls::floor_top(r) as i32, ..r };
    let s = Ray { ebx: fill::current(r).i0 as int, ..a };
    lemma_cwall_rows_ok(s);
    assert(in_order(s, k + 1));
    lemma_cwall_rows_keep(s, k);
}

/// The ceiling.
proof fn lemma_ceil_keeps(r: Ray, k: nat)
    requires
        in_order_at(r, Phase::DrawCeil, k + 1),
    ensures
        fill::draw_ceil_ok(r),
        in_order_at(fill::draw_ceil(r).0, fill::draw_ceil(r).1, k),
{
    let c = fill::current(r);
    assert(segment_fits(r.cf[r.c_idx], k + 1));
    if fill::has_ceiling(r) {
        let gy = r.gylookup[r.z0 as int];
        let limit = fill::room(c.i0 as int, c.i1 as int);
        laws::lemma_edge_in_range(r.cx0, r.cy0, r.gi0 as int, r.gi1 as int, r.ogx, gy, true, limit);
        laws::lemma_edge_len_bound(r.cx0, r.cy0, r.gi0 as int, r.gi1 as int, r.ogx, gy, true, limit);
    }
}

/// The floor.
proof fn lemma_flor_keeps(r: Ray, k: nat)
    requires
        in_order_at(r, Phase::DrawFlor, k + 1),
    ensures
        fill::draw_flor_ok(r),
        in_order_at(fill::draw_flor(r).0, fill::draw_flor(r).1, k),
{
    let c = fill::current(r);
    assert(segment_fits(r.cf[r.c_idx], k + 1));
    if r.grid_view.chunk_grid is Some {
        assert(r.grid_view.chunk_index_fits(
            r.current_chunk_idx_xy[0] as int,
            r.current_chunk_idx_xy[1] as int,
            (r.current_chunk_z + 1) as i32 as int,
        ));
    }
    if fill::has_floor(r) {
        let gy = r.gylookup[r.z1 as int];
        let limit = fill::room(c.i0 as int, c.i1 as int);
        let dx = -r.gi0 as int;
        let dy = -r.gi1 as int;
        laws::lemma_edge_in_range(r.cx1, r.cy1, dx, dy, r.ogx, gy, false, limit);
        laws::lemma_edge_len_bound(r.cx1, r.cy1, dx, dy, r.ogx, gy, false, limit);
    }
}

/// Taking a segment off the stack.
proof fn lemma_delete_keeps(r: Ray, k: nat)
    requires
        in_order_at(r, Phase::DeleteZ, k + 1),
    ensures
        in_order_at(stack::delete_z(r).0, stack::delete_z(r).1, k),
{
    let s = stack::delete_z(r).0;
    assert forall|p: int| 0 <= p < 256 implies segment_fits(#[trigger] s.cf[p], k) by {
        assert(segment_fits(r.cf[p], k + 1));
        if p + 1 < 256 {
            assert(segment_fits(r.cf[p + 1], k + 1));
        }
    }
}

/// Taking the values of another segment.
proof fn lemma_sync_keeps(r: Ray, k: nat)
    requires
        in_order_at(r, Phase::SyncFromPresync, k + 1),
    ensures
        in_order_at(stack::sync_from_presync(r), Phase::Skipixy3, k),
{
    let s = stack::sync_from_presync(r);
    assert forall|p: int| 0 <= p < 256 implies segment_fits(#[trigger] s.cf[p], k) by {
        assert(segment_fits(r.cf[p], k + 1));
    }
    assert(segment_fits(s.cf[r.c_idx], k));
}

/// A split passes over at most the slots of the segment, and a few more.
proof fn lemma_split_steps(r: Ray)
    ensures
        0 <= stack::big_steps(r) <= stack::big_step_limit(r),
        0 <= stack::split_steps(r) <= arith::max_int(
            fill::current(r).i1 - fill::current(r).i0,
            0,
        ) + 33,
{
    laws::lemma_edge_len_bound(
        arith::wrap32(r.cx1 - 16 * r.gi0),
        arith::wrap32(r.cy1 - 16 * r.gi1),
        -16 * r.gi0,
        -16 * r.gi1,
        r.ogx,
        r.gy_raw,
        false,
        stack::big_step_limit(r),
    );
    let m = stack::edge_moved(r, 16 * stack::big_steps(r));
    laws::lemma_edge_len_bound(
        m.cx1,
        m.cy1,
        -r.gi0 as int,
        -r.gi1 as int,
        r.ogx,
        r.gy_raw,
        false,
        17,
    );
}

/// The search for where to split stays inside machine integers.
pub proof fn lemma_split_searches_ok(r: Ray, v2: int)
    requires
        table_fits(r.gylookup),
        0 <= v2 + 1 < r.gylookup.len(),
    ensures
        ({
            let a = fill::with_current(r, stack::saved_segment(r, fill::current(r)));
            let b = Ray { gy_raw: r.gylookup[v2 + 1], ..a };
            let m = stack::edge_moved(b, 16 * stack::big_steps(b));
            &&& fill::edge_ok(
                arith::wrap32(r.cx1 - 16 * r.gi0),
                arith::wrap32(r.cy1 - 16 * r.gi1),
                -16 * r.gi0,
                -16 * r.gi1,
                r.ogx,
                b.gy_raw,
                false,
                stack::big_step_limit(b),
            )
            &&& fill::edge_ok(
                m.cx1,
                m.cy1,
                -r.gi0 as int,
                -r.gi1 as int,
                r.ogx,
                b.gy_raw,
                false,
                17,
            )
        }),
{
    let a = fill::with_current(r, stack::saved_segment(r, fill::current(r)));
    let b = Ray { gy_raw: r.gylookup[v2 + 1], ..a };
    let m = stack::edge_moved(b, 16 * stack::big_steps(b));
    laws::lemma_edge_in_range(
        arith::wrap32(r.cx1 - 16 * r.gi0),
        arith::wrap32(r.cy1 - 16 * r.gi1),
        -16 * r.gi0,
        -16 * r.gi1,
        r.ogx,
        b.gy_raw,
        false,
        stack::big_step_limit(b),
    );
    laws::lemma_edge_in_range(
        m.cx1,
        m.cy1,
        -r.gi0 as int,
        -r.gi1 as int,
        r.ogx,
        b.gy_raw,
        false,
        17,
    );
}

/// Splitting a segment.
proof fn lemma_split_keeps(r: Ray, v2: int, next_v3: i32, k: nat)
    requires
        in_order_at(r, Phase::Intoslabloop, k + 1),
        v2 < i32::MAX,
        low_height(next_v3),
    ensures
        stack::slab_split_ok(r, v2),
        in_order_at(stack::slab_split(r, v2, next_v3).0, stack::slab_split(r, v2, next_v3).1, k),
{
    assert(segment_fits(r.cf[r.c_idx], k + 1));
    let a = fill::with_current(r, stack::saved_segment(r, fill::current(r)));
    if 0 <= v2 + 1 < r.gylookup.len() {
        let b = Ray { gy_raw: r.gylookup[v2 + 1], ..a };
        lemma_split_steps(b);
        lemma_split_searches_ok(r, v2);
    }
    let s = stack::slab_split(r, v2, next_v3).0;
    assert forall|p: int| 0 <= p < 256 implies segment_fits(#[trigger] s.cf[p], k) by {
        assert(segment_fits(r.cf[p], k + 1));
        if 0 < p {
            assert(segment_fits(r.cf[p - 1], k + 1));
        }
    }
}

/// Looking at a slab.
proof fn lemma_into_slab_keeps(r: Ray, k: nat)
    requires
        in_order_at(r, Phase::Intoslabloop, k + 1),
    ensures
        stack::into_slab_ok(r),
        in_order_at(stack::into_slab(r).0, stack::into_slab(r).1, k),
{
    let v0 = columns::column_byte(r, r.vptr_offset);
    let next = r.vptr_offset + v0 * 4;
    let v2 = columns::slab_z(r, r.vptr_offset, 2);
    let next_v3 = columns::slab_z(r, next, 3);
    lemma_slab_heights(r, r.vptr_offset, 2);
    lemma_slab_heights(r, next, 3);
    if 0 <= v2 + 1 < r.gylookup.len() {
        laws::lemma_cross_in_range(r.cx0, r.cy0, r.ogx, r.gylookup[v2 + 1]);
        if 0 <= next_v3 < r.gylookup.len() {
            let b = Ray { gy_raw: r.gylookup[next_v3], ..r };
            laws::lemma_cross_in_range(r.cx1, r.cy1, r.ogx, b.gy_raw);
            assert(in_order_at(b, Phase::Intoslabloop, k + 1));
            lemma_split_keeps(b, v2, next_v3 as i32, k);
        }
    }
}

/// Halving a number again and again keeps it small.
pub proof fn lemma_shifted_fits(c: i32, j: u32)
    requires
        cursor_fits(c, 0),
        j < 32,
    ensures
        cursor_fits(c >> j, 0),
{
    assert(-0x4000_0000 <= (c >> j) <= 0x4000_0000) by (bit_vector)
        requires
            -0x4000_0000 <= c <= 0x4000_0000,
            j < 32,
    ;
}

/// The next column.
proof fn lemma_step_keeps(r: Ray, k: nat)
    requires
        in_order_at(r, Phase::AfterDeleteKeptPresync, k + 1),
    ensures
        step::after_delete_kept_ok(r),
        in_order_at(step::after_delete_kept(r).0, step::after_delete_kept(r).1, k),
{
    if r.c_idx == CF_SEED_INDEX {
        let a = Ray { c_idx: r.c_idx - 1, ..r };
        let b = step::stepped(a);
        assert(in_order(b, k));
        if r.grid_view.chunk_grid is Some {
            let log2 = r.chunk_size_xy_log2;
            lemma_shifted_fits(b.cx, log2);
            lemma_shifted_fits(b.cy, log2);
            assert(b.grid_view.chunk_index_fits(
                (b.cx >> log2) as int,
                (b.cy >> log2) as int,
                b.current_chunk_z as int,
            ));
        }
        let c = step::refreshed(b);
        assert(in_order(c, k));
        let s = step::at_column(c);
        assert(in_order(s, k));
    }
}

/// The search for one column of the sky.
pub proof fn lemma_sky_column_ok(lat: Seq<i32>, column: int, sx: i32, sy: i32)
    requires
        lat_fits(lat),
    ensures
        skyfill::sky_column_ok(lat, column, sx, sy),
    decreases arith::max_int(column + 1, 0),
{
    if 0 <= column < lat.len() {
        laws::lemma_cross_in_range(sx, sy, lat[column], lat[column]);
        lemma_sky_column_ok(lat, column - 1, sx, sy);
    }
}

/// The searches of all open segments.
proof fn lemma_textured_sky_ok(r: Ray, lat: Seq<i32>, first: int, q: int, k: nat)
    requires
        in_order(r, k),
        lat_fits(lat),
    ensures
        skyfill::textured_sky_ok(r, lat, first, q),
    decreases r.ce_idx + 1 - q,
{
    if 0 <= q <= r.ce_idx {
        let e = r.cf[q];
        assert(segment_fits(r.cf[q], k));
        assert forall|j: nat| j < skyfill::slots(e) implies skyfill::sky_column_ok(
            lat,
            #[trigger] skyfill::slot_column(r, lat, e, first, j),
            arith::wrap32(skyfill::far_x(r, e) - (j + 1) * r.gi0),
            arith::wrap32(skyfill::far_y(r, e) - (j + 1) * r.gi1),
        ) by {
            lemma_sky_column_ok(
                lat,
                skyfill::slot_column(r, lat, e, first, j),
                arith::wrap32(skyfill::far_x(r, e) - (j + 1) * r.gi0),
                arith::wrap32(skyfill::far_y(r, e) - (j + 1) * r.gi1),
            );
        }
        lemma_textured_sky_ok(
            r,
            lat,
            skyfill::slot_column(r, lat, e, first, skyfill::slots(e)),
            q + 1,
            k,
        );
    }
}

/// Every phase of a scan that is in order stays inside the tables and
/// machine integers, and leaves the scan in order.
pub proof fn lemma_phase_keeps_order(r: Ray, phase: Phase, k: nat)
    requires
        in_order_at(r, phase, k + 1),
    ensures
        run::step_ok(r, phase),
        in_order_at(run::step_phase(r, phase).0, run::step_phase(r, phase).1, k),
{
    match phase {
        Phase::DrawFwall => lemma_fwall_keeps(r, k),
        Phase::DrawCwall => lemma_cwall_keeps(r, k),
        Phase::DrawCeil => lemma_ceil_keeps(r, k),
        Phase::DrawFlor => lemma_flor_keeps(r, k),
        Phase::DeleteZ => lemma_delete_keeps(r, k),
        Phase::AfterDeleteKeptPresync => lemma_step_keeps(r, k),
        Phase::SyncFromPresync => lemma_sync_keeps(r, k),
        Phase::Intoslabloop => lemma_into_slab_keeps(r, k),
        Phase::Startsky => {
            if r.sky is Some {
                lemma_textured_sky_ok(
                    r,
                    r.sky->0.lat@,
                    r.sky->0.xsiz_post as int,
                    CF_SEED_INDEX as int,
                    k + 1,
                );
            }
        },
        _ => {},
    }
}

/// Whether the scan ends after at most `n` phases.
pub open spec fn ends_within(r: Ray, phase: Phase, n: nat) -> bool
    decreases n,
{
    phase == Phase::Done || n > 0 && ends_within(
        run::step_phase(r, phase).0,
        run::step_phase(r, phase).1,
        (n - 1) as nat,
    )
}

/// A scan that starts in order needs only to end: none of its phases
/// leaves the tables or overflows.
pub proof fn lemma_scan_stays_in_order(r: Ray, phase: Phase, n: nat)
    requires
        in_order_at(r, phase, n),
    ensures
        run::done_within(r, phase, n) == ends_within(r, phase, n),
    decreases n,
{
    if phase != Phase::Done && n > 0 {
        let k = (n - 1) as nat;
        lemma_phase_keeps_order(r, phase, k);
        lemma_scan_stays_in_order(
            run::step_phase(r, phase).0,
            run::step_phase(r, phase).1,
            k,
        );
    }
}

/// Whether a chunk grid is near the origin and its chunks can be counted.
pub open spec fn small_grid(cg: ChunkGrid) -> bool {
    &&& -0x3fff_ffff <= cg.origin_chunk_xy[0] <= 0x3fff_ffff
    &&& -0x3fff_ffff <= cg.origin_chunk_xy[1] <= 0x3fff_ffff
    &&& -0x3fff_ffff <= cg.origin_chunk_z <= 0x3fff_ffff
    &&& cg.chunks_z * cg.chunks_y * cg.chunks_x <= u32::MAX
}

/// The chunks of such a grid can be looked up wherever a ray may get to.
pub proof fn lemma_small_grid(grid: GridView, x: i32, y: i32, z: i32)
    requires
        grid.chunk_grid matches Some(cg) ==> small_grid(*cg),
        cursor_fits(x, 0),
        cursor_fits(y, 0),
        cursor_fits(z, 0),
    ensures
        grid.chunk_index_fits(x as int, y as int, z as int),
{
    if grid.chunk_grid is Some {
        let cg = *grid.chunk_grid->0;
        let (i, j, k) = (
            x - cg.origin_chunk_xy[0],
            y - cg.origin_chunk_xy[1],
            z - cg.origin_chunk_z,
        );
        let (a, b, c) = (cg.chunks_x as int, cg.chunks_y as int, cg.chunks_z as int);
        if cg.holds(x as int, y as int, z as int) {
            assert((k * b + j) * a + i < c * b * a) by (nonlinear_arith)
                requires
                    0 <= i < a,
                    0 <= j < b,
                    0 <= k < c,
            ;
        }
    }
}

/// Whether a seed is far enough from the ends of every range for a scan
/// of `n` phases at one level.
pub open spec fn seed_fits<'a>(
    sc: ScanScratch,
    inputs: GrouscanInputs<'a>,
    cx: i32,
    cy: i32,
    n: nat,
) -> bool {
    &&& n <= 0x10_0000
    &&& run::seed_ok(inputs, cx, cy)
    &&& forall|p: int| 0 <= p < 256 ==> segment_fits(#[trigger] sc.cf@[p], n)
    &&& cursor_fits(cx, n) && cursor_fits(cy, n)
    &&& -0x2000_0000 <= inputs.chunk_world_z_base <= 0x2000_0000 - 256 * n
    &&& table_fits(inputs.gylookup@)
    &&& sky_fits(inputs.sky)
    &&& inputs.grid_view.chunk_grid matches Some(cg) ==> {
        &&& inputs.chunk_size_z <= 256
        &&& i32::MIN <= cg.origin_chunk_z + (cg.chunks_z as i32) <= i32::MAX
        &&& cursor_fits(inputs.camera_chunk_z, n)
        &&& small_grid(*cg)
    }
}

/// Such a seed can be scanned: what is left of the conditions on a scan is
/// that it ends.
pub proof fn lemma_seed_in_order<'a>(
    sc: ScanScratch,
    inputs: GrouscanInputs<'a>,
    vptr_offset: usize,
    ixy: usize,
    cx: i32,
    cy: i32,
    gxmip: i32,
    gmipnum: u32,
    n: nat,
)
    requires
        seed_fits(sc, inputs, cx, cy, n),
        gmipnum <= 1,
    ensures
        ({
            let r = run::started(
                run::seeded(sc, inputs, vptr_offset as int, ixy as int, cx, cy, gmipnum),
                gxmip,
            );
            let phase = run::first_phase(vptr_offset as int);
            &&& in_order_at(r, phase, n)
            &&& run::done_within(r, phase, n) == ends_within(r, phase, n)
        }),
{
    let s = run::seeded(sc, inputs, vptr_offset as int, ixy as int, cx, cy, gmipnum);
    let r = run::started(s, gxmip);
    let side = inputs.grid_view.chunk_size_xy;
    vstd::std_specs::bits::axiom_u32_trailing_zeros(side);
    lemma_shifted_fits(cx, run::side_log2(side));
    lemma_shifted_fits(cy, run::side_log2(side));
    assert forall|x: i32, y: i32, z: i32|
        cursor_fits(x, 0) && cursor_fits(y, 0) && cursor_fits(
            z,
            0,
        ) implies #[trigger] inputs.grid_view.chunk_index_fits(
        x as int,
        y as int,
        z as int,
    ) by {
        lemma_small_grid(inputs.grid_view, x, y, z);
    }
    assert(segment_fits(sc.cf@[CF_SEED_INDEX as int], n));
    lemma_scan_stays_in_order(r, run::first_phase(vptr_offset as int), n);
}

} // verus!
