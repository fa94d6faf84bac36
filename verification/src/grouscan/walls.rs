//! Wall fills of a scan: rows of one colour each, drawn from an edge of
//! the current segment.
use crate::arith;
use crate::grouscan;
use crate::grouscan::columns;
use crate::grouscan::columns::slab_z_at;
use crate::grouscan::fill;
use crate::grouscan::{grouscan_cross_sign, grouscan_shade, CfType, GrouscanState, Phase, Ray};
use crate::rasterizer::CastDat;
use crate::slab;
use crate::slab::read_word;
use vstd::prelude::*;

verus! {

/// What a wall pixel shows.
pub open spec fn wall_dat(r: Ray) -> CastDat {
    CastDat { col: r.color as i32, dist: r.ogx }
}

/// The ray after `k` wall pixels from the right edge.
pub open spec fn right_after<'a>(r: Ray<'a>, k: nat) -> Ray<'a> {
    Ray {
        cx1: arith::wrap32(r.cx1 - k * r.gi0),
        cy1: arith::wrap32(r.cy1 - k * r.gi1),
        ebx: r.ebx - k,
        radar: fill::paint(r.radar, r.ebx - k + 1, r.ebx + 1, |p: int| wall_dat(r)),
        ..r
    }
}

/// The ray after `k` wall pixels from the left edge.
pub open spec fn left_after<'a>(r: Ray<'a>, k: nat) -> Ray<'a> {
    Ray {
        cx0: arith::wrap32(r.cx0 + k * r.gi0),
        cy0: arith::wrap32(r.cy0 + k * r.gi1),
        ebx: r.ebx + k,
        radar: fill::paint(r.radar, r.ebx, r.ebx + k, |p: int| wall_dat(r)),
        ..r
    }
}

/// Slots left for a row that is drawn from the right edge.
pub open spec fn right_room(r: Ray) -> nat {
    fill::room(fill::current(r).i0 as int, r.ebx)
}

/// Slots left for a row that is drawn from the left edge.
pub open spec fn left_room(r: Ray) -> nat {
    fill::room(r.ebx, fill::current(r).i1 as int)
}

/// Pixels of a row that is drawn from the right edge.
pub open spec fn right_len(r: Ray) -> nat {
    fill::edge_len(
        r.cx1,
        r.cy1,
        -r.gi0 as int,
        -r.gi1 as int,
        r.ogx,
        r.gy_raw,
        false,
        right_room(r),
    )
}

/// Pixels of a row that is drawn from the left edge.
pub open spec fn left_len(r: Ray) -> nat {
    fill::edge_len(
        r.cx0,
        r.cy0,
        r.gi0 as int,
        r.gi1 as int,
        r.ogx,
        r.gy_raw,
        true,
        left_room(r),
    )
}

/// Whether a row from the right edge stays inside machine integers.
pub open spec fn right_ok(r: Ray) -> bool {
    fill::edge_ok(
        r.cx1,
        r.cy1,
        -r.gi0 as int,
        -r.gi1 as int,
        r.ogx,
        r.gy_raw,
        false,
        right_room(r),
    )
}

/// Whether a row from the left edge stays inside machine integers.
pub open spec fn left_ok(r: Ray) -> bool {
    fill::edge_ok(
        r.cx0,
        r.cy0,
        r.gi0 as int,
        r.gi1 as int,
        r.ogx,
        r.gy_raw,
        true,
        left_room(r),
    )
}

proof fn lemma_right_after_next(r: Ray, k: nat)
    ensures
        right_after(right_after(r, k), 1) == right_after(r, k + 1),
{
    arith::lemma_wrap_twice(r.cx1 - k * r.gi0, -r.gi0 as int);
    arith::lemma_wrap_twice(r.cy1 - k * r.gi1, -r.gi1 as int);
    vstd::arithmetic::mul::lemma_mul_is_distributive_add_other_way(r.gi0 as int, k as int, 1);
    vstd::arithmetic::mul::lemma_mul_is_distributive_add_other_way(r.gi1 as int, k as int, 1);
    let a = right_after(right_after(r, k), 1);
    let b = right_after(r, k + 1);
    assert(a.radar =~= b.radar);
    assert(a =~= b);
}

proof fn lemma_left_after_next(r: Ray, k: nat)
    ensures
        left_after(left_after(r, k), 1) == left_after(r, k + 1),
{
    arith::lemma_wrap_twice(r.cx0 + k * r.gi0, r.gi0 as int);
    arith::lemma_wrap_twice(r.cy0 + k * r.gi1, r.gi1 as int);
    vstd::arithmetic::mul::lemma_mul_is_distributive_add_other_way(r.gi0 as int, k as int, 1);
    vstd::arithmetic::mul::lemma_mul_is_distributive_add_other_way(r.gi1 as int, k as int, 1);
    let a = left_after(left_after(r, k), 1);
    let b = left_after(r, k + 1);
    assert(a.radar =~= b.radar);
    assert(a =~= b);
}

/// Draws one wall pixel at the current slot.
fn wall_slot(state: &mut GrouscanState<'_>)
    ensures
        final(state)@ == (Ray {
            radar: fill::paint(
                old(state)@.radar,
                old(state)@.ebx,
                old(state)@.ebx + 1,
                |p: int| wall_dat(old(state)@),
            ),
            ..old(state)@
        }),
        *final(final(state).scratch) == *final(old(state).scratch),
{
    let ghost s = state@;
    let slot: isize = state.ebx;
    if slot >= 0 && (slot as usize) < state.scratch.radar.len() {
        state.scratch.radar[slot as usize] = CastDat {
            col: state.color as i32,
            dist: state.ogx,
        };
    }
    proof {
        let e = fill::paint(s.radar, s.ebx, s.ebx + 1, |p: int| wall_dat(s));
        assert(state@.radar =~= e);
        assert(state@ =~= Ray { radar: e, ..s });
    }
}

/// Draws one row from the right edge. Returns whether it used the
/// segment up.
fn right_row(state: &mut GrouscanState<'_>) -> (r: bool)
    requires
        fill::segment_ok(old(state)@),
        isize::MIN < old(state)@.ebx,
        right_ok(old(state)@),
    ensures
        final(state)@ == right_after(old(state)@, right_len(old(state)@)),
        r == (right_len(old(state)@) == right_room(old(state)@)),
        !r ==> final(state)@.ebx >= fill::current(old(state)@).i0 || final(state)@.ebx == old(
            state,
        )@.ebx,
        *final(final(state).scratch) == *final(old(state).scratch),
{
    let ghost s = state@;
    let ghost limit = right_room(s);
    let ghost mut k: nat = 0;
    proof {
        arith::lemma_wrapping(s.cx1, 0);
        arith::lemma_wrapping(s.cy1, 0);
        let e = right_after(s, 0);
        assert(s.radar =~= e.radar);
        assert(s =~= e);
    }
    loop
        invariant
            s == old(state)@,
            fill::segment_ok(s),
            isize::MIN < s.ebx,
            limit == right_room(s),
            k < limit,
            state@ == right_after(s, k),
            *final(state.scratch) == *final(old(state).scratch),
            right_len(s) == k + fill::edge_len(
                state@.cx1,
                state@.cy1,
                -s.gi0 as int,
                -s.gi1 as int,
                s.ogx,
                s.gy_raw,
                false,
                (limit - k) as nat,
            ),
            fill::edge_ok(
                state@.cx1,
                state@.cy1,
                -s.gi0 as int,
                -s.gi1 as int,
                s.ogx,
                s.gy_raw,
                false,
                (limit - k) as nat,
            ),
        decreases limit - k,
    {
        let test: i32 = grouscan_cross_sign(state.cx1, state.cy1, state.ogx, state.gy_raw);
        if test <= 0 {
            return false;
        }
        let ghost m = state@;
        proof {
            arith::lemma_wrapping(m.cx1, m.gi0);
            arith::lemma_wrapping(m.cy1, m.gi1);
        }
        state.cx1 = state.cx1.wrapping_sub(state.scratch.gi0);
        state.cy1 = state.cy1.wrapping_sub(state.scratch.gi1);
        wall_slot(state);
        state.ebx = state.ebx - 1;
        proof {
            assert(1 * m.gi0 == m.gi0 && 1 * m.gi1 == m.gi1);
            assert(state@.radar =~= right_after(m, 1).radar);
            assert(state@ =~= right_after(m, 1));
            lemma_right_after_next(s, k);
            k = k + 1;
            assert(right_len(s) == k + fill::edge_len(
                state@.cx1,
                state@.cy1,
                -s.gi0 as int,
                -s.gi1 as int,
                s.ogx,
                s.gy_raw,
                false,
                (limit - k) as nat,
            ));
        }
        if state.ebx < state.scratch.cf[state.c_idx].i0 {
            assert(k == limit);
            return true;
        }
    }
}

/// Draws one row from the left edge. Returns whether it used the segment
/// up.
fn left_row(state: &mut GrouscanState<'_>) -> (r: bool)
    requires
        fill::segment_ok(old(state)@),
        old(state)@.ebx < isize::MAX,
        left_ok(old(state)@),
    ensures
        final(state)@ == left_after(old(state)@, left_len(old(state)@)),
        r == (left_len(old(state)@) == left_room(old(state)@)),
        !r ==> final(state)@.ebx <= fill::current(old(state)@).i1 || final(state)@.ebx == old(
            state,
        )@.ebx,
        *final(final(state).scratch) == *final(old(state).scratch),
{
    let ghost s = state@;
    let ghost limit = left_room(s);
    let ghost mut k: nat = 0;
    proof {
        arith::lemma_wrapping(s.cx0, 0);
        arith::lemma_wrapping(s.cy0, 0);
        let e = left_after(s, 0);
        assert(s.radar =~= e.radar);
        assert(s =~= e);
    }
    loop
        invariant
            s == old(state)@,
            fill::segment_ok(s),
            s.ebx < isize::MAX,
            limit == left_room(s),
            k < limit,
            state@ == left_after(s, k),
            *final(state.scratch) == *final(old(state).scratch),
            left_len(s) == k + fill::edge_len(
                state@.cx0,
                state@.cy0,
                s.gi0 as int,
                s.gi1 as int,
                s.ogx,
                s.gy_raw,
                true,
                (limit - k) as nat,
            ),
            fill::edge_ok(
                state@.cx0,
                state@.cy0,
                s.gi0 as int,
                s.gi1 as int,
                s.ogx,
                s.gy_raw,
                true,
                (limit - k) as nat,
            ),
        decreases limit - k,
    {
        let test: i32 = grouscan_cross_sign(state.cx0, state.cy0, state.ogx, state.gy_raw);
        if test > 0 {
            return false;
        }
        let ghost m = state@;
        proof {
            arith::lemma_wrapping(m.cx0, m.gi0);
            arith::lemma_wrapping(m.cy0, m.gi1);
        }
        state.cx0 = state.cx0.wrapping_add(state.scratch.gi0);
        state.cy0 = state.cy0.wrapping_add(state.scratch.gi1);
        wall_slot(state);
        state.ebx = state.ebx + 1;
        proof {
            assert(1 * m.gi0 == m.gi0 && 1 * m.gi1 == m.gi1);
            assert(state@.radar =~= left_after(m, 1).radar);
            assert(state@ =~= left_after(m, 1));
            lemma_left_after_next(s, k);
            k = k + 1;
            assert(left_len(s) == k + fill::edge_len(
                state@.cx0,
                state@.cy0,
                s.gi0 as int,
                s.gi1 as int,
                s.ogx,
                s.gy_raw,
                true,
                (limit - k) as nat,
            ));
        }
        if state.ebx > state.scratch.cf[state.c_idx].i1 {
            assert(k == limit);
            return true;
        }
    }
}

// ---------------------------------------------------------------------
// Wall below the view.

/// Top of the floor colours of the current slab.
pub open spec fn floor_top(r: Ray) -> int {
    columns::slab_z(r, r.vptr_offset, 1)
}

/// The next row up of the wall below: its colour, and its place on the
/// screen. `false` where the column or the screen table has no such row.
pub open spec fn fwall_row<'a>(r: Ray<'a>) -> (Ray<'a>, bool) {
    let a = Ray { off: (r.z1 - floor_top(r)) as i32, z1: (r.z1 - 1) as i32, ..r };
    let at = r.vptr_offset + (r.z1 - floor_top(r)) * 4;
    if at + 4 > r.column.len() {
        (a, false)
    } else {
        let colour = grouscan::shade(
            slab::word_at(r.column, at),
            r.mm5_tail,
            r.gcsub[r.wall_lane],
        );
        let b = Ray { color: colour, mm5_tail: colour, ..a };
        if !(0 <= b.z1 < b.gylookup.len()) {
            (b, false)
        } else {
            (Ray { gy_raw: b.gylookup[b.z1 as int], ..b }, true)
        }
    }
}

/// Gives the undrawn slots back to the segment, with the right edge.
pub open spec fn end_fwall<'a>(r: Ray<'a>) -> Ray<'a> {
    fill::with_current(
        r,
        CfType { i1: r.ebx as isize, cx1: r.cx1, cy1: r.cy1, ..fill::current(r) },
    )
}

/// The rows of the wall below, upward to the top of the slab.
pub open spec fn fwall_rows<'a>(r: Ray<'a>) -> (Ray<'a>, Phase)
    decreases arith::max_int(r.z1 - floor_top(r), 0),
{
    let (c, ready) = fwall_row(r);
    if r.z1 <= floor_top(r) {
        (r, Phase::DrawCwall)
    } else if !ready {
        (end_fwall(c), Phase::DrawCwall)
    } else {
        let d = right_after(c, right_len(c));
        if right_len(c) == right_room(c) {
            (d, Phase::PreDeleteZ)
        } else if d.z1 == floor_top(r) {
            (end_fwall(d), Phase::DrawCwall)
        } else {
            fwall_rows(d)
        }
    }
}

/// Whether the rows stay inside machine integers.
pub open spec fn fwall_rows_ok(r: Ray) -> bool
    decreases arith::max_int(r.z1 - floor_top(r), 0),
{
    let (c, ready) = fwall_row(r);
    r.z1 > floor_top(r) && ready ==> {
        let d = right_after(c, right_len(c));
        &&& right_ok(c)
        &&& right_len(c) == right_room(c) || d.z1 == floor_top(r) || fwall_rows_ok(d)
    }
}

/// Whether there is a wall below to draw.
pub open spec fn has_fwall(r: Ray) -> bool {
    r.vptr_offset + 4 <= r.column.len() && !fill::airy_bedrock(r) && floor_top(r) < r.z1
}

/// The fill of the wall below the view.
pub open spec fn draw_fwall<'a>(r: Ray<'a>) -> (Ray<'a>, Phase) {
    if has_fwall(r) {
        fwall_rows(Ray { ebx: fill::current(r).i1 as int, ..r })
    } else {
        (r, Phase::DrawCwall)
    }
}

/// Whether that fill stays inside machine integers.
pub open spec fn draw_fwall_ok(r: Ray) -> bool {
    &&& r.vptr_offset + 4 <= r.column.len() ==> columns::level_ok(r)
    &&& has_fwall(r) ==> {
        &&& fill::segment_ok(r)
        &&& 0 <= r.wall_lane < 9
        &&& r.z1 - floor_top(r) <= i32::MAX
        &&& fwall_rows_ok(Ray { ebx: fill::current(r).i1 as int, ..r })
    }
}

/// Prepares the next row of the wall below.
fn fwall_row_start(state: &mut GrouscanState<'_>) -> (r: bool)
    requires
        columns::level_ok(old(state)@),
        old(state)@.vptr_offset + 4 <= old(state)@.column.len(),
        0 <= old(state)@.wall_lane < 9,
        0 < old(state)@.z1 - floor_top(old(state)@) <= i32::MAX,
    ensures
        (final(state)@, r) == fwall_row(old(state)@),
        *final(final(state).scratch) == *final(old(state).scratch),
{
    let ghost r0 = state@;
    let top: i32 = slab_z_at(state, state.vptr_offset, 1);
    state.off = state.z1 - top;
    state.z1 = state.z1 - 1;
    let n_bytes: usize = state.column.len();
    let rest: u64 = (n_bytes - state.vptr_offset) as u64;
    let words: u64 = state.off as u64;
    if words * 4 + 4 > rest {
        return false;
    }
    let row_offset: usize = state.vptr_offset + state.off as usize * 4;
    let vox: u32 = read_word(state.column.as_slice(), row_offset);
    state.color = grouscan_shade(vox, &mut state.mm5_tail, state.gcsub[state.wall_lane]);
    if state.z1 < 0 || state.z1 as usize >= state.gylookup.len() {
        return false;
    }
    state.gy_raw = state.gylookup[state.z1 as usize];
    true
}

/// Gives the undrawn slots back to the segment, with the right edge.
fn end_fwall_segment(state: &mut GrouscanState<'_>)
    requires
        old(state)@.c_idx < 256,
    ensures
        final(state)@ == end_fwall(old(state)@),
        *final(final(state).scratch) == *final(old(state).scratch),
{
    state.scratch.cf[state.c_idx].i1 = state.ebx;
    state.scratch.cf[state.c_idx].cx1 = state.cx1;
    state.scratch.cf[state.c_idx].cy1 = state.cy1;
    assert(state@.cf =~= end_fwall(old(state)@).cf);
    assert(state@ =~= end_fwall(old(state)@));
}

/// Fills the wall below the view from the right edge of the current
/// segment.
pub fn phase_draw_fwall(state: &mut GrouscanState<'_>) -> (r: Phase)
    requires
        draw_fwall_ok(old(state)@),
    ensures
        (final(state)@, r) == draw_fwall(old(state)@),
        *final(final(state).scratch) == *final(old(state).scratch),
{
    let n_bytes: usize = state.column.len();
    if n_bytes < 4 || state.vptr_offset > n_bytes - 4 {
        return Phase::DrawCwall;
    }
    let dv1: i32 = slab_z_at(state, state.vptr_offset, 1);
    let level: u32 = state.gmipcnt as u32;
    let bedrock_z_at_mip: u8 = 0xffu8 >> level;
    if state.scratch.treat_z_max_as_air && state.column[state.vptr_offset + 1] == bedrock_z_at_mip {
        return Phase::DrawCwall;
    }
    if dv1 >= state.z1 {
        return Phase::DrawCwall;
    }
    let ghost r0 = state@;
    state.ebx = state.scratch.cf[state.c_idx].i1;
    assert(state@ =~= Ray { ebx: fill::current(r0).i1 as int, ..r0 });
    loop
        invariant
            columns::level_ok(state@),
            state@.vptr_offset + 4 <= state@.column.len(),
            0 <= state@.wall_lane < 9,
            floor_top(state@) == dv1,
            0 < state@.z1 - dv1 <= i32::MAX,
            fill::segment_ok(state@),
            isize::MIN < state@.ebx,
            fwall_rows_ok(state@),
            fwall_rows(state@) == draw_fwall(old(state)@),
            *final(state.scratch) == *final(old(state).scratch),
        decreases state@.z1 - dv1,
    {
        let ghost s = state@;
        let ready: bool = fwall_row_start(state);
        if !ready {
            end_fwall_segment(state);
            return Phase::DrawCwall;
        }
        let used_up: bool = right_row(state);
        if used_up {
            return Phase::PreDeleteZ;
        }
        if state.z1 == dv1 {
            end_fwall_segment(state);
            return Phase::DrawCwall;
        }
    }
}

// ---------------------------------------------------------------------
// Wall above the view.

/// Bottom of the air above the current slab.
pub open spec fn ceiling_z(r: Ray) -> int {
    columns::slab_z(r, r.vptr_offset, 3)
}

/// The next row down of the wall above: its colour, and its place on the
/// screen. `false` where the column or the screen table has no such row.
pub open spec fn cwall_row<'a>(r: Ray<'a>) -> (Ray<'a>, bool) {
    let a = Ray { off: (r.z0 - ceiling_z(r)) as i32, z0: (r.z0 + 1) as i32, ..r };
    let at = r.vptr_offset + (r.z0 - ceiling_z(r)) * 4;
    if at < 0 {
        (a, false)
    } else {
        let colour = grouscan::shade(
            slab::word_at(r.column, at),
            r.mm5_tail,
            r.gcsub[r.wall_lane],
        );
        let b = Ray { color: colour, mm5_tail: colour, ..a };
        if !(0 <= b.z0 < b.gylookup.len()) {
            (b, false)
        } else {
            (Ray { gy_raw: b.gylookup[b.z0 as int], ..b }, true)
        }
    }
}

/// Gives the undrawn slots back to the segment, with the left edge, and
/// looks down from the ceiling.
pub open spec fn end_cwall<'a>(r: Ray<'a>) -> Ray<'a> {
    Ray {
        z0: ceiling_z(r) as i32,
        ..fill::with_current(
            r,
            CfType { i0: r.ebx as isize, cx0: r.cx0, cy0: r.cy0, ..fill::current(r) },
        )
    }
}

/// The rows of the wall above, downward to the ceiling.
pub open spec fn cwall_rows<'a>(r: Ray<'a>) -> (Ray<'a>, Phase)
    decreases arith::max_int(ceiling_z(r) - r.z0, 0),
{
    let (c, ready) = cwall_row(r);
    if r.z0 >= ceiling_z(r) || ceiling_z(r) > i32::MAX {
        (r, Phase::PreDrawCeil)
    } else if !ready {
        (end_cwall(c), Phase::PreDrawCeil)
    } else {
        let d = left_after(c, left_len(c));
        if left_len(c) == left_room(c) {
            (d, Phase::PreDeleteZ)
        } else if d.z0 == ceiling_z(r) {
            (end_cwall(d), Phase::PreDrawCeil)
        } else {
            cwall_rows(d)
        }
    }
}

/// Whether the rows stay inside machine integers.
pub open spec fn cwall_rows_ok(r: Ray) -> bool
    decreases arith::max_int(ceiling_z(r) - r.z0, 0),
{
    let (c, ready) = cwall_row(r);
    r.z0 < ceiling_z(r) <= i32::MAX && ready ==> {
        let d = left_after(c, left_len(c));
        &&& left_ok(c)
        &&& left_len(c) == left_room(c) || d.z0 == ceiling_z(r) || cwall_rows_ok(d)
    }
}

/// The fill of the wall above the view. The view now ends at the top of
/// the slab's floor.
pub open spec fn draw_cwall<'a>(r: Ray<'a>) -> (Ray<'a>, Phase) {
    let a = Ray { z1: floor_top(r) as i32, ..r };
    if r.vptr_offset + 4 > r.column.len() {
        (r, Phase::PreDrawCeil)
    } else if r.vptr_offset == 0 {
        (a, Phase::PreDrawFlor)
    } else if ceiling_z(r) <= r.z0 {
        (Ray { z0: ceiling_z(r) as i32, ..a }, Phase::PreDrawCeil)
    } else {
        cwall_rows(Ray { ebx: fill::current(r).i0 as int, ..a })
    }
}

/// Whether that fill stays inside machine integers.
pub open spec fn draw_cwall_ok(r: Ray) -> bool {
    let a = Ray { z1: floor_top(r) as i32, ..r };
    r.vptr_offset + 4 <= r.column.len() ==> {
        &&& columns::level_ok(r)
        &&& r.vptr_offset != 0 && ceiling_z(r) > r.z0 ==> {
            &&& fill::segment_ok(r)
            &&& 0 <= r.wall_lane < 9
            &&& r.z0 - ceiling_z(r) >= i32::MIN
            &&& cwall_rows_ok(Ray { ebx: fill::current(r).i0 as int, ..a })
        }
    }
}

/// Prepares the next row of the wall above.
fn cwall_row_start(state: &mut GrouscanState<'_>) -> (r: bool)
    requires
        columns::level_ok(old(state)@),
        old(state)@.vptr_offset + 4 <= old(state)@.column.len(),
        0 <= old(state)@.wall_lane < 9,
        i32::MIN <= old(state)@.z0 - ceiling_z(old(state)@) < 0,
    ensures
        (final(state)@, r) == cwall_row(old(state)@),
        *final(final(state).scratch) == *final(old(state).scratch),
{
    let ghost r0 = state@;
    let bottom: i32 = slab_z_at(state, state.vptr_offset, 3);
    state.off = state.z0 - bottom;
    state.z0 = state.z0 + 1;
    let words: u64 = (0 - state.off as i64) as u64;
    if words * 4 > state.vptr_offset as u64 {
        return false;
    }
    let row_offset: usize = state.vptr_offset - words as usize * 4;
    let n_bytes: usize = state.column.len();
    let vox: u32 = read_word(state.column.as_slice(), row_offset);
    state.color = grouscan_shade(vox, &mut state.mm5_tail, state.gcsub[state.wall_lane]);
    if state.z0 < 0 || state.z0 as usize >= state.gylookup.len() {
        return false;
    }
    state.gy_raw = state.gylookup[state.z0 as usize];
    true
}

/// Gives the undrawn slots back to the segment, with the left edge, and
/// looks down from the ceiling.
fn end_cwall_segment(state: &mut GrouscanState<'_>)
    requires
        old(state)@.c_idx < 256,
        columns::level_ok(old(state)@),
    ensures
        final(state)@ == end_cwall(old(state)@),
        *final(final(state).scratch) == *final(old(state).scratch),
{
    state.scratch.cf[state.c_idx].i0 = state.ebx;
    state.scratch.cf[state.c_idx].cx0 = state.cx0;
    state.scratch.cf[state.c_idx].cy0 = state.cy0;
    state.z0 = slab_z_at(state, state.vptr_offset, 3);
    assert(state@.cf =~= end_cwall(old(state)@).cf);
    assert(state@ =~= end_cwall(old(state)@));
}

/// Fills the wall above the view from the left edge of the current
/// segment.
pub fn phase_draw_cwall(state: &mut GrouscanState<'_>) -> (r: Phase)
    requires
        draw_cwall_ok(old(state)@),
    ensures
        (final(state)@, r) == draw_cwall(old(state)@),
        *final(final(state).scratch) == *final(old(state).scratch),
{
    let n_bytes: usize = state.column.len();
    if n_bytes < 4 || state.vptr_offset > n_bytes - 4 {
        return Phase::PreDrawCeil;
    }
    let ghost r0 = state@;
    state.z1 = slab_z_at(state, state.vptr_offset, 1);
    let ghost a = state@;
    assert(a =~= Ray { z1: floor_top(r0) as i32, ..r0 });
    if state.vptr_offset == 0 {
        return Phase::PreDrawFlor;
    }
    let dv3: i32 = slab_z_at(state, state.vptr_offset, 3);
    if dv3 <= state.z0 {
        state.z0 = dv3;
        assert(state@ =~= Ray { z0: ceiling_z(r0) as i32, ..a });
        return Phase::PreDrawCeil;
    }
    state.ebx = state.scratch.cf[state.c_idx].i0;
    assert(state@ =~= Ray { ebx: fill::current(r0).i0 as int, ..a });
    loop
        invariant
            columns::level_ok(state@),
            state@.vptr_offset + 4 <= state@.column.len(),
            0 <= state@.wall_lane < 9,
            ceiling_z(state@) == dv3,
            i32::MIN <= state@.z0 - dv3 < 0,
            fill::segment_ok(state@),
            state@.ebx < isize::MAX,
            cwall_rows_ok(state@),
            cwall_rows(state@) == draw_cwall(old(state)@),
            *final(state.scratch) == *final(old(state).scratch),
        decreases dv3 - state@.z0,
    {
        let ghost s = state@;
        let ready: bool = cwall_row_start(state);
        if !ready {
            end_cwall_segment(state);
            return Phase::PreDrawCeil;
        }
        let used_up: bool = left_row(state);
        if used_up {
            return Phase::PreDeleteZ;
        }
        if state.z0 == dv3 {
            end_cwall_segment(state);
            return Phase::PreDrawCeil;
        }
    }
}

} // verus!
