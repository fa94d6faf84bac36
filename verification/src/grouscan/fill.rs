//! Fills of a scan: ceilings, floors and walls are drawn pixel by pixel
//! along an edge of the current segment.
use crate::arith;
use crate::grouscan::columns;
use crate::grouscan::columns::try_handoff_chunk_z_down;
use crate::grouscan::{grouscan_cross_sign, grouscan_shade, CfType, GrouscanState, Phase, Ray};
use crate::grouscan;
use crate::rasterizer::CastDat;
use crate::slab;
use crate::slab::read_word;
use vstd::prelude::*;

verus! {

/// Whether a fill stops at an edge vector: when the vector is past the
/// ray (`outward`), or when it is not.
pub open spec fn stops(cx: i32, cy: i32, depth: i32, gy: i32, outward: bool) -> bool {
    if outward {
        grouscan::cross(cx, cy, depth, gy) > 0
    } else {
        grouscan::cross(cx, cy, depth, gy) <= 0
    }
}

/// How many pixels a fill draws: the edge vector moves by `(dx, dy)` per
/// pixel until the fill stops, but no more than `limit` pixels.
pub open spec fn edge_len(
    cx: i32,
    cy: i32,
    dx: int,
    dy: int,
    depth: i32,
    gy: i32,
    outward: bool,
    limit: nat,
) -> nat
    decreases limit,
{
    if limit == 0 || stops(cx, cy, depth, gy, outward) {
        0
    } else {
        1 + edge_len(
            arith::wrap32(cx + dx),
            arith::wrap32(cy + dy),
            dx,
            dy,
            depth,
            gy,
            outward,
            (limit - 1) as nat,
        )
    }
}

/// Whether every cross product of the fill is a machine integer.
pub open spec fn edge_ok(
    cx: i32,
    cy: i32,
    dx: int,
    dy: int,
    depth: i32,
    gy: i32,
    outward: bool,
    limit: nat,
) -> bool
    decreases limit,
{
    limit == 0 || {
        &&& grouscan::cross(cx, cy, depth, gy) <= i32::MAX
        &&& stops(cx, cy, depth, gy, outward) || edge_ok(
            arith::wrap32(cx + dx),
            arith::wrap32(cy + dy),
            dx,
            dy,
            depth,
            gy,
            outward,
            (limit - 1) as nat,
        )
    }
}

/// The colour after shading one voxel `n` times in a row.
pub open spec fn shade_times(vox: u32, tail: u32, csub: i64, n: nat) -> u32
    decreases n,
{
    if n == 0 {
        tail
    } else {
        grouscan::shade(vox, shade_times(vox, tail, csub, (n - 1) as nat), csub)
    }
}

/// The radar with the slots `lo..hi` replaced; slots that it does not
/// have are passed over.
pub open spec fn paint(radar: Seq<CastDat>, lo: int, hi: int, f: spec_fn(int) -> CastDat) -> Seq<
    CastDat,
> {
    Seq::new(
        radar.len(),
        |p: int|
            if lo <= p < hi {
                f(p)
            } else {
                radar[p]
            },
    )
}

/// Slots that a fill may draw before its segment is used up. A segment
/// that is used up already still takes one.
pub open spec fn room(i0: int, i1: int) -> nat {
    if i0 <= i1 {
        (i1 - i0 + 1) as nat
    } else {
        1
    }
}

/// The current segment.
pub open spec fn current(r: Ray) -> CfType {
    r.cf[r.c_idx]
}

/// Replaces the current segment.
pub open spec fn with_current<'a>(r: Ray<'a>, c: CfType) -> Ray<'a> {
    Ray { cf: r.cf.update(r.c_idx, c), ..r }
}

/// Saves the left edge vector in the current segment.
pub open spec fn save_left<'a>(r: Ray<'a>) -> Ray<'a> {
    with_current(r, CfType { cx0: r.cx0, cy0: r.cy0, ..current(r) })
}

/// Saves the right edge vector in the current segment.
pub open spec fn save_right<'a>(r: Ray<'a>) -> Ray<'a> {
    with_current(r, CfType { cx1: r.cx1, cy1: r.cy1, ..current(r) })
}

/// Whether the current segment is on the stack and its slots can be
/// counted.
pub open spec fn segment_ok(r: Ray) -> bool {
    &&& 0 <= r.c_idx < 256
    &&& isize::MIN < current(r).i0 < isize::MAX
    &&& isize::MIN < current(r).i1 < isize::MAX
}

// ---------------------------------------------------------------------
// Ceiling.

/// The ray after `k` ceiling pixels: the left edge has moved right.
pub open spec fn ceil_after<'a>(r: Ray<'a>, vox: u32, k: nat) -> Ray<'a> {
    let i0 = current(r).i0;
    let csub = r.gcsub[2];
    with_current(
        Ray {
            cx0: arith::wrap32(r.cx0 + k * r.gi0),
            cy0: arith::wrap32(r.cy0 + k * r.gi1),
            color: if k == 0 {
                r.color
            } else {
                shade_times(vox, r.mm5_tail, csub, k)
            },
            mm5_tail: shade_times(vox, r.mm5_tail, csub, k),
            radar: paint(
                r.radar,
                i0 as int,
                i0 + k,
                |p: int|
                    CastDat {
                        col: shade_times(vox, r.mm5_tail, csub, (p - i0 + 1) as nat) as i32,
                        dist: r.ogx,
                    },
            ),
            ..r
        },
        CfType { i0: (i0 + k) as isize, ..current(r) },
    )
}

/// Number of ceiling pixels.
pub open spec fn ceil_len(r: Ray) -> nat {
    edge_len(
        r.cx0,
        r.cy0,
        r.gi0 as int,
        r.gi1 as int,
        r.ogx,
        r.gy_raw,
        true,
        room(current(r).i0 as int, current(r).i1 as int),
    )
}

/// Whether the column stores a ceiling colour above the current slab.
pub open spec fn has_ceiling(r: Ray) -> bool {
    0 <= r.z0 < r.gylookup.len() && 4 <= r.vptr_offset <= r.column.len()
}

/// The ceiling fill.
pub open spec fn draw_ceil<'a>(r: Ray<'a>) -> (Ray<'a>, Phase) {
    if !(0 <= r.z0 < r.gylookup.len()) {
        (r, Phase::AfterDelete)
    } else {
        let s = Ray { gy_raw: r.gylookup[r.z0 as int], ..r };
        if !has_ceiling(r) {
            (s, Phase::AfterDelete)
        } else {
            let n = ceil_len(s);
            (
                save_left(ceil_after(s, slab::word_at(r.column, r.vptr_offset - 4), n)),
                if n == room(current(r).i0 as int, current(r).i1 as int) {
                    Phase::DeleteZ
                } else {
                    Phase::DrawFlor
                },
            )
        }
    }
}

/// Whether the ceiling fill stays inside machine integers.
pub open spec fn draw_ceil_ok(r: Ray) -> bool {
    has_ceiling(r) ==> segment_ok(r) && edge_ok(
        r.cx0,
        r.cy0,
        r.gi0 as int,
        r.gi1 as int,
        r.ogx,
        r.gylookup[r.z0 as int],
        true,
        room(current(r).i0 as int, current(r).i1 as int),
    )
}

/// One more ceiling pixel.
proof fn lemma_ceil_after_next(r: Ray, vox: u32, k: nat)
    requires
        r.cf.len() == 256,
        segment_ok(r),
        k < room(current(r).i0 as int, current(r).i1 as int),
    ensures
        ceil_after(ceil_after(r, vox, k), vox, 1) == ceil_after(r, vox, k + 1),
{
    let m = ceil_after(r, vox, k);
    let i0 = current(r).i0;
    let t = r.mm5_tail;
    let csub = r.gcsub[2];
    arith::lemma_wrap_twice(r.cx0 + k * r.gi0, r.gi0 as int);
    arith::lemma_wrap_twice(r.cy0 + k * r.gi1, r.gi1 as int);
    vstd::arithmetic::mul::lemma_mul_is_distributive_add_other_way(r.gi0 as int, k as int, 1);
    vstd::arithmetic::mul::lemma_mul_is_distributive_add_other_way(r.gi1 as int, k as int, 1);
    reveal_with_fuel(shade_times, 2);
    assert(shade_times(vox, m.mm5_tail, csub, 1) == shade_times(vox, t, csub, k + 1));
    let a = ceil_after(m, vox, 1);
    let b = ceil_after(r, vox, k + 1);
    assert(current(m).i0 == i0 + k);
    assert(a.radar =~= b.radar);
    assert(a.cf =~= b.cf);
    assert(a =~= b);
}

/// Draws one ceiling pixel.
fn ceil_pixel(state: &mut GrouscanState<'_>, vox: u32)
    requires
        segment_ok(old(state)@),
    ensures
        final(state)@ == ceil_after(old(state)@, vox, 1),
        *final(final(state).scratch) == *final(old(state).scratch),
{
    let ghost s = state@;
    proof {
        arith::lemma_wrapping(s.cx0, s.gi0);
        arith::lemma_wrapping(s.cy0, s.gi1);
        reveal_with_fuel(shade_times, 2);
    }
    state.cx0 = state.cx0.wrapping_add(state.scratch.gi0);
    state.cy0 = state.cy0.wrapping_add(state.scratch.gi1);
    state.color = grouscan_shade(vox, &mut state.mm5_tail, state.gcsub[2]);
    let slot: isize = state.scratch.cf[state.c_idx].i0;
    if slot >= 0 && (slot as usize) < state.scratch.radar.len() {
        state.scratch.radar[slot as usize] = CastDat {
            col: state.color as i32,
            dist: state.ogx,
        };
    }
    state.scratch.cf[state.c_idx].i0 = slot + 1;
    proof {
        let e = ceil_after(s, vox, 1);
        assert(state@.radar =~= e.radar);
        assert(state@.cf =~= e.cf);
        assert(state@ =~= e);
    }
}

/// Saves the left edge vector in the current segment.
pub fn save_left_edge(state: &mut GrouscanState<'_>)
    requires
        old(state)@.c_idx < 256,
    ensures
        final(state)@ == save_left(old(state)@),
        *final(final(state).scratch) == *final(old(state).scratch),
{
    state.scratch.cf[state.c_idx].cx0 = state.cx0;
    state.scratch.cf[state.c_idx].cy0 = state.cy0;
    assert(state@.cf =~= save_left(old(state)@).cf);
    assert(state@ =~= save_left(old(state)@));
}

/// Saves the right edge vector in the current segment.
pub fn save_right_edge(state: &mut GrouscanState<'_>)
    requires
        old(state)@.c_idx < 256,
    ensures
        final(state)@ == save_right(old(state)@),
        *final(final(state).scratch) == *final(old(state).scratch),
{
    state.scratch.cf[state.c_idx].cx1 = state.cx1;
    state.scratch.cf[state.c_idx].cy1 = state.cy1;
    assert(state@.cf =~= save_right(old(state)@).cf);
    assert(state@ =~= save_right(old(state)@));
}

/// Fills the ceiling from the left edge of the current segment.
pub fn phase_draw_ceil(state: &mut GrouscanState<'_>) -> (r: Phase)
    requires
        draw_ceil_ok(old(state)@),
    ensures
        (final(state)@, r) == draw_ceil(old(state)@),
        *final(final(state).scratch) == *final(old(state).scratch),
{
    let ghost r0 = state@;
    if state.z0 < 0 || state.z0 as usize >= state.gylookup.len() {
        return Phase::AfterDelete;
    }
    state.gy_raw = state.gylookup[state.z0 as usize];
    let ghost s = state@;
    assert(s =~= Ray { gy_raw: r0.gylookup[r0.z0 as int], ..r0 });
    if state.vptr_offset < 4 || state.vptr_offset > state.column.len() {
        return Phase::AfterDelete;
    }
    let vox: u32 = read_word(state.column.as_slice(), state.vptr_offset - 4);
    let ghost i0 = current(s).i0;
    let ghost limit = room(i0 as int, current(s).i1 as int);
    let ghost mut k: nat = 0;
    proof {
        arith::lemma_wrapping(s.cx0, 0);
        arith::lemma_wrapping(s.cy0, 0);
        let e = ceil_after(s, vox, 0);
        assert(s.radar =~= e.radar);
        assert(s.cf =~= e.cf);
        assert(s =~= e);
    }
    loop
        invariant
            s.cf.len() == 256,
            segment_ok(s),
            i0 == current(s).i0,
            limit == room(i0 as int, current(s).i1 as int),
            k < limit,
            state@ == ceil_after(s, vox, k),
            *final(state.scratch) == *final(old(state).scratch),
            draw_ceil(old(state)@) == (
                save_left(ceil_after(s, vox, ceil_len(s))),
                if ceil_len(s) == limit {
                    Phase::DeleteZ
                } else {
                    Phase::DrawFlor
                },
            ),
            ceil_len(s) == k + edge_len(
                state@.cx0,
                state@.cy0,
                s.gi0 as int,
                s.gi1 as int,
                s.ogx,
                s.gy_raw,
                true,
                (limit - k) as nat,
            ),
            edge_ok(
                state@.cx0,
                state@.cy0,
                s.gi0 as int,
                s.gi1 as int,
                s.ogx,
                s.gy_raw,
                true,
                (limit - k) as nat,
            ),
        decreases limit - k,
    {
        let test: i32 = grouscan_cross_sign(state.cx0, state.cy0, state.ogx, state.gy_raw);
        if test > 0 {
            save_left_edge(state);
            return Phase::DrawFlor;
        }
        let ghost m = state@;
        ceil_pixel(state, vox);
        proof {
            lemma_ceil_after_next(s, vox, k);
            assert(1 * m.gi0 == m.gi0 && 1 * m.gi1 == m.gi1);
            k = k + 1;
        }
        if state.scratch.cf[state.c_idx].i0 > state.scratch.cf[state.c_idx].i1 {
            assert(k == limit);
            save_left_edge(state);
            return Phase::DeleteZ;
        }
    }
}

// ---------------------------------------------------------------------
// Floor.

/// The ray after `k` floor pixels: the right edge has moved left.
pub open spec fn flor_after<'a>(r: Ray<'a>, vox: u32, k: nat) -> Ray<'a> {
    let i1 = current(r).i1;
    let csub = r.gcsub[3];
    with_current(
        Ray {
            cx1: arith::wrap32(r.cx1 - k * r.gi0),
            cy1: arith::wrap32(r.cy1 - k * r.gi1),
            color: if k == 0 {
                r.color
            } else {
                shade_times(vox, r.mm5_tail, csub, k)
            },
            mm5_tail: shade_times(vox, r.mm5_tail, csub, k),
            radar: paint(
                r.radar,
                i1 - k + 1,
                i1 + 1,
                |p: int|
                    CastDat {
                        col: shade_times(vox, r.mm5_tail, csub, (i1 - p + 1) as nat) as i32,
                        dist: r.ogx,
                    },
            ),
            ..r
        },
        CfType { i1: (i1 - k) as isize, ..current(r) },
    )
}

/// Number of floor pixels.
pub open spec fn flor_len(r: Ray) -> nat {
    edge_len(
        r.cx1,
        r.cy1,
        -r.gi0 as int,
        -r.gi1 as int,
        r.ogx,
        r.gy_raw,
        false,
        room(current(r).i0 as int, current(r).i1 as int),
    )
}

/// Whether the current slab is the placeholder at the bottom of the
/// column and counts as air.
pub open spec fn airy_bedrock(r: Ray) -> bool {
    r.treat_z_max_as_air && r.vptr_offset + 1 < r.column.len() && r.column[r.vptr_offset + 1]
        == (0xffu8 >> (r.gmipcnt as u32))
}

/// Whether the column stores a floor colour in the current slab.
pub open spec fn has_floor(r: Ray) -> bool {
    0 <= r.z1 < r.gylookup.len() && r.vptr_offset + 8 <= r.column.len()
}

/// The floor fill. An airy bedrock slab is looked through: the scan goes
/// on in the chunk below where there is one.
pub open spec fn draw_flor<'a>(r: Ray<'a>) -> (Ray<'a>, Phase) {
    if airy_bedrock(r) {
        match columns::chunk_below(r) {
            Some(chunk) => if r.gmipcnt == 0 {
                (columns::handed_down(r, chunk), Phase::Skipixy3)
            } else {
                (r, Phase::AfterDelete)
            },
            None => (r, Phase::AfterDelete),
        }
    } else if !(0 <= r.z1 < r.gylookup.len()) {
        (r, Phase::AfterDelete)
    } else {
        let s = Ray { gy_raw: r.gylookup[r.z1 as int], ..r };
        if !has_floor(r) {
            (s, Phase::AfterDelete)
        } else {
            let n = flor_len(s);
            (
                save_right(flor_after(s, slab::word_at(r.column, r.vptr_offset + 4), n)),
                if n == room(current(r).i0 as int, current(r).i1 as int) {
                    Phase::DeleteZ
                } else {
                    Phase::AfterDelete
                },
            )
        }
    }
}

/// Whether the floor fill stays inside machine integers.
pub open spec fn draw_flor_ok(r: Ray) -> bool {
    &&& 0 <= r.gmipcnt < 8
    &&& airy_bedrock(r) && r.gmipcnt == 0 ==> columns::handoff_fits(r)
    &&& !airy_bedrock(r) && has_floor(r) ==> segment_ok(r) && edge_ok(
        r.cx1,
        r.cy1,
        -r.gi0 as int,
        -r.gi1 as int,
        r.ogx,
        r.gylookup[r.z1 as int],
        false,
        room(current(r).i0 as int, current(r).i1 as int),
    )
}

/// One more floor pixel.
proof fn lemma_flor_after_next(r: Ray, vox: u32, k: nat)
    requires
        r.cf.len() == 256,
        segment_ok(r),
        k < room(current(r).i0 as int, current(r).i1 as int),
    ensures
        flor_after(flor_after(r, vox, k), vox, 1) == flor_after(r, vox, k + 1),
{
    let m = flor_after(r, vox, k);
    let i1 = current(r).i1;
    let t = r.mm5_tail;
    let csub = r.gcsub[3];
    arith::lemma_wrap_twice(r.cx1 - k * r.gi0, -r.gi0 as int);
    arith::lemma_wrap_twice(r.cy1 - k * r.gi1, -r.gi1 as int);
    vstd::arithmetic::mul::lemma_mul_is_distributive_add_other_way(r.gi0 as int, k as int, 1);
    vstd::arithmetic::mul::lemma_mul_is_distributive_add_other_way(r.gi1 as int, k as int, 1);
    reveal_with_fuel(shade_times, 2);
    assert(shade_times(vox, m.mm5_tail, csub, 1) == shade_times(vox, t, csub, k + 1));
    let a = flor_after(m, vox, 1);
    let b = flor_after(r, vox, k + 1);
    assert(current(m).i1 == i1 - k);
    assert(a.radar =~= b.radar);
    assert(a.cf =~= b.cf);
    assert(a =~= b);
}

/// Draws one floor pixel.
fn flor_pixel(state: &mut GrouscanState<'_>, vox: u32)
    requires
        segment_ok(old(state)@),
    ensures
        final(state)@ == flor_after(old(state)@, vox, 1),
        *final(final(state).scratch) == *final(old(state).scratch),
{
    let ghost s = state@;
    proof {
        arith::lemma_wrapping(s.cx1, s.gi0);
        arith::lemma_wrapping(s.cy1, s.gi1);
        reveal_with_fuel(shade_times, 2);
    }
    state.cx1 = state.cx1.wrapping_sub(state.scratch.gi0);
    state.cy1 = state.cy1.wrapping_sub(state.scratch.gi1);
    state.color = grouscan_shade(vox, &mut state.mm5_tail, state.gcsub[3]);
    let slot: isize = state.scratch.cf[state.c_idx].i1;
    if slot >= 0 && (slot as usize) < state.scratch.radar.len() {
        state.scratch.radar[slot as usize] = CastDat {
            col: state.color as i32,
            dist: state.ogx,
        };
    }
    state.scratch.cf[state.c_idx].i1 = slot - 1;
    proof {
        let e = flor_after(s, vox, 1);
        assert(state@.radar =~= e.radar);
        assert(state@.cf =~= e.cf);
        assert(state@ =~= e);
    }
}

/// Fills the floor from the right edge of the current segment.
#[verifier::spinoff_prover]
#[verifier::rlimit(60)]
pub fn phase_draw_flor(state: &mut GrouscanState<'_>) -> (r: Phase)
    requires
        draw_flor_ok(old(state)@),
    ensures
        (final(state)@, r) == draw_flor(old(state)@),
        *final(final(state).scratch) == *final(old(state).scratch),
{
    let ghost r0 = state@;
    let level: u32 = state.gmipcnt as u32;
    let bedrock_z_at_mip: u8 = 0xffu8 >> level;
    let n_bytes: usize = state.column.len();
    if state.scratch.treat_z_max_as_air && n_bytes >= 1 && state.vptr_offset < n_bytes - 1
        && state.column[state.vptr_offset + 1] == bedrock_z_at_mip {
        if state.gmipcnt == 0 && try_handoff_chunk_z_down(state) {
            return Phase::Skipixy3;
        }
        return Phase::AfterDelete;
    }
    if state.z1 < 0 || state.z1 as usize >= state.gylookup.len() {
        return Phase::AfterDelete;
    }
    state.gy_raw = state.gylookup[state.z1 as usize];
    let ghost s = state@;
    assert(s =~= Ray { gy_raw: r0.gylookup[r0.z1 as int], ..r0 });
    if n_bytes < 8 || state.vptr_offset > n_bytes - 8 {
        return Phase::AfterDelete;
    }
    let vox: u32 = read_word(state.column.as_slice(), state.vptr_offset + 4);
    let ghost i1 = current(s).i1;
    let ghost limit = room(current(s).i0 as int, i1 as int);
    let ghost mut k: nat = 0;
    proof {
        arith::lemma_wrapping(s.cx1, 0);
        arith::lemma_wrapping(s.cy1, 0);
        let e = flor_after(s, vox, 0);
        assert(s.radar =~= e.radar);
        assert(s.cf =~= e.cf);
        assert(s =~= e);
    }
    loop
        invariant
            s.cf.len() == 256,
            segment_ok(s),
            i1 == current(s).i1,
            limit == room(current(s).i0 as int, i1 as int),
            k < limit,
            state@ == flor_after(s, vox, k),
            *final(state.scratch) == *final(old(state).scratch),
            draw_flor(old(state)@) == (
                save_right(flor_after(s, vox, flor_len(s))),
                if flor_len(s) == limit {
                    Phase::DeleteZ
                } else {
                    Phase::AfterDelete
                },
            ),
            flor_len(s) == k + edge_len(
                state@.cx1,
                state@.cy1,
                -s.gi0 as int,
                -s.gi1 as int,
                s.ogx,
                s.gy_raw,
                false,
                (limit - k) as nat,
            ),
            edge_ok(
                state@.cx1,
                state@.cy1,
                -s.gi0 as int,
                -s.gi1 as int,
                s.ogx,
                s.gy_raw,
                false,
                (limit - k) as nat,
            ),
        decreases limit - k,
    {
        let test: i32 = grouscan_cross_sign(state.cx1, state.cy1, state.ogx, state.gy_raw);
        if test <= 0 {
            save_right_edge(state);
            return Phase::AfterDelete;
        }
        let ghost m = state@;
        flor_pixel(state, vox);
        proof {
            lemma_flor_after_next(s, vox, k);
            assert(1 * m.gi0 == m.gi0 && 1 * m.gi1 == m.gi1);
            k = k + 1;
        }
        if state.scratch.cf[state.c_idx].i1 < state.scratch.cf[state.c_idx].i0 {
            assert(k == limit);
            save_right_edge(state);
            return Phase::DeleteZ;
        }
    }
}

} // verus!
