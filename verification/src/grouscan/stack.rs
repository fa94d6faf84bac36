//! The segment stack of a scan: taking segments off, moving between them,
//! and splitting one where the view looks past two slabs.
use crate::arith;
use crate::grouscan;
use crate::grouscan::columns;
use crate::grouscan::columns::{column_byte_at, slab_z_at};
use crate::grouscan::fill;
use crate::grouscan::{
    grouscan_cross_sign, CfType, GrouscanState, Phase, Ray, CF_SEED_INDEX, CF_TOP_INDEX,
};
use vstd::prelude::*;

verus! {

/// The ray with its two depths exchanged.
pub open spec fn swapped<'a>(r: Ray<'a>) -> Ray<'a> {
    Ray { ogx: r.gx, gx: r.ogx, ..r }
}

fn swap_depths(state: &mut GrouscanState<'_>)
    ensures
        final(state)@ == swapped(old(state)@),
        *final(final(state).scratch) == *final(old(state).scratch),
{
    let near: i32 = state.ogx;
    state.ogx = state.gx;
    state.gx = near;
    assert(state@ =~= swapped(old(state)@));
}

/// Looks at the far side of the column before its ceiling is filled.
pub fn phase_pre_draw_ceil(state: &mut GrouscanState<'_>) -> (r: Phase)
    ensures
        final(state)@ == swapped(old(state)@),
        r == Phase::DrawCeil,
        *final(final(state).scratch) == *final(old(state).scratch),
{
    swap_depths(state);
    Phase::DrawCeil
}

/// Looks at the far side of the column before its floor is filled.
pub fn phase_pre_draw_flor(state: &mut GrouscanState<'_>) -> (r: Phase)
    ensures
        final(state)@ == swapped(old(state)@),
        r == Phase::DrawFlor,
        *final(final(state).scratch) == *final(old(state).scratch),
{
    swap_depths(state);
    Phase::DrawFlor
}

/// Looks at the far side of the column before a segment is taken off.
pub fn phase_pre_delete_z(state: &mut GrouscanState<'_>) -> (r: Phase)
    ensures
        final(state)@ == swapped(old(state)@),
        r == Phase::DeleteZ,
        *final(final(state).scratch) == *final(old(state).scratch),
{
    swap_depths(state);
    Phase::DeleteZ
}

/// Looks at the near side of the column again, in the same column.
pub fn phase_skipixy_with_presync(state: &mut GrouscanState<'_>) -> (r: Phase)
    ensures
        final(state)@ == swapped(old(state)@),
        r == Phase::SyncFromPresync,
        *final(final(state).scratch) == *final(old(state).scratch),
{
    swap_depths(state);
    Phase::SyncFromPresync
}

/// The stack without the segment at `c`: the segments above it, up to
/// `ce`, move down by one.
pub open spec fn without(cf: Seq<CfType>, c: int, ce: int) -> Seq<CfType> {
    Seq::new(
        cf.len(),
        |p: int|
            if c <= p < ce {
                cf[p + 1]
            } else {
                cf[p]
            },
    )
}

/// The stack with the segment at `c` twice: it and the segments above it,
/// up to `ce`, move up by one.
pub open spec fn doubled(cf: Seq<CfType>, c: int, ce: int) -> Seq<CfType> {
    Seq::new(
        cf.len(),
        |p: int|
            if c < p <= ce + 1 {
                cf[p - 1]
            } else {
                cf[p]
            },
    )
}

/// Takes the current segment off the stack; the scan ends with the seed.
pub open spec fn delete_z<'a>(r: Ray<'a>) -> (Ray<'a>, Phase) {
    let popped = Ray { ce_idx: r.ce_idx - 1, ..r };
    if r.ce_idx <= CF_SEED_INDEX {
        (r, Phase::Done)
    } else if r.c_idx < r.ce_idx {
        (
            Ray { cf: without(r.cf, r.c_idx, r.ce_idx), c_presync_idx: r.ce_idx, ..popped },
            Phase::AfterDeleteKeptPresync,
        )
    } else {
        (popped, Phase::AfterDelete)
    }
}

/// Takes the current segment off the stack.
pub fn phase_delete_z(state: &mut GrouscanState<'_>) -> (r: Phase)
    requires
        old(state)@.ce_idx < 256,
    ensures
        (final(state)@, r) == delete_z(old(state)@),
        *final(final(state).scratch) == *final(old(state).scratch),
{
    if state.ce_idx <= CF_SEED_INDEX {
        return Phase::Done;
    }
    let ghost r0 = state@;
    let old_ce: usize = state.ce_idx;
    state.ce_idx = old_ce - 1;
    if state.c_idx < old_ce {
        let ghost popped = state@;
        let mut p: usize = state.c_idx;
        while p < old_ce
            invariant
                r0.cf.len() == 256,
                old_ce < 256,
                r0.c_idx <= p <= old_ce,
                popped == (Ray { ce_idx: r0.ce_idx - 1, ..r0 }),
                state@ == (Ray { cf: without(r0.cf, r0.c_idx, p as int), ..popped }),
                *final(state.scratch) == *final(old(state).scratch),
            decreases old_ce - p,
        {
            state.scratch.cf[p] = state.scratch.cf[p + 1];
            p += 1;
            assert(state@.cf =~= without(r0.cf, r0.c_idx, p as int));
            assert(state@ =~= Ray { cf: without(r0.cf, r0.c_idx, p as int), ..popped });
        }
        state.c_presync_idx = old_ce;
        assert(state@ =~= delete_z(r0).0);
        return Phase::AfterDeleteKeptPresync;
    }
    assert(state@ =~= delete_z(r0).0);
    Phase::AfterDelete
}

/// Marks the current segment as the one that the values belong to.
pub fn phase_after_delete(state: &mut GrouscanState<'_>) -> (r: Phase)
    ensures
        final(state)@ == (Ray { c_presync_idx: old(state)@.c_idx, ..old(state)@ }),
        r == Phase::AfterDeleteKeptPresync,
        *final(final(state).scratch) == *final(old(state).scratch),
{
    state.c_presync_idx = state.c_idx;
    Phase::AfterDeleteKeptPresync
}

/// The segment with the current values.
pub open spec fn saved_segment(r: Ray, c: CfType) -> CfType {
    CfType { z0: r.z0, z1: r.z1, cx0: r.cx0, cy0: r.cy0, cx1: r.cx1, cy1: r.cy1, ..c }
}

/// Saves the current values where they belong and takes those of the
/// current segment. The slots of the segments stay.
pub open spec fn sync_from_presync<'a>(r: Ray<'a>) -> Ray<'a> {
    let p = r.c_presync_idx;
    let cf = if p < 256 {
        r.cf.update(p, saved_segment(r, r.cf[p]))
    } else {
        r.cf
    };
    let c = cf[r.c_idx];
    Ray { cf, z0: c.z0, z1: c.z1, cx0: c.cx0, cy0: c.cy0, cx1: c.cx1, cy1: c.cy1, ..r }
}

/// Saves the current values in the segment at stack position `at`.
fn save_values(state: &mut GrouscanState<'_>, at: usize)
    requires
        at < 256,
    ensures
        final(state)@ == (Ray {
            cf: old(state)@.cf.update(
                at as int,
                saved_segment(old(state)@, old(state)@.cf[at as int]),
            ),
            ..old(state)@
        }),
        *final(final(state).scratch) == *final(old(state).scratch),
{
    let ghost r0 = state@;
    state.scratch.cf[at].z0 = state.z0;
    state.scratch.cf[at].z1 = state.z1;
    state.scratch.cf[at].cx0 = state.cx0;
    state.scratch.cf[at].cy0 = state.cy0;
    state.scratch.cf[at].cx1 = state.cx1;
    state.scratch.cf[at].cy1 = state.cy1;
    proof {
        let e = r0.cf.update(at as int, saved_segment(r0, r0.cf[at as int]));
        assert(state@.cf =~= e);
        assert(state@ =~= Ray { cf: e, ..r0 });
    }
}

/// Saves the current values and takes those of the current segment.
pub fn phase_sync_from_presync(state: &mut GrouscanState<'_>) -> (r: Phase)
    requires
        old(state)@.c_idx < 256,
    ensures
        final(state)@ == sync_from_presync(old(state)@),
        r == Phase::Skipixy3,
        *final(final(state).scratch) == *final(old(state).scratch),
{
    let ghost r0 = state@;
    if state.c_presync_idx < 256 {
        save_values(state, state.c_presync_idx);
    }
    let c: CfType = state.scratch.cf[state.c_idx];
    state.z0 = c.z0;
    state.z1 = c.z1;
    state.cx0 = c.cx0;
    state.cy0 = c.cy0;
    state.cx1 = c.cx1;
    state.cy1 = c.cy1;
    assert(state@ =~= sync_from_presync(r0));
    Phase::Skipixy3
}

/// Which phase follows at a slab: a last slab is drawn, any other is
/// looked at.
pub open spec fn at_slab(r: Ray) -> Phase {
    if columns::column_byte(r, r.vptr_offset) == 0 {
        Phase::DrawFwall
    } else {
        Phase::Intoslabloop
    }
}

/// Looks at the current slab of the column.
pub fn phase_skipixy3(state: &mut GrouscanState<'_>) -> (r: Phase)
    ensures
        final(state)@ == old(state)@,
        r == at_slab(old(state)@),
        *final(final(state).scratch) == *final(old(state).scratch),
{
    let v0: u8 = column_byte_at(state, 0);
    if v0 == 0 {
        Phase::DrawFwall
    } else {
        Phase::Intoslabloop
    }
}

/// Moves to the next slab.
pub open spec fn find_slab<'a>(r: Ray<'a>) -> (Ray<'a>, Phase) {
    let v0 = columns::column_byte(r, r.vptr_offset);
    if v0 == 0 {
        (r, Phase::DrawFwall)
    } else {
        let s = Ray {
            vptr_offset: arith::min_int(r.vptr_offset + v0 * 4, usize::MAX as int),
            ..r
        };
        (s, at_slab(s))
    }
}

/// Moves to the next slab of the column.
pub fn phase_findslabloop(state: &mut GrouscanState<'_>) -> (r: Phase)
    ensures
        (final(state)@, r) == find_slab(old(state)@),
        *final(final(state).scratch) == *final(old(state).scratch),
{
    let ghost r0 = state@;
    let v0: u8 = column_byte_at(state, 0);
    if v0 == 0 {
        return Phase::DrawFwall;
    }
    state.vptr_offset = state.vptr_offset.saturating_add(v0 as usize * 4);
    assert(state@ =~= find_slab(r0).0);
    let next_v0: u8 = column_byte_at(state, 0);
    if next_v0 == 0 {
        Phase::DrawFwall
    } else {
        Phase::Intoslabloop
    }
}

// ---------------------------------------------------------------------
// Splitting a segment.

/// Big steps of the split search: sixteen slots each, while the right
/// edge stays past the ray.
pub open spec fn big_steps(r: Ray) -> int {
    fill::edge_len(
        arith::wrap32(r.cx1 - 16 * r.gi0),
        arith::wrap32(r.cy1 - 16 * r.gi1),
        -16 * r.gi0,
        -16 * r.gi1,
        r.ogx,
        r.gy_raw,
        false,
        big_step_limit(r),
    ) as int
}

/// No more big steps than the segment has room for, and one.
pub open spec fn big_step_limit(r: Ray) -> nat {
    let c = fill::current(r);
    (arith::max_int(c.i1 - c.i0, 0) / 16 + 1) as nat
}

/// The ray with the right edge moved left by `k` slots.
pub open spec fn edge_moved<'a>(r: Ray<'a>, k: int) -> Ray<'a> {
    Ray {
        cx1: arith::wrap32(r.cx1 - k * r.gi0),
        cy1: arith::wrap32(r.cy1 - k * r.gi1),
        ..r
    }
}

/// Single steps of the split search, after the big ones.
pub open spec fn small_steps(r: Ray) -> int {
    let m = edge_moved(r, 16 * big_steps(r));
    fill::edge_len(m.cx1, m.cy1, -r.gi0 as int, -r.gi1 as int, r.ogx, r.gy_raw, false, 17) as int
}

/// Slots from the right edge of the segment to where it is split.
pub open spec fn split_steps(r: Ray) -> int {
    16 * big_steps(r) + small_steps(r)
}

/// The stack after the split at slot `col`: the lower segment keeps the
/// slots up to `col`, the upper one those after it, from height
/// `next_v3` on.
pub open spec fn split_stack(r: Ray, next_v3: i32, col: int) -> Seq<CfType> {
    let cf = doubled(r.cf, r.c_idx, r.ce_idx);
    let low = CfType { i1: col as isize, ..cf[r.c_idx + 1] };
    let high = CfType {
        i0: (col + 1) as isize,
        z0: next_v3,
        cx0: arith::wrap32(r.cx1 + r.gi0),
        cy0: arith::wrap32(r.cy1 + r.gi1),
        ..cf[r.c_idx]
    };
    cf.update(r.c_idx + 1, low).update(r.c_idx, high)
}

/// Splits the current segment between the slab whose solid ends at `v2`
/// and the next slab, whose solid begins at `next_v3`. A full stack ends
/// the scan.
pub open spec fn slab_split<'a>(r: Ray<'a>, v2: int, next_v3: i32) -> (Ray<'a>, Phase) {
    let a = fill::with_current(r, saved_segment(r, fill::current(r)));
    if !(0 <= v2 + 1 < r.gylookup.len()) {
        (a, Phase::DrawFwall)
    } else {
        let b = Ray { gy_raw: r.gylookup[v2 + 1], ..a };
        let col = fill::current(b).i1 - split_steps(b);
        let m = edge_moved(b, split_steps(b));
        if r.ce_idx >= CF_TOP_INDEX {
            (m, Phase::Done)
        } else {
            let cf = split_stack(m, next_v3, col);
            (
                Ray {
                    cf,
                    ce_idx: r.ce_idx + 1,
                    c_idx: r.c_idx + 1,
                    z0: cf[r.c_idx + 1].z0,
                    z1: next_v3,
                    ..m
                },
                Phase::DrawFwall,
            )
        }
    }
}

/// Whether the split stays inside machine integers.
pub open spec fn slab_split_ok(r: Ray, v2: int) -> bool {
    &&& 0 <= r.c_idx < 255
    &&& v2 < i32::MAX
    &&& 0 <= v2 + 1 < r.gylookup.len() ==> {
        let a = fill::with_current(r, saved_segment(r, fill::current(r)));
        let b = Ray { gy_raw: r.gylookup[v2 + 1], ..a };
        let c = fill::current(r);
        let m = edge_moved(b, 16 * big_steps(b));
        &&& isize::MIN <= c.i1 - c.i0 <= isize::MAX
        &&& isize::MIN <= c.i1 - split_steps(b)
        &&& c.i1 < isize::MAX
        &&& fill::edge_ok(
            arith::wrap32(r.cx1 - 16 * r.gi0),
            arith::wrap32(r.cy1 - 16 * r.gi1),
            -16 * r.gi0,
            -16 * r.gi1,
            r.ogx,
            b.gy_raw,
            false,
            big_step_limit(b),
        )
        &&& fill::edge_ok(
            m.cx1,
            m.cy1,
            -r.gi0 as int,
            -r.gi1 as int,
            r.ogx,
            b.gy_raw,
            false,
            17,
        )
    }
}

pub proof fn lemma_edge_moved(r: Ray, j: int, k: int)
    ensures
        edge_moved(edge_moved(r, j), k) == edge_moved(r, j + k),
        edge_moved(r, 0) == r,
{
    arith::lemma_wrapping(r.cx1, 0);
    arith::lemma_wrapping(r.cy1, 0);
    arith::lemma_wrap_twice(r.cx1 - j * r.gi0, -(k * r.gi0));
    arith::lemma_wrap_twice(r.cy1 - j * r.gi1, -(k * r.gi1));
    assert(r.cx1 - j * r.gi0 - k * r.gi0 == r.cx1 - (j + k) * r.gi0) by (nonlinear_arith);
    assert(r.cy1 - j * r.gi1 - k * r.gi1 == r.cy1 - (j + k) * r.gi1) by (nonlinear_arith);
    assert(edge_moved(edge_moved(r, j), k) =~= edge_moved(r, j + k));
    assert(0 * r.gi0 == 0 && 0 * r.gi1 == 0);
    assert(edge_moved(r, 0) =~= r);
}

/// Shifting left by four multiplies by sixteen, wrapped.
pub proof fn lemma_shl4(x: i32)
    ensures
        x << 4u32 == arith::wrap32(16 * x),
{
    assert(x << 4u32 == (x * 16 + 0x8000_0000) % 0x1_0000_0000 - 0x8000_0000) by (bit_vector);
}

/// The big steps of the split search. Returns the slot that is reached.
fn search_big(state: &mut GrouscanState<'_>) -> (col: isize)
    requires
        0 <= old(state)@.c_idx < 256,
        isize::MIN <= fill::current(old(state)@).i1 - fill::current(old(state)@).i0 <= isize::MAX,
        isize::MIN <= fill::current(old(state)@).i1 - 16 * big_steps(old(state)@),
        fill::edge_ok(
            arith::wrap32(old(state)@.cx1 - 16 * old(state)@.gi0),
            arith::wrap32(old(state)@.cy1 - 16 * old(state)@.gi1),
            -16 * old(state)@.gi0,
            -16 * old(state)@.gi1,
            old(state)@.ogx,
            old(state)@.gy_raw,
            false,
            big_step_limit(old(state)@),
        ),
    ensures
        final(state)@ == edge_moved(old(state)@, 16 * big_steps(old(state)@)),
        col == fill::current(old(state)@).i1 - 16 * big_steps(old(state)@),
        *final(final(state).scratch) == *final(old(state).scratch),
{
    let ghost s = state@;
    let i1: isize = state.scratch.cf[state.c_idx].i1;
    let i0: isize = state.scratch.cf[state.c_idx].i0;
    let mut col: isize = i1;
    let span: isize = if i1 - i0 > 0 {
        i1 - i0
    } else {
        0
    };
    let limit: usize = span as usize / 16 + 1;
    let gi0_16: i32 = state.scratch.gi0 << 4u32;
    let gi1_16: i32 = state.scratch.gi1 << 4u32;
    let mut done: usize = 0;
    proof {
        lemma_shl4(s.gi0);
        lemma_shl4(s.gi1);
        lemma_edge_moved(s, 0, 0);
        arith::lemma_wrap_twice(s.cx1 - 16 * s.gi0, 0);
        arith::lemma_wrap_twice(s.cy1 - 16 * s.gi1, 0);
    }
    while done < limit
        invariant_except_break
            state@ == edge_moved(s, 16 * done),
            col == i1 - 16 * done,
            big_steps(s) == done + fill::edge_len(
                arith::wrap32(state@.cx1 - 16 * s.gi0),
                arith::wrap32(state@.cy1 - 16 * s.gi1),
                -16 * s.gi0,
                -16 * s.gi1,
                s.ogx,
                s.gy_raw,
                false,
                (limit - done) as nat,
            ),
            fill::edge_ok(
                arith::wrap32(state@.cx1 - 16 * s.gi0),
                arith::wrap32(state@.cy1 - 16 * s.gi1),
                -16 * s.gi0,
                -16 * s.gi1,
                s.ogx,
                s.gy_raw,
                false,
                (limit - done) as nat,
            ),
        invariant
            done <= limit,
            limit == big_step_limit(s),
            i1 == fill::current(s).i1,
            isize::MIN <= i1 - 16 * big_steps(s),
            gi0_16 == arith::wrap32(16 * s.gi0),
            gi1_16 == arith::wrap32(16 * s.gi1),
            *final(state.scratch) == *final(old(state).scratch),
        ensures
            state@ == edge_moved(s, 16 * big_steps(s)),
            col == i1 - 16 * big_steps(s),
        decreases limit - done,
    {
        let ghost m = state@;
        proof {
            arith::lemma_wrapping(m.cx1, gi0_16);
            arith::lemma_wrapping(m.cy1, gi1_16);
            lemma_wrapped_sub(m.cx1, 16 * s.gi0);
            lemma_wrapped_sub(m.cy1, 16 * s.gi1);
        }
        let cx_try: i32 = state.cx1.wrapping_sub(gi0_16);
        let cy_try: i32 = state.cy1.wrapping_sub(gi1_16);
        if grouscan_cross_sign(cx_try, cy_try, state.ogx, state.gy_raw) <= 0 {
            break;
        }
        state.cx1 = cx_try;
        state.cy1 = cy_try;
        col = col - 16;
        proof {
            assert(16 * s.gi0 == s.gi0 * 16 && 16 * s.gi1 == s.gi1 * 16);
            assert(state@ =~= edge_moved(m, 16));
            lemma_edge_moved(s, 16 * done, 16);
        }
        done = done + 1;
    }
    col
}

/// Subtracting a wrapped number is subtracting the number, wrapped.
pub proof fn lemma_wrapped_sub(x: i32, d: int)
    ensures
        arith::wrap32(x - arith::wrap32(d)) == arith::wrap32(x - d),
{
    let m: int = 0x1_0000_0000;
    let y = d + 0x8000_0000;
    let q = y / m;
    assert(arith::wrap32(d) as int == d - q * m) by (nonlinear_arith)
        requires
            arith::wrap32(d) as int == y % m - 0x8000_0000,
            y == d + 0x8000_0000,
            q == y / m,
            m == 0x1_0000_0000,
    ;
    vstd::arithmetic::div_mod::lemma_mod_multiples_vanish(q, x - d + 0x8000_0000, m);
    assert(m * q + (x - d + 0x8000_0000) == x - arith::wrap32(d) + 0x8000_0000)
        by (nonlinear_arith)
        requires
            arith::wrap32(d) as int == d - q * m,
    ;
}

/// The single steps of the split search, from slot `from`. Returns the
/// slot that is reached.
fn search_small(state: &mut GrouscanState<'_>, from: isize) -> (col: isize)
    requires
        fill::edge_ok(
            old(state)@.cx1,
            old(state)@.cy1,
            -old(state)@.gi0 as int,
            -old(state)@.gi1 as int,
            old(state)@.ogx,
            old(state)@.gy_raw,
            false,
            17,
        ),
        isize::MIN <= from - fill::edge_len(
            old(state)@.cx1,
            old(state)@.cy1,
            -old(state)@.gi0 as int,
            -old(state)@.gi1 as int,
            old(state)@.ogx,
            old(state)@.gy_raw,
            false,
            17,
        ),
    ensures
        from - col == fill::edge_len(
            old(state)@.cx1,
            old(state)@.cy1,
            -old(state)@.gi0 as int,
            -old(state)@.gi1 as int,
            old(state)@.ogx,
            old(state)@.gy_raw,
            false,
            17,
        ),
        final(state)@ == edge_moved(old(state)@, from - col),
        *final(final(state).scratch) == *final(old(state).scratch),
{
    let ghost s = state@;
    let ghost total = fill::edge_len(
        s.cx1,
        s.cy1,
        -s.gi0 as int,
        -s.gi1 as int,
        s.ogx,
        s.gy_raw,
        false,
        17,
    );
    let mut col: isize = from;
    let mut done: usize = 0;
    proof {
        lemma_edge_moved(s, 0, 0);
    }
    while done < 17
        invariant_except_break
            state@ == edge_moved(s, done as int),
            from - col == done,
            total == done + fill::edge_len(
                state@.cx1,
                state@.cy1,
                -s.gi0 as int,
                -s.gi1 as int,
                s.ogx,
                s.gy_raw,
                false,
                (17 - done) as nat,
            ),
            fill::edge_ok(
                state@.cx1,
                state@.cy1,
                -s.gi0 as int,
                -s.gi1 as int,
                s.ogx,
                s.gy_raw,
                false,
                (17 - done) as nat,
            ),
        invariant
            done <= 17,
            isize::MIN <= from - total,
            *final(state.scratch) == *final(old(state).scratch),
        ensures
            from - col == total,
            state@ == edge_moved(s, total as int),
        decreases 17 - done,
    {
        if grouscan_cross_sign(state.cx1, state.cy1, state.ogx, state.gy_raw) <= 0 {
            break;
        }
        let ghost m = state@;
        proof {
            arith::lemma_wrapping(m.cx1, m.gi0);
            arith::lemma_wrapping(m.cy1, m.gi1);
        }
        state.cx1 = state.cx1.wrapping_sub(state.scratch.gi0);
        state.cy1 = state.cy1.wrapping_sub(state.scratch.gi1);
        col = col - 1;
        proof {
            assert(1 * m.gi0 == m.gi0 && 1 * m.gi1 == m.gi1);
            assert(state@ =~= edge_moved(m, 1));
            lemma_edge_moved(s, done as int, 1);
        }
        done = done + 1;
    }
    col
}

/// Moves the segments above the current one up and doubles it.
fn double_segment(state: &mut GrouscanState<'_>)
    requires
        0 <= old(state)@.c_idx < 255,
        old(state)@.ce_idx < CF_TOP_INDEX,
    ensures
        final(state)@ == (Ray {
            cf: doubled(old(state)@.cf, old(state)@.c_idx, old(state)@.ce_idx),
            ce_idx: old(state)@.ce_idx + 1,
            ..old(state)@
        }),
        *final(final(state).scratch) == *final(old(state).scratch),
{
    let ghost r0 = state@;
    let c: usize = state.c_idx;
    state.ce_idx = state.ce_idx + 1;
    let ghost pushed = state@;
    let top: usize = state.ce_idx;
    let mut p: usize = top;
    assert(r0.cf =~= Seq::new(
        r0.cf.len(),
        |q: int|
            if p < q <= top && c < q {
                r0.cf[q - 1]
            } else {
                r0.cf[q]
            },
    ));
    while p > c
        invariant
            r0.cf.len() == 256,
            c == r0.c_idx,
            top == r0.ce_idx + 1,
            top <= 191,
            p <= top,
            pushed == (Ray { ce_idx: r0.ce_idx + 1, ..r0 }),
            state@ == (Ray {
                cf: Seq::new(
                    r0.cf.len(),
                    |q: int|
                        if p < q <= top && c < q {
                            r0.cf[q - 1]
                        } else {
                            r0.cf[q]
                        },
                ),
                ..pushed
            }),
            *final(state.scratch) == *final(old(state).scratch),
        decreases p,
    {
        state.scratch.cf[p] = state.scratch.cf[p - 1];
        p = p - 1;
        proof {
            let e = Seq::new(
                r0.cf.len(),
                |q: int|
                    if p < q <= top && c < q {
                        r0.cf[q - 1]
                    } else {
                        r0.cf[q]
                    },
            );
            assert(state@.cf =~= e);
            assert(state@ =~= Ray { cf: e, ..pushed });
        }
    }
    proof {
        let e = doubled(r0.cf, r0.c_idx, r0.ce_idx);
        assert(state@.cf =~= e);
        assert(state@ =~= Ray { cf: e, ..pushed });
    }
}

/// Splits the current segment between two slabs.
pub fn do_slab_split(state: &mut GrouscanState<'_>, v2: i32, next_v3: i32) -> (r: Phase)
    requires
        slab_split_ok(old(state)@, v2 as int),
    ensures
        (final(state)@, r) == slab_split(old(state)@, v2 as int, next_v3),
        *final(final(state).scratch) == *final(old(state).scratch),
{
    let ghost r0 = state@;
    save_values(state, state.c_idx);
    let ghost a = state@;
    let gy_idx: i32 = v2 + 1;
    if gy_idx < 0 || gy_idx as usize >= state.gylookup.len() {
        return Phase::DrawFwall;
    }
    state.gy_raw = state.gylookup[gy_idx as usize];
    let ghost b = state@;
    assert(b =~= Ray { gy_raw: r0.gylookup[v2 + 1], ..a });
    let far: isize = search_big(state);
    let ghost m16 = state@;
    let col: isize = search_small(state, far);
    proof {
        lemma_edge_moved(b, 16 * big_steps(b), small_steps(b));
    }
    let ghost m = state@;
    assert(m == edge_moved(b, split_steps(b)));
    assert(col == fill::current(b).i1 - split_steps(b));
    if state.ce_idx >= CF_TOP_INDEX {
        return Phase::Done;
    }
    double_segment(state);
    let ghost d = state@;
    proof {
        arith::lemma_wrapping(m.cx1, m.gi0);
        arith::lemma_wrapping(m.cy1, m.gi1);
    }
    let new_cx0: i32 = state.cx1.wrapping_add(state.scratch.gi0);
    let new_cy0: i32 = state.cy1.wrapping_add(state.scratch.gi1);
    let c: usize = state.c_idx;
    state.scratch.cf[c + 1].i1 = col;
    state.scratch.cf[c].i0 = col + 1;
    state.scratch.cf[c].z0 = next_v3;
    state.scratch.cf[c].cx0 = new_cx0;
    state.scratch.cf[c].cy0 = new_cy0;
    assert(state@.cf =~= split_stack(m, next_v3, col as int));
    state.c_idx = c + 1;
    state.z0 = state.scratch.cf[c + 1].z0;
    state.z1 = next_v3;
    assert(state@ =~= slab_split(r0, v2 as int, next_v3).0);
    Phase::DrawFwall
}

// ---------------------------------------------------------------------
// Looking at a slab.

/// Looks at the current slab: one that lies above the view is passed; of
/// two that lie in the view the segment is split.
pub open spec fn into_slab<'a>(r: Ray<'a>) -> (Ray<'a>, Phase) {
    let v2 = columns::slab_z(r, r.vptr_offset, 2);
    if !(0 <= v2 + 1 < r.gylookup.len()) {
        (r, Phase::DrawFwall)
    } else {
        let a = Ray { gy_raw: r.gylookup[v2 + 1], ..r };
        let v0 = columns::column_byte(r, r.vptr_offset);
        let next_v3 = columns::slab_z(r, r.vptr_offset + v0 * 4, 3);
        if grouscan::cross(r.cx0, r.cy0, r.ogx, a.gy_raw) > 0 {
            (a, Phase::Findslabloop)
        } else if !(0 <= next_v3 < r.gylookup.len()) {
            (a, Phase::DrawFwall)
        } else {
            let b = Ray { gy_raw: r.gylookup[next_v3], ..r };
            if grouscan::cross(r.cx1, r.cy1, r.ogx, b.gy_raw) <= 0 {
                (b, Phase::DrawFwall)
            } else {
                slab_split(b, v2, next_v3 as i32)
            }
        }
    }
}

/// Whether looking at the slab stays inside machine integers.
pub open spec fn into_slab_ok(r: Ray) -> bool {
    let v2 = columns::slab_z(r, r.vptr_offset, 2);
    let v0 = columns::column_byte(r, r.vptr_offset);
    let next_v3 = columns::slab_z(r, r.vptr_offset + v0 * 4, 3);
    &&& columns::level_ok(r)
    &&& v2 < i32::MAX
    &&& 0 <= v2 + 1 < r.gylookup.len() ==> {
        let gy = r.gylookup[v2 + 1];
        &&& grouscan::cross(r.cx0, r.cy0, r.ogx, gy) <= i32::MAX
        &&& grouscan::cross(r.cx0, r.cy0, r.ogx, gy) <= 0 && 0 <= next_v3 < r.gylookup.len() ==> {
            let b = Ray { gy_raw: r.gylookup[next_v3], ..r };
            &&& grouscan::cross(r.cx1, r.cy1, r.ogx, b.gy_raw) <= i32::MAX
            &&& grouscan::cross(r.cx1, r.cy1, r.ogx, b.gy_raw) > 0 ==> slab_split_ok(b, v2)
        }
    }
}

/// Looks at the current slab of the column.
pub fn phase_intoslabloop(state: &mut GrouscanState<'_>) -> (r: Phase)
    requires
        into_slab_ok(old(state)@),
    ensures
        (final(state)@, r) == into_slab(old(state)@),
        *final(final(state).scratch) == *final(old(state).scratch),
{
    let ghost r0 = state@;
    let v2: i32 = slab_z_at(state, state.vptr_offset, 2);
    let gy_idx: i32 = v2 + 1;
    if gy_idx < 0 || gy_idx as usize >= state.gylookup.len() {
        return Phase::DrawFwall;
    }
    state.gy_raw = state.gylookup[gy_idx as usize];
    let ghost a = state@;
    assert(a =~= Ray { gy_raw: r0.gylookup[v2 + 1], ..r0 });
    let test_hi: i32 = grouscan_cross_sign(state.cx0, state.cy0, state.ogx, state.gy_raw);
    if test_hi > 0 {
        return Phase::Findslabloop;
    }
    let v0: usize = column_byte_at(state, 0) as usize;
    let n_bytes: usize = state.column.len();
    let next_slab: usize = state.vptr_offset.saturating_add(v0 * 4);
    let next_v3: i32 = slab_z_at(state, next_slab, 3);
    assert(columns::column_byte(a, next_slab + 3) == columns::column_byte(
        a,
        r0.vptr_offset + v0 * 4 + 3,
    ));
    if next_v3 < 0 || next_v3 as usize >= state.gylookup.len() {
        return Phase::DrawFwall;
    }
    state.gy_raw = state.gylookup[next_v3 as usize];
    let ghost b = state@;
    assert(b =~= Ray { gy_raw: r0.gylookup[next_v3 as int], ..r0 });
    let test_next: i32 = grouscan_cross_sign(state.cx1, state.cy1, state.ogx, state.gy_raw);
    if test_next <= 0 {
        return Phase::DrawFwall;
    }
    do_slab_split(state, v2, next_v3)
}

} // verus!
