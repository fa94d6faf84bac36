//! Scans that meet no slab: they end, and every slot of the seed shows
//! the sky.
use crate::cf_narrow;
use crate::grouscan::columns;
use crate::grouscan::fill;
use crate::grouscan::run;
use crate::grouscan::skyfill;
use crate::grouscan::stack;
use crate::grouscan::step;
use crate::grouscan::{GrouscanInputs, Phase, Ray, CF_SEED_INDEX};
use crate::rasterizer::ScanScratch;
use crate::slab;
use vstd::prelude::*;

verus! {

/// Whether no column of a chunk stores a slab.
pub open spec fn no_slabs(slab_buf: Seq<u8>, column_offsets: Seq<u32>) -> bool {
    forall|i: int|
        0 <= i < column_offsets.len() ==> slab::chain_bytes(
            slab_buf,
            #[trigger] column_offsets[i] as int,
        ).len() == 0
}

/// Whether the grid lines along one axis get farther, or are out of
/// reach.
pub open spec fn recedes(gpz: i32, gdz: i32) -> bool {
    gdz > 0 || (gdz == 0 && gpz == i32::MAX)
}

/// How many grid lines along one axis lie within depth `far`.
pub open spec fn lines_within(gpz: i32, gdz: i32, far: i32) -> int {
    if gdz > 0 && 0 <= gpz <= far {
        (far - gpz) / gdz as int + 1
    } else {
        0
    }
}

/// Whether a column coordinate can take `n` more steps.
pub open spec fn can_step(c: i32, n: int) -> bool {
    i32::MIN + n <= c <= i32::MAX - n
}

/// Whether the cursor stays a machine integer on the way to the end of
/// the scan. The line that the ray crosses next is counted already.
pub open spec fn cursor_fits(r: Ray) -> bool {
    let nx = lines_within(r.gpz[0], r.gdz[0], r.ngxmax) + if r.lane == 0 {
        1int
    } else {
        0
    };
    let ny = lines_within(r.gpz[1], r.gdz[1], r.ngxmax) + if r.lane == 1 {
        1int
    } else {
        0
    };
    &&& can_step(r.cx, nx) && can_step(r.cx_mip, nx)
    &&& can_step(r.cy, ny) && can_step(r.cy_mip, ny)
}

/// A scan of one level that is in an empty column, with no slab in its
/// chunk and a plain sky; only the seed segment is open.
pub open spec fn drifting(r: Ray) -> bool {
    &&& r.grid_view.chunk_grid is None
    &&& r.gmipcnt == 0 && r.gmipnum <= 1
    &&& r.sky is None || r.sky_off == 0
    &&& r.column.len() == 0 && r.vptr_offset == 0
    &&& no_slabs(r.slab_buf, r.column_offsets)
    &&& r.c_idx == CF_SEED_INDEX && r.ce_idx == CF_SEED_INDEX
    &&& r.gpz.len() == 2 && r.gdz.len() == 2
    &&& 0 <= r.lane < 2
    &&& 0 <= r.ngxmax < i32::MAX
    &&& recedes(r.gpz[0], r.gdz[0]) && recedes(r.gpz[1], r.gdz[1])
    &&& cursor_fits(r)
}

/// Two rays that the sky fills alike.
pub open spec fn same_view(r: Ray, s: Ray) -> bool {
    &&& s.radar == r.radar
    &&& s.cf == r.cf
    &&& s.ce_idx == r.ce_idx
    &&& s.skycast == r.skycast
}

pub proof fn lemma_negative_is_large(x: i32)
    requires
        x < 0,
    ensures
        x as u32 >= 0x8000_0000,
{
    assert(x < 0 ==> x as u32 >= 0x8000_0000) by (bit_vector);
}

/// Crossing the nearer line leaves fewer lines within the depth.
pub proof fn lemma_fewer_lines(gpz: i32, gdz: i32, far: i32)
    requires
        gdz > 0,
        0 <= gpz <= far < i32::MAX,
    ensures
        lines_within(gpz.wrapping_add(gdz), gdz, far) <= lines_within(gpz, gdz, far) - 1,
        lines_within(gpz, gdz, far) >= 1,
{
    let a = far - gpz;
    let d = gdz as int;
    vstd::arithmetic::div_mod::lemma_div_pos_is_pos(a, d);
    if gpz + gdz <= far {
        vstd::arithmetic::div_mod::lemma_div_minus_one(a, d);
    }
}

/// One phase more.
proof fn lemma_one_phase(r: Ray, phase: Phase, n: nat)
    requires
        phase != Phase::Done,
        run::step_ok(r, phase),
        run::done_within(run::step_phase(r, phase).0, run::step_phase(r, phase).1, n),
    ensures
        run::done_within(r, phase, n + 1),
        run::after(r, phase, n + 1) == run::after(
            run::step_phase(r, phase).0,
            run::step_phase(r, phase).1,
            n,
        ),
{
}

/// The ray after the phases of an empty column.
spec fn idle<'a>(e: Ray<'a>) -> Ray<'a> {
    fill::draw_ceil(stack::swapped(e)).0
}

/// In an empty column nothing is drawn.
proof fn lemma_nothing_drawn(e: Ray, n: nat)
    requires
        e.column.len() == 0,
        e.vptr_offset == 0,
        e.gmipcnt == 0,
        run::done_within(idle(e), Phase::AfterDelete, n),
    ensures
        run::done_within(e, Phase::Skipixy3, n + 5),
        run::after(e, Phase::Skipixy3, n + 5) == run::after(idle(e), Phase::AfterDelete, n),
{
    let f = stack::swapped(e);
    assert(run::step_phase(f, Phase::DrawCeil) == (idle(e), Phase::AfterDelete));
    lemma_one_phase(f, Phase::DrawCeil, n);
    assert(run::step_phase(e, Phase::PreDrawCeil) == (f, Phase::DrawCeil));
    lemma_one_phase(e, Phase::PreDrawCeil, n + 1);
    assert(run::step_phase(e, Phase::DrawCwall) == (e, Phase::PreDrawCeil));
    lemma_one_phase(e, Phase::DrawCwall, n + 2);
    assert(run::step_phase(e, Phase::DrawFwall) == (e, Phase::DrawCwall));
    lemma_one_phase(e, Phase::DrawFwall, n + 3);
    assert(run::step_phase(e, Phase::Skipixy3) == (e, Phase::DrawFwall));
    lemma_one_phase(e, Phase::Skipixy3, n + 4);
}

/// The next column is as empty as this one, and the cursor has moved.
proof fn lemma_next_is_empty(r: Ray)
    requires
        drifting(r),
    ensures
        ({
            let a = Ray { c_presync_idx: r.c_idx, ..r };
            let s = step::next_column(a);
            &&& step::stepped_ok(Ray { c_idx: a.c_idx - 1, ..a })
            &&& step::refreshed_ok(step::stepped(Ray { c_idx: a.c_idx - 1, ..a }))
            &&& s.column.len() == 0
            &&& s.lane == cf_narrow::near_lane(r.gpz)
            &&& s == (Ray {
                c_idx: s.c_idx,
                c_presync_idx: r.c_idx,
                wall_lane: s.wall_lane,
                ixy_sptr_col_idx: s.ixy_sptr_col_idx,
                cx: s.cx,
                cy: s.cy,
                cx_mip: s.cx_mip,
                cy_mip: s.cy_mip,
                column: s.column,
                vptr_offset: 0,
                lane: s.lane,
                gx: s.gx,
                ..r
            })
            &&& r.lane == 0 ==> s.cx == r.cx + step::sign(r.gixy[0]) && s.cx_mip == r.cx_mip
                + step::sign(r.gixy[0]) && s.cy == r.cy && s.cy_mip == r.cy_mip
            &&& r.lane == 1 ==> s.cy == r.cy + step::sign(r.gixy[1]) && s.cy_mip == r.cy_mip
                + step::sign(r.gixy[1]) && s.cx == r.cx && s.cx_mip == r.cx_mip
        }),
{
    let a = Ray { c_idx: r.c_idx - 1, c_presync_idx: r.c_idx, ..r };
    let m = step::stepped(a);
    let f = step::refreshed(m);
    let i = (m.cy as u32).wrapping_mul(m.vsid).wrapping_add(m.cx as u32) as int;
    if let Some(c) = columns::column_at(m, i) {
        assert(r.column_offsets[i] == m.column_offsets[i]);
        assert(c.len() == 0);
    }
    assert(f.column.len() == 0);
}

proof fn lemma_same_sky(r: Ray, s: Ray)
    requires
        same_view(r, s),
    ensures
        skyfill::plain_sky(s) == skyfill::plain_sky(r),
{
    assert(forall|p: int, q: int| #[trigger]
        skyfill::slot_of(s, q, p) == skyfill::slot_of(r, q, p));
    assert forall|p: int| #[trigger] skyfill::slot_open(s, p) == skyfill::slot_open(r, p) by {
        if skyfill::slot_open(r, p) {
            let q = choose|q: int|
                CF_SEED_INDEX <= q <= r.ce_idx && #[trigger] skyfill::slot_of(r, q, p);
            assert(skyfill::slot_of(s, q, p));
        }
        if skyfill::slot_open(s, p) {
            let q = choose|q: int|
                CF_SEED_INDEX <= q <= s.ce_idx && #[trigger] skyfill::slot_of(s, q, p);
            assert(skyfill::slot_of(r, q, p));
        }
    }
    assert(skyfill::plain_sky(s) =~= skyfill::plain_sky(r));
}

/// Whether the next line lies beyond the depth of the scan.
spec fn beyond(r: Ray) -> bool {
    (r.gpz[cf_narrow::near_lane(r.gpz)] as u32) > (r.ngxmax as u32)
}

/// Lines that the scan has still to cross.
pub open spec fn lines_left(r: Ray) -> int {
    lines_within(r.gpz[0], r.gdz[0], r.ngxmax) + lines_within(r.gpz[1], r.gdz[1], r.ngxmax)
}

/// Beyond the depth the sky is filled in.
proof fn lemma_drift_over(r: Ray)
    requires
        drifting(r),
        beyond(r),
    ensures
        run::done_within(r, Phase::AfterDelete, 4),
        run::after(r, Phase::AfterDelete, 4).radar == skyfill::plain_sky(r),
{
    let a = Ray { c_presync_idx: r.c_idx, ..r };
    let s = step::next_column(a);
    lemma_next_is_empty(r);
    let t = skyfill::start_sky(s);
    lemma_same_sky(r, s);
    assert(t.radar == skyfill::plain_sky(s));
    assert(run::done_within(t, Phase::Done, 0));
    lemma_one_phase(s, Phase::Startsky, 0);
    assert(run::step_phase(s, Phase::Remiporend) == (s, Phase::Startsky));
    lemma_one_phase(s, Phase::Remiporend, 1);
    assert(run::step_phase(a, Phase::AfterDeleteKeptPresync) == (s, Phase::Remiporend));
    lemma_one_phase(a, Phase::AfterDeleteKeptPresync, 2);
    lemma_one_phase(r, Phase::AfterDelete, 3);
}

/// The ray in its next column.
spec fn drifted<'a>(r: Ray<'a>) -> Ray<'a> {
    step::entered(step::next_column(Ray { c_presync_idx: r.c_idx, ..r }))
}

/// Within the depth the ray goes on.
proof fn lemma_drift_on(r: Ray)
    requires
        drifting(r),
        !beyond(r),
    ensures
        drifting(drifted(r)),
        same_view(r, drifted(r)),
        0 <= lines_left(drifted(r)) < lines_left(r),
        run::step_ok(Ray { c_presync_idx: r.c_idx, ..r }, Phase::AfterDeleteKeptPresync),
        run::step_phase(Ray { c_presync_idx: r.c_idx, ..r }, Phase::AfterDeleteKeptPresync) == (
            drifted(r),
            Phase::Skipixy3,
        ),
{
    let a = Ray { c_presync_idx: r.c_idx, ..r };
    let s = step::next_column(a);
    lemma_next_is_empty(r);
    let near = cf_narrow::near_lane(r.gpz);
    if r.gpz[near] < 0 {
        lemma_negative_is_large(r.gpz[near]);
    }
    assert(0 <= r.gpz[near] <= r.ngxmax);
    assert(r.gdz[near] > 0);
    lemma_fewer_lines(r.gpz[near], r.gdz[near], r.ngxmax);
    lemma_lines_nonnegative(r.gpz[0], r.gdz[0], r.ngxmax);
    lemma_lines_nonnegative(r.gpz[1], r.gdz[1], r.ngxmax);
    let e = drifted(r);
    lemma_lines_nonnegative(e.gpz[0], e.gdz[0], e.ngxmax);
    lemma_lines_nonnegative(e.gpz[1], e.gdz[1], e.ngxmax);
    assert(step::column_narrowed(e) == e);
    assert(e.gpz == cf_narrow::crossed(r.gpz, r.gdz));
    assert(e.lane == near);
    assert(cursor_fits(e));
}

pub proof fn lemma_lines_nonnegative(gpz: i32, gdz: i32, far: i32)
    ensures
        lines_within(gpz, gdz, far) >= 0,
{
    if gdz > 0 && 0 <= gpz <= far {
        vstd::arithmetic::div_mod::lemma_div_pos_is_pos(far - gpz, gdz as int);
    }
}

/// A drifting scan ends, and the sky fills the slots that are open.
pub proof fn lemma_drift_ends_in_sky(r: Ray) -> (n: nat)
    requires
        drifting(r),
    ensures
        run::done_within(r, Phase::AfterDelete, n),
        run::after(r, Phase::AfterDelete, n).radar == skyfill::plain_sky(r),
    decreases lines_left(r),
{
    lemma_lines_nonnegative(r.gpz[0], r.gdz[0], r.ngxmax);
    lemma_lines_nonnegative(r.gpz[1], r.gdz[1], r.ngxmax);
    if beyond(r) {
        lemma_drift_over(r);
        4
    } else {
        let a = Ray { c_presync_idx: r.c_idx, ..r };
        let e = drifted(r);
        lemma_drift_on(r);
        let b = idle(e);
        assert(drifting(b));
        assert(lines_left(b) == lines_left(e));
        let m = lemma_drift_ends_in_sky(b);
        lemma_nothing_drawn(e, m);
        lemma_one_phase(a, Phase::AfterDeleteKeptPresync, m + 5);
        lemma_one_phase(r, Phase::AfterDelete, m + 6);
        lemma_same_sky(r, b);
        m + 7
    }
}

/// Whether a scan of one level starts in an empty column of a single chunk
/// without slabs, under a plain sky, with the grid lines ahead of it.
pub open spec fn sees_nothing(
    sc: ScanScratch,
    inputs: GrouscanInputs,
    cx: i32,
    cy: i32,
    gmipnum: u32,
) -> bool {
    &&& inputs.grid_view.chunk_grid is None
    &&& inputs.column@.len() == 0
    &&& no_slabs(inputs.slab_buf@, inputs.column_offsets@)
    &&& gmipnum <= 1
    &&& inputs.sky is None || sc.sky_off == 0
    &&& 0 <= sc.gxmax < i32::MAX
    &&& sc.gpz@[0] >= 0 && recedes(sc.gpz@[0], sc.gdz@[0])
    &&& sc.gpz@[1] >= 0 && recedes(sc.gpz@[1], sc.gdz@[1])
    &&& can_step(cx, lines_within(sc.gpz@[0], sc.gdz@[0], sc.gxmax) + 1)
    &&& can_step(cy, lines_within(sc.gpz@[1], sc.gdz@[1], sc.gxmax) + 1)
}

/// A scan that meets no slab ends. Every slot of the seed segment shows
/// the sky, and the other slots stay as they were.
pub proof fn lemma_empty_scan_shows_sky(
    sc: ScanScratch,
    inputs: GrouscanInputs,
    ixy: int,
    cx: i32,
    cy: i32,
    gxmip: i32,
    gmipnum: u32,
) -> (n: nat)
    requires
        sees_nothing(sc, inputs, cx, cy, gmipnum),
    ensures
        ({
            let s = run::started(run::seeded(sc, inputs, 0, ixy, cx, cy, gmipnum), gxmip);
            let t = run::after(s, run::first_phase(0), n);
            let c = sc.cf@[CF_SEED_INDEX as int];
            &&& run::done_within(s, run::first_phase(0), n)
            &&& t.radar.len() == sc.radar@.len()
            &&& forall|p: int|
                0 <= p < sc.radar@.len() ==> #[trigger] t.radar[p] == if c.i0 <= p <= c.i1 {
                    sc.skycast
                } else {
                    sc.radar@[p]
                }
        }),
{
    let s = run::started(run::seeded(sc, inputs, 0, ixy, cx, cy, gmipnum), gxmip);
    let near = cf_narrow::near_lane(sc.gpz@);
    if 0 <= sc.gpz@[near] <= sc.gxmax {
        lemma_fewer_lines(sc.gpz@[near], sc.gdz@[near], sc.gxmax);
    }
    lemma_lines_nonnegative(sc.gpz@[0], sc.gdz@[0], sc.gxmax);
    lemma_lines_nonnegative(sc.gpz@[1], sc.gdz@[1], sc.gxmax);
    slab::lemma_chain_end(inputs.column@, 0);
    assert(s.gpz == cf_narrow::crossed(sc.gpz@, sc.gdz@));
    let b = fill::draw_flor(s).0;
    assert(run::step_phase(s, Phase::DrawFlor) == (b, Phase::AfterDelete));
    assert(drifting(b));
    let m = lemma_drift_ends_in_sky(b);
    lemma_one_phase(s, Phase::DrawFlor, m);
    let t = run::after(s, run::first_phase(0), m + 1);
    let c = sc.cf@[CF_SEED_INDEX as int];
    assert forall|p: int| 0 <= p < sc.radar@.len() implies #[trigger] t.radar[p] == if c.i0 <= p
        <= c.i1 {
        sc.skycast
    } else {
        sc.radar@[p]
    } by {
        assert(skyfill::slot_of(b, CF_SEED_INDEX as int, p) == (c.i0 <= p <= c.i1));
        assert(skyfill::slot_open(b, p) == (c.i0 <= p <= c.i1));
    }
    m + 1
}

} // verus!
