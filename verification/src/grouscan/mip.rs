//! Level changes of a scan: far away the ray goes on through columns of
//! twice the size.
use crate::arith;
use crate::cf_narrow;
use crate::cf_narrow::{cf_narrow_range, CfNarrowInputs};
use crate::grouscan::{CfType, GrouscanState, Phase, Ray, CF_SEED_INDEX};
use crate::slab;
use crate::slab::install_owned_column;
use vstd::prelude::*;

verus! {

/// Side of the chunk at the current level.
pub open spec fn old_side(r: Ray) -> u32 {
    r.vsid >> (r.gmipcnt as u32)
}

/// Position of the column in the table of its level.
pub open spec fn old_column(r: Ray) -> int {
    r.ixy_sptr_col_idx - r.mip_base_offsets[r.gmipcnt as int]
}

/// Whether a column coordinate is the first of the two that the ray meets
/// in the coarser column, given the direction that it goes.
pub open spec fn enters_pair(coordinate: int, step: i32) -> bool {
    (coordinate % 2 == 0) == (step >= 0)
}

/// Next grid line along one axis at the coarser level: past the one that
/// falls away; out of reach where the distance cannot be doubled.
pub open spec fn coarser_line(gpz: i32, gdz: i32, skip: bool) -> i32 {
    if (gdz < 0) != (gdz.wrapping_add(gdz) < 0) {
        i32::MAX
    } else if skip {
        gpz.wrapping_add(gdz)
    } else {
        gpz
    }
}

/// Distance between grid lines along one axis at the coarser level.
pub open spec fn coarser_gap(gdz: i32) -> i32 {
    if (gdz < 0) != (gdz.wrapping_add(gdz) < 0) {
        0
    } else {
        gdz.wrapping_add(gdz)
    }
}

/// Half of a height from above, rounded down; the sign bit is not kept.
pub open spec fn half_down(z: i32) -> i32 {
    ((z as u32) >> 1u32) as i32
}

/// Half of a height from below, rounded up.
pub open spec fn half_up(z: i32) -> i32 {
    half_down((z + 1) as i32)
}

/// The segment in the heights of the coarser level.
pub open spec fn coarser_segment(e: CfType) -> CfType {
    CfType { z0: half_down(e.z0), z1: half_up(e.z1), ..e }
}

/// Whether a stack position holds an open segment.
pub open spec fn open_at(r: Ray, p: int) -> bool {
    CF_SEED_INDEX <= p <= r.ce_idx
}

/// What the narrowing before a level change reads.
pub open spec fn narrowed_here(r: Ray, e: CfType) -> CfType {
    cf_narrow::narrow_steps(
        e,
        r.gpz,
        cf_narrow::halves(r.gdz),
        r.gi0,
        r.gi1,
        r.gylookup,
        cf_narrow::virtual_steps(r.gmipcnt as u32),
    )
}

/// Whether the open segments are narrowed before the level change.
pub open spec fn narrows(r: Ray) -> bool {
    r.gmipcnt > 0 && r.narrowing.at_mip
}

/// The ray with its open segments narrowed, where that is switched on.
pub open spec fn level_narrowed<'a>(r: Ray<'a>) -> Ray<'a> {
    if narrows(r) {
        Ray {
            cf: Seq::new(
                r.cf.len(),
                |p: int|
                    if open_at(r, p) {
                        narrowed_here(r, r.cf[p])
                    } else {
                        r.cf[p]
                    },
            ),
            ..r
        }
    } else {
        r
    }
}

/// Chunk layers of the grid.
pub open spec fn layers(r: Ray) -> u32 {
    match r.grid_view.chunk_grid {
        Some(cg) => cg.chunks_z,
        None => 1,
    }
}

/// Entries of the screen table that belong to the current level.
pub open spec fn table_len(r: Ray) -> int {
    ((layers(r) * 512) as u32 >> (r.gmipcnt as u32)) + 4
}

/// The stack at the coarser level. The current top height is first saved
/// where the values belong.
pub open spec fn coarser_stack(r: Ray) -> Seq<CfType> {
    let p = r.c_presync_idx;
    let cf = if p < 256 {
        r.cf.update(p, CfType { z0: r.z0, ..r.cf[p] })
    } else {
        r.cf
    };
    Seq::new(
        cf.len(),
        |q: int|
            if open_at(r, q) {
                coarser_segment(cf[q])
            } else {
                cf[q]
            },
    )
}

/// The ray at the coarser level, still in its old column.
pub open spec fn coarsened<'a>(r: Ray<'a>) -> Ray<'a> {
    let side = old_side(r) as int;
    let x = old_column(r) % side;
    let y = old_column(r) / side;
    Ray {
        gmipcnt: (r.gmipcnt + 1) as i32,
        gpz: seq![
            coarser_line(r.gpz[0], r.gdz[0], enters_pair(old_column(r), r.gixy[0])),
            coarser_line(r.gpz[1], r.gdz[1], enters_pair(y, r.gixy[1])),
        ],
        gdz: seq![coarser_gap(r.gdz[0]), coarser_gap(r.gdz[1])],
        cf: coarser_stack(r),
        ixy_sptr_col_idx: r.mip_base_offsets[r.gmipcnt + 1] + (y / 2) * (side / 2) + x / 2,
        gylookup: r.gylookup.skip(arith::min_int(table_len(r), r.gylookup.len() as int)),
        gixy: r.gixy.update(1, r.gixy[1] >> 1u32),
        cx_mip: r.cx_mip >> 1u32,
        cy_mip: r.cy_mip >> 1u32,
        ..r
    }
}

/// Depth of the level after this one: twice as deep, up to the end.
pub open spec fn next_depth(ngxmax: i32, gxmax: i32) -> i32 {
    let twice = ngxmax.wrapping_add(ngxmax);
    if twice < 0 || twice >= gxmax {
        gxmax
    } else {
        twice
    }
}

/// The chain of the column at the ray's table position; the column stays
/// where the table has no such position.
pub open spec fn coarser_column(r: Ray) -> Seq<u8> {
    let i = r.ixy_sptr_col_idx;
    if !r.current_chunk_exists {
        Seq::empty()
    } else if i < r.column_offsets.len() {
        slab::chain_bytes(r.slab_buf, r.column_offsets[i] as int)
    } else {
        r.column
    }
}

/// The ray in its coarser column, at the top of the segment stack.
pub open spec fn resumed<'a>(r: Ray<'a>) -> Ray<'a> {
    Ray {
        ngxmax: next_depth(r.ngxmax, r.gxmax),
        z0: if r.c_presync_idx < 256 {
            r.cf[r.c_presync_idx].z0 >> 1u32
        } else {
            r.z0
        },
        z1: half_up(r.z1),
        lane: cf_narrow::near_lane(r.gpz),
        gpz: cf_narrow::crossed(r.gpz, r.gdz),
        column: coarser_column(r),
        c_idx: r.ce_idx,
        ..r
    }
}

/// The level change: without a further level, or at the end of the scan,
/// the sky follows.
pub open spec fn remip<'a>(r: Ray<'a>) -> (Ray<'a>, Phase) {
    if (r.gmipcnt + 1) as u32 >= r.gmipnum {
        (r, Phase::Startsky)
    } else {
        let s = coarsened(level_narrowed(r));
        if (s.ngxmax as u32) >= (s.gxmax as u32) {
            (s, Phase::Startsky)
        } else {
            (resumed(s), Phase::SyncFromPresync)
        }
    }
}

/// Whether the level change stays inside machine integers.
pub open spec fn remip_ok(r: Ray) -> bool {
    &&& 0 <= r.gmipcnt < 8
    &&& ((r.gmipcnt + 1) as u32) < r.gmipnum ==> {
        let n = level_narrowed(r);
        let side = old_side(r) as int;
        &&& 127 <= r.ce_idx < 256
        &&& narrows(r) ==> forall|p: int|
            open_at(r, p) ==> cf_narrow::narrow_ok(
                #[trigger] r.cf[p],
                r.gpz,
                cf_narrow::halves(r.gdz),
                r.gi0,
                r.gi1,
                r.gylookup,
                cf_narrow::virtual_steps(r.gmipcnt as u32),
            )
        &&& r.gmipcnt + 1 < r.mip_base_offsets.len()
        &&& r.mip_base_offsets[r.gmipcnt as int] <= r.ixy_sptr_col_idx
        &&& side > 0
        &&& (side as u32) & ((side - 1) as u32) == 0
        &&& coarsened(n).ixy_sptr_col_idx <= usize::MAX
        &&& layers(r) * 512 <= u32::MAX
        &&& forall|p: int| open_at(r, p) ==> (#[trigger] n.cf[p]).z1 < i32::MAX
        &&& r.z1 < i32::MAX
    }
}

/// Narrows the open segments, where that is switched on.
fn narrow_open(state: &mut GrouscanState<'_>)
    requires
        remip_ok(old(state)@),
        ((old(state)@.gmipcnt + 1) as u32) < old(state)@.gmipnum,
    ensures
        final(state)@ == level_narrowed(old(state)@),
        *final(final(state).scratch) == *final(old(state).scratch),
{
    if !(state.gmipcnt > 0 && state.narrowing.at_mip) {
        return;
    }
    let ghost r0 = state@;
    let inputs: CfNarrowInputs = CfNarrowInputs {
        gpz_at_entry: state.scratch.gpz,
        gdz_old: state.scratch.gdz,
        gi0: state.scratch.gi0,
        gi1: state.scratch.gi1,
        gylookup: state.gylookup,
        old_mip: state.gmipcnt as u32,
    };
    let hi: usize = state.ce_idx + 1;
    proof {
        assert forall|i: int| CF_SEED_INDEX <= i < hi implies inputs.fits(
            #[trigger] r0.cf[i],
        ) by {
            assert(open_at(r0, i));
        }
    }
    let mut stack: [CfType; 256] = state.scratch.cf;
    cf_narrow_range(&mut stack, CF_SEED_INDEX, hi, &inputs);
    state.scratch.cf = stack;
    assert(state@.cf =~= level_narrowed(r0).cf);
    assert(state@ =~= level_narrowed(r0));
}

/// One axis of the level change.
fn coarsen_lane(state: &mut GrouscanState<'_>, lane: usize, skip: bool)
    requires
        lane < 2,
    ensures
        final(state)@ == (Ray {
            gpz: old(state)@.gpz.update(
                lane as int,
                coarser_line(old(state)@.gpz[lane as int], old(state)@.gdz[lane as int], skip),
            ),
            gdz: old(state)@.gdz.update(lane as int, coarser_gap(old(state)@.gdz[lane as int])),
            ..old(state)@
        }),
        *final(final(state).scratch) == *final(old(state).scratch),
{
    let ghost r0 = state@;
    let dz: i32 = state.scratch.gdz[lane];
    if skip {
        state.scratch.gpz[lane] = state.scratch.gpz[lane].wrapping_add(dz);
    }
    let doubled: i32 = dz.wrapping_add(dz);
    if (dz < 0) != (doubled < 0) {
        state.scratch.gpz[lane] = i32::MAX;
        state.scratch.gdz[lane] = 0;
    } else {
        state.scratch.gdz[lane] = doubled;
    }
    proof {
        let g = r0.gpz.update(lane as int, coarser_line(r0.gpz[lane as int], dz, skip));
        let d = r0.gdz.update(lane as int, coarser_gap(dz));
        assert(state@.gpz =~= g);
        assert(state@.gdz =~= d);
        assert(state@ =~= Ray { gpz: g, gdz: d, ..r0 });
    }
}

/// Puts the open segments into the heights of the coarser level.
fn coarsen_stack(state: &mut GrouscanState<'_>)
    requires
        127 <= old(state)@.ce_idx < 256,
        forall|p: int|
            open_at(old(state)@, p) ==> (#[trigger] old(state)@.cf[p]).z1 < i32::MAX,
    ensures
        final(state)@ == (Ray { cf: coarser_stack(old(state)@), ..old(state)@ }),
        *final(final(state).scratch) == *final(old(state).scratch),
{
    let ghost r0 = state@;
    if state.c_presync_idx < 256 {
        state.scratch.cf[state.c_presync_idx].z0 = state.z0;
    }
    let ghost cf1 = state@.cf;
    proof {
        let p = r0.c_presync_idx;
        if p < 256 {
            assert(cf1 =~= r0.cf.update(p, CfType { z0: r0.z0, ..r0.cf[p] }));
        }
        assert forall|q: int| open_at(r0, q) implies (#[trigger] cf1[q]).z1 < i32::MAX by {
            assert(cf1[q].z1 == r0.cf[q].z1);
        }
    }
    let ce: usize = state.ce_idx;
    let mut q: usize = CF_SEED_INDEX;
    assert(cf1 =~= Seq::new(
        cf1.len(),
        |i: int|
            if CF_SEED_INDEX <= i < q {
                coarser_segment(cf1[i])
            } else {
                cf1[i]
            },
    ));
    assert(state@ =~= Ray { cf: cf1, ..r0 });
    while q <= ce
        invariant
            cf1.len() == 256,
            ce == r0.ce_idx,
            127 <= ce < 256,
            CF_SEED_INDEX <= q <= ce + 1,
            forall|i: int| open_at(r0, i) ==> (#[trigger] cf1[i]).z1 < i32::MAX,
            state@ == (Ray {
                cf: Seq::new(
                    cf1.len(),
                    |i: int|
                        if CF_SEED_INDEX <= i < q {
                            coarser_segment(cf1[i])
                        } else {
                            cf1[i]
                        },
                ),
                ..r0
            }),
            *final(state.scratch) == *final(old(state).scratch),
        decreases ce + 1 - q,
    {
        assert(open_at(r0, q as int));
        assert(cf1[q as int].z1 < i32::MAX);
        let z0: i32 = state.scratch.cf[q].z0;
        let z1: i32 = state.scratch.cf[q].z1;
        state.scratch.cf[q].z0 = ((z0 as u32) >> 1u32) as i32;
        state.scratch.cf[q].z1 = (((z1 + 1) as u32) >> 1u32) as i32;
        q = q + 1;
        proof {
            let e = Seq::new(
                cf1.len(),
                |i: int|
                    if CF_SEED_INDEX <= i < q {
                        coarser_segment(cf1[i])
                    } else {
                        cf1[i]
                    },
            );
            assert(state@.cf =~= e);
            assert(state@ =~= Ray { cf: e, ..r0 });
        }
    }
    assert(state@.cf =~= coarser_stack(r0));
    assert(state@ =~= Ray { cf: coarser_stack(r0), ..r0 });
}

/// Moves the screen table on to the next level.
fn coarsen_table(state: &mut GrouscanState<'_>, old_mip: u32)
    requires
        old_mip < 8,
        layers(old(state)@) * 512 <= u32::MAX,
    ensures
        final(state)@ == (Ray {
            gylookup: old(state)@.gylookup.skip(
                arith::min_int(
                    ((layers(old(state)@) * 512) as u32 >> old_mip) + 4,
                    old(state)@.gylookup.len() as int,
                ),
            ),
            ..old(state)@
        }),
        *final(final(state).scratch) == *final(old(state).scratch),
{
    let ghost r0 = state@;
    let chunks_z: u32 = match state.grid_view.chunk_grid {
        Some(cg) => cg.chunks_z,
        None => 1,
    };
    let total: u32 = chunks_z * 512;
    let entries: u64 = (total >> old_mip) as u64 + 4;
    let n: usize = state.gylookup.len();
    let advance: usize = if entries < n as u64 {
        entries as usize
    } else {
        n
    };
    state.gylookup = &state.gylookup[advance..n];
    proof {
        assert(state@.gylookup =~= r0.gylookup.skip(advance as int));
        assert(state@ =~= Ray { gylookup: r0.gylookup.skip(advance as int), ..r0 });
    }
}

/// Puts the ray on the coarser level.
fn coarsen(state: &mut GrouscanState<'_>)
    requires
        0 <= old(state)@.gmipcnt < 8,
        127 <= old(state)@.ce_idx < 256,
        old(state)@.gmipcnt + 1 < old(state)@.mip_base_offsets.len(),
        old(state)@.mip_base_offsets[old(state)@.gmipcnt as int] <= old(state)@.ixy_sptr_col_idx,
        old_side(old(state)@) > 0,
        coarsened(old(state)@).ixy_sptr_col_idx <= usize::MAX,
        layers(old(state)@) * 512 <= u32::MAX,
        forall|p: int|
            open_at(old(state)@, p) ==> (#[trigger] old(state)@.cf[p]).z1 < i32::MAX,
    ensures
        final(state)@ == coarsened(old(state)@),
        *final(final(state).scratch) == *final(old(state).scratch),
{
    let ghost r0 = state@;
    let old_mip: u32 = state.gmipcnt as u32;
    let mip_old_base: usize = state.mip_base_offsets[old_mip as usize];
    let mip_new_base: usize = state.mip_base_offsets[old_mip as usize + 1];
    let col: usize = state.ixy_sptr_col_idx - mip_old_base;
    let side: usize = (state.vsid >> old_mip) as usize;
    let x_old: usize = col % side;
    let y_old: usize = col / side;
    let ghost s = old_side(r0) as int;
    assert(x_old == old_column(r0) % s && y_old == old_column(r0) / s);
    assert(0 <= (y_old as int / 2) * (s / 2)) by (nonlinear_arith)
        requires
            s > 0,
            y_old >= 0,
    ;
    let x_first: bool = (col % 2 == 0) == (state.scratch.gixy[0] >= 0);
    let y_first: bool = (y_old % 2 == 0) == (state.scratch.gixy[1] >= 0);
    coarsen_stack(state);
    coarsen_lane(state, 0, x_first);
    coarsen_lane(state, 1, y_first);
    coarsen_table(state, old_mip);
    let row: usize = (y_old / 2) * (side / 2);
    state.ixy_sptr_col_idx = mip_new_base + row + x_old / 2;
    state.scratch.gixy[1] = state.scratch.gixy[1] >> 1u32;
    state.cx_mip = state.cx_mip >> 1u32;
    state.cy_mip = state.cy_mip >> 1u32;
    state.gmipcnt = state.gmipcnt + 1;
    proof {
        let e = coarsened(r0);
        assert(state@.gpz =~= e.gpz);
        assert(state@.gdz =~= e.gdz);
        assert(state@.gixy =~= e.gixy);
        assert(state@ =~= e);
    }
}

/// Moves the ray to the next coarser level, or on to the sky.
pub fn phase_remiporend(state: &mut GrouscanState<'_>) -> (r: Phase)
    requires
        remip_ok(old(state)@),
    ensures
        (final(state)@, r) == remip(old(state)@),
        *final(final(state).scratch) == *final(old(state).scratch),
{
    if (state.gmipcnt + 1) as u32 >= state.gmipnum {
        return Phase::Startsky;
    }
    narrow_open(state);
    coarsen(state);
    let ghost s = state@;
    let gxmax: i32 = state.scratch.gxmax;
    if state.ngxmax as u32 >= gxmax as u32 {
        return Phase::Startsky;
    }
    let twice: i32 = state.ngxmax.wrapping_add(state.ngxmax);
    state.ngxmax = if twice < 0 || twice >= gxmax {
        gxmax
    } else {
        twice
    };
    if state.c_presync_idx < 256 {
        state.z0 = state.scratch.cf[state.c_presync_idx].z0 >> 1u32;
    }
    state.z1 = (((state.z1 + 1) as u32) >> 1u32) as i32;
    state.lane = if state.scratch.gpz[1] < state.scratch.gpz[0] {
        1
    } else {
        0
    };
    state.scratch.gpz[state.lane] = state.scratch.gpz[state.lane].wrapping_add(
        state.scratch.gdz[state.lane],
    );
    if !state.current_chunk_exists {
        state.column.clear();
    } else if state.ixy_sptr_col_idx < state.column_offsets.len() {
        let off: usize = state.column_offsets[state.ixy_sptr_col_idx] as usize;
        install_owned_column(&mut state.column, state.slab_buf, off);
    }
    state.c_idx = state.ce_idx;
    proof {
        let e = resumed(s);
        assert(state@.gpz =~= e.gpz);
        assert(state@.column =~= e.column);
        assert(state@ =~= e);
    }
    Phase::SyncFromPresync
}

} // verus!
