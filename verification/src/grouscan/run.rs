//! Driver of a scan: the start from a seed, and the phases until the scan
//! is done.
use crate::cf_narrow;
use crate::grid_view::GridView;
use crate::grouscan::columns;
use crate::grouscan::columns::build_owned_column_multi_chz;
use crate::grouscan::fill;
use crate::grouscan::fill::{phase_draw_ceil, phase_draw_flor};
use crate::grouscan::mip;
use crate::grouscan::mip::phase_remiporend;
use crate::grouscan::skyfill;
use crate::grouscan::skyfill::phase_startsky;
use crate::grouscan::stack;
use crate::grouscan::stack::{
    phase_after_delete, phase_delete_z, phase_findslabloop, phase_intoslabloop,
    phase_pre_delete_z, phase_pre_draw_ceil, phase_pre_draw_flor, phase_skipixy3,
    phase_skipixy_with_presync, phase_sync_from_presync,
};
use crate::grouscan::step;
use crate::grouscan::step::phase_after_delete_kept_presync;
use crate::grouscan::walls;
use crate::grouscan::walls::{phase_draw_cwall, phase_draw_fwall};
use crate::grouscan::{
    CfType, GrouscanInputs, GrouscanPrologue, GrouscanState, InitialDispatch, Phase, Ray,
    CF_SEED_INDEX,
};
use crate::rasterizer::ScanScratch;
use crate::slab;
use crate::slab::slab_chain_byte_len;
use vstd::prelude::*;

verus! {

/// Whether the seed column is read through the chunk grid: a grid of one
/// layer whose heights are those of the column.
pub open spec fn seeds_from_grid(grid: GridView) -> bool {
    grid.chunk_grid matches Some(cg) && cg.chunks_z == 1 && cg.origin_chunk_z == 0
}

/// The column that a scan starts in.
pub open spec fn seed_column<'a>(
    inputs: GrouscanInputs<'a>,
    chunk_xy: Seq<i32>,
    local: Seq<i32>,
) -> Seq<u8> {
    if seeds_from_grid(inputs.grid_view) {
        columns::stacked_chains(
            inputs.grid_view,
            chunk_xy,
            local,
            0,
            0,
            inputs.chunk_size_z as i32,
        )
    } else {
        inputs.column@.take(slab::chain_len(inputs.column@))
    }
}

/// Exponent of a chunk side that is a power of two.
pub open spec fn side_log2(side: u32) -> u32 {
    vstd::std_specs::bits::u32_trailing_zeros(side)
}

/// Chunk that a column lies in.
pub open spec fn chunk_of(cx: i32, cy: i32, side: u32) -> Seq<i32> {
    seq![cx >> side_log2(side), cy >> side_log2(side)]
}

/// Column coordinates inside their chunk.
pub open spec fn local_of(cx: i32, cy: i32, side: u32) -> Seq<i32> {
    seq![cx & ((side - 1) as i32), cy & ((side - 1) as i32)]
}

/// State of a scan that starts from the seed segment.
pub open spec fn seeded<'a>(
    sc: ScanScratch,
    inputs: GrouscanInputs<'a>,
    vptr_offset: int,
    ixy: int,
    cx: i32,
    cy: i32,
    gmipnum: u32,
) -> Ray<'a> {
    let c = sc.cf@[CF_SEED_INDEX as int];
    let side = inputs.grid_view.chunk_size_xy;
    let chunk = chunk_of(cx, cy, side);
    Ray {
        radar: sc.radar@,
        cf: sc.cf@,
        gpz: sc.gpz@,
        gdz: sc.gdz@,
        gixy: sc.gixy@,
        gi0: sc.gi0,
        gi1: sc.gi1,
        gxmax: sc.gxmax,
        skycast: sc.skycast,
        sky_off: sc.sky_off,
        treat_z_max_as_air: sc.treat_z_max_as_air,
        column: seed_column(inputs, chunk, local_of(cx, cy, side)),
        gylookup: inputs.gylookup@,
        gcsub: inputs.gcsub@,
        slab_buf: inputs.slab_buf@,
        column_offsets: inputs.column_offsets@,
        mip_base_offsets: inputs.mip_base_offsets@,
        vsid: inputs.vsid,
        sky: inputs.sky,
        z0: c.z0,
        z1: c.z1,
        cx0: c.cx0,
        cy0: c.cy0,
        cx1: c.cx1,
        cy1: c.cy1,
        ogx: 0,
        gx: 0,
        ngxmax: 0,
        lane: 0,
        color: 0,
        gy_raw: 0,
        off: 0,
        mm5_tail: 0,
        wall_lane: 0,
        ebx: 0,
        vptr_offset,
        c_idx: CF_SEED_INDEX as int,
        ce_idx: CF_SEED_INDEX as int,
        c_presync_idx: usize::MAX as int,
        ixy_sptr_col_idx: ixy,
        cx,
        cy,
        cx_mip: cx,
        cy_mip: cy,
        vsid_signed: inputs.vsid as i32,
        gmipcnt: 0,
        gmipnum,
        grid_view: inputs.grid_view,
        chunk_size_xy: side,
        chunk_size_xy_log2: side_log2(side),
        chunk_size_xy_mask: (side - 1) as i32,
        current_chunk_idx_xy: chunk,
        current_chunk_exists: inputs.grid_view.chunk(
            chunk[0] as int,
            chunk[1] as int,
            inputs.camera_chunk_z as int,
        ) is Some,
        camera_chunk_z: inputs.camera_chunk_z,
        chunk_world_z_base: inputs.chunk_world_z_base,
        chunk_size_z: inputs.chunk_size_z,
        current_chunk_z: inputs.camera_chunk_z,
        narrowing: inputs.narrowing,
    }
}

/// Whether a scan can start: chunk sides are powers of two, and the seed
/// column can be read.
pub open spec fn seed_ok<'a>(inputs: GrouscanInputs<'a>, cx: i32, cy: i32) -> bool {
    let side = inputs.grid_view.chunk_size_xy;
    let chunk = chunk_of(cx, cy, side);
    &&& side > 0
    &&& side & ((side - 1) as u32) == 0
    &&& inputs.grid_view.chunk_index_fits(
        chunk[0] as int,
        chunk[1] as int,
        inputs.camera_chunk_z as int,
    )
    &&& seeds_from_grid(inputs.grid_view) ==> columns::layer_ok(
        inputs.grid_view,
        chunk,
        local_of(cx, cy, side),
        0,
        inputs.chunk_size_z as i32,
    )
}

impl<'a> GrouscanState<'a> {
    /// State of a scan that starts from the seed segment.
    pub fn from_seed(
        scratch: &'a mut ScanScratch,
        inputs: &GrouscanInputs<'a>,
        vptr_offset: usize,
        ixy_sptr_col_idx: usize,
        cx: i32,
        cy: i32,
        gmipnum: u32,
    ) -> (r: Self)
        requires
            seed_ok(*inputs, cx, cy),
        ensures
            r@ == seeded(
                *old(scratch),
                *inputs,
                vptr_offset as int,
                ixy_sptr_col_idx as int,
                cx,
                cy,
                gmipnum,
            ),
            *final(scratch) == *final(r.scratch),
    {
        let ghost sc = *old(scratch);
        let c: CfType = scratch.cf[CF_SEED_INDEX];
        let grid_view: GridView = inputs.grid_view;
        let chunk_size_xy: u32 = grid_view.chunk_size_xy;
        proof {
            vstd::std_specs::bits::axiom_u32_trailing_zeros(chunk_size_xy);
        }
        let log2: u32 = chunk_size_xy.trailing_zeros();
        let mask: i32 = (chunk_size_xy - 1) as i32;
        let chunk: [i32; 2] = [cx >> log2, cy >> log2];
        let local: [i32; 2] = [cx & mask, cy & mask];
        assert(chunk@ =~= chunk_of(cx, cy, chunk_size_xy));
        assert(local@ =~= local_of(cx, cy, chunk_size_xy));
        let exists_here: bool = grid_view.chunk_at_xyz(
            [chunk[0], chunk[1], inputs.camera_chunk_z],
        ).is_some();
        let mut column: Vec<u8> = Vec::new();
        let from_grid: bool = match grid_view.chunk_grid {
            Some(cg) => cg.chunks_z == 1 && cg.origin_chunk_z == 0,
            None => false,
        };
        if from_grid {
            build_owned_column_multi_chz(
                &mut column,
                grid_view,
                chunk,
                local,
                0,
                0,
                inputs.chunk_size_z as i32,
            );
        } else {
            let n: usize = slab_chain_byte_len(inputs.column);
            proof {
                slab::lemma_chain_end(inputs.column@, 0);
            }
            let part: &[u8] = &inputs.column[0..n];
            column.extend_from_slice(part);
            assert(column@ =~= inputs.column@.take(n as int));
        }
        assert(column@ == seed_column(*inputs, chunk@, local@));
        let state: GrouscanState<'a> = GrouscanState {
            scratch,
            column,
            gylookup: inputs.gylookup,
            gcsub: inputs.gcsub,
            slab_buf: inputs.slab_buf,
            column_offsets: inputs.column_offsets,
            mip_base_offsets: inputs.mip_base_offsets,
            vsid: inputs.vsid,
            sky: inputs.sky,
            z0: c.z0,
            z1: c.z1,
            cx0: c.cx0,
            cy0: c.cy0,
            cx1: c.cx1,
            cy1: c.cy1,
            ogx: 0,
            gx: 0,
            ngxmax: 0,
            lane: 0,
            color: 0,
            gy_raw: 0,
            off: 0,
            mm5_tail: 0,
            wall_lane: 0,
            ebx: 0,
            vptr_offset,
            c_idx: CF_SEED_INDEX,
            ce_idx: CF_SEED_INDEX,
            c_presync_idx: usize::MAX,
            ixy_sptr_col_idx,
            cx,
            cy,
            cx_mip: cx,
            cy_mip: cy,
            vsid_signed: inputs.vsid as i32,
            gmipcnt: 0,
            gmipnum,
            grid_view,
            chunk_size_xy,
            chunk_size_xy_log2: log2,
            chunk_size_xy_mask: mask,
            current_chunk_idx_xy: chunk,
            current_chunk_exists: exists_here,
            camera_chunk_z: inputs.camera_chunk_z,
            chunk_world_z_base: inputs.chunk_world_z_base,
            chunk_size_z: inputs.chunk_size_z,
            current_chunk_z: inputs.camera_chunk_z,
            narrowing: inputs.narrowing,
        };
        state
    }
}

/// One phase: what it makes of the ray, and the phase that follows.
pub open spec fn step_phase<'a>(r: Ray<'a>, phase: Phase) -> (Ray<'a>, Phase) {
    match phase {
        Phase::DrawFwall => walls::draw_fwall(r),
        Phase::DrawCwall => walls::draw_cwall(r),
        Phase::PreDrawCeil => (stack::swapped(r), Phase::DrawCeil),
        Phase::DrawCeil => fill::draw_ceil(r),
        Phase::PreDrawFlor => (stack::swapped(r), Phase::DrawFlor),
        Phase::DrawFlor => fill::draw_flor(r),
        Phase::PreDeleteZ => (stack::swapped(r), Phase::DeleteZ),
        Phase::DeleteZ => stack::delete_z(r),
        Phase::AfterDelete => (
            Ray { c_presync_idx: r.c_idx, ..r },
            Phase::AfterDeleteKeptPresync,
        ),
        Phase::AfterDeleteKeptPresync => step::after_delete_kept(r),
        Phase::SkipixyWithPresync => (stack::swapped(r), Phase::SyncFromPresync),
        Phase::SyncFromPresync => (stack::sync_from_presync(r), Phase::Skipixy3),
        Phase::Skipixy3 => (r, stack::at_slab(r)),
        Phase::Intoslabloop => stack::into_slab(r),
        Phase::Findslabloop => stack::find_slab(r),
        Phase::Remiporend => mip::remip(r),
        Phase::Startsky => (skyfill::start_sky(r), Phase::Done),
        Phase::Done => (r, Phase::Done),
    }
}

/// Whether one phase stays inside the tables and machine integers.
pub open spec fn step_ok(r: Ray, phase: Phase) -> bool {
    match phase {
        Phase::DrawFwall => walls::draw_fwall_ok(r),
        Phase::DrawCwall => walls::draw_cwall_ok(r),
        Phase::DrawCeil => fill::draw_ceil_ok(r),
        Phase::DrawFlor => fill::draw_flor_ok(r),
        Phase::DeleteZ => r.ce_idx < 256,
        Phase::AfterDeleteKeptPresync => step::after_delete_kept_ok(r),
        Phase::SyncFromPresync => r.c_idx < 256,
        Phase::Intoslabloop => stack::into_slab_ok(r),
        Phase::Remiporend => mip::remip_ok(r),
        Phase::Startsky => skyfill::start_sky_ok(r),
        _ => true,
    }
}

/// Whether the scan is done after at most `n` phases, each of which is in
/// order.
pub open spec fn done_within(r: Ray, phase: Phase, n: nat) -> bool
    decreases n,
{
    phase == Phase::Done || {
        &&& n > 0
        &&& step_ok(r, phase)
        &&& done_within(step_phase(r, phase).0, step_phase(r, phase).1, (n - 1) as nat)
    }
}

/// The ray after the scan, or after `n` phases if that is sooner.
pub open spec fn after<'a>(r: Ray<'a>, phase: Phase, n: nat) -> Ray<'a>
    decreases n,
{
    if phase == Phase::Done || n == 0 {
        r
    } else {
        after(step_phase(r, phase).0, step_phase(r, phase).1, (n - 1) as nat)
    }
}

/// A scan that is done stays done, and its result does not depend on how
/// many more phases are allowed.
pub proof fn lemma_done_stays_done(r: Ray, phase: Phase, m: nat, n: nat)
    requires
        done_within(r, phase, m),
        m <= n,
    ensures
        done_within(r, phase, n),
        after(r, phase, m) == after(r, phase, n),
    decreases m,
{
    if phase != Phase::Done {
        lemma_done_stays_done(
            step_phase(r, phase).0,
            step_phase(r, phase).1,
            (m - 1) as nat,
            (n - 1) as nat,
        );
    }
}

/// Runs one phase.
pub(crate) fn run_phase(state: &mut GrouscanState<'_>, phase: Phase) -> (r: Phase)
    requires
        step_ok(old(state)@, phase),
    ensures
        (final(state)@, r) == step_phase(old(state)@, phase),
        *final(final(state).scratch) == *final(old(state).scratch),
{
    match phase {
        Phase::DrawFwall => phase_draw_fwall(state),
        Phase::DrawCwall => phase_draw_cwall(state),
        Phase::PreDrawCeil => phase_pre_draw_ceil(state),
        Phase::DrawCeil => phase_draw_ceil(state),
        Phase::PreDrawFlor => phase_pre_draw_flor(state),
        Phase::DrawFlor => phase_draw_flor(state),
        Phase::PreDeleteZ => phase_pre_delete_z(state),
        Phase::DeleteZ => phase_delete_z(state),
        Phase::AfterDelete => phase_after_delete(state),
        Phase::AfterDeleteKeptPresync => phase_after_delete_kept_presync(state),
        Phase::SkipixyWithPresync => phase_skipixy_with_presync(state),
        Phase::SyncFromPresync => phase_sync_from_presync(state),
        Phase::Skipixy3 => phase_skipixy3(state),
        Phase::Intoslabloop => phase_intoslabloop(state),
        Phase::Findslabloop => phase_findslabloop(state),
        Phase::Remiporend => phase_remiporend(state),
        Phase::Startsky => phase_startsky(state),
        Phase::Done => Phase::Done,
    }
}

/// Runs the phases from `entry` until the scan is done.
pub fn run_phases(state: &mut GrouscanState<'_>, entry: Phase)
    requires
        exists|n: nat| done_within(old(state)@, entry, n),
    ensures
        forall|n: nat| #[trigger]
            done_within(old(state)@, entry, n) ==> final(state)@ == after(
                old(state)@,
                entry,
                n,
            ),
        *final(final(state).scratch) == *final(old(state).scratch),
{
    let ghost r0 = state@;
    let ghost total = choose|n: nat| done_within(r0, entry, n);
    let ghost mut left = total;
    let mut current: Phase = entry;
    while current != Phase::Done
        invariant
            done_within(state@, current, left),
            after(state@, current, left) == after(r0, entry, total),
            *final(state.scratch) == *final(old(state).scratch),
        decreases left,
    {
        current = run_phase(state, current);
        proof {
            left = (left - 1) as nat;
        }
    }
    proof {
        assert forall|n: nat| #[trigger] done_within(r0, entry, n) implies state@ == after(
            r0,
            entry,
            n,
        ) by {
            assert(done_within(r0, entry, total));
            if n <= total {
                lemma_done_stays_done(r0, entry, n, total);
            } else {
                lemma_done_stays_done(r0, entry, total, n);
            }
        }
    }
}

/// The ray before its first phase: its first grid line is crossed.
pub open spec fn started<'a>(r: Ray<'a>, gxmip: i32) -> Ray<'a> {
    let lane = cf_narrow::near_lane(r.gpz);
    Ray {
        ngxmax: if r.gmipnum > 1 && gxmip < r.gxmax {
            gxmip
        } else {
            r.gxmax
        },
        lane,
        ogx: cf_narrow::whole_depth(r.gpz[lane]),
        gx: 0,
        gpz: cf_narrow::crossed(r.gpz, r.gdz),
        ..r
    }
}

/// Which fill a scan begins with.
pub open spec fn first_phase(vptr_offset: int) -> Phase {
    if vptr_offset == 0 {
        Phase::DrawFlor
    } else {
        Phase::DrawCeil
    }
}

/// What a scan starts from, given the ray before its first phase.
pub open spec fn prologue_of(r: Ray, p: GrouscanPrologue) -> bool {
    &&& p.z0 == r.z0 && p.z1 == r.z1
    &&& p.cx0 == r.cx0 && p.cy0 == r.cy0
    &&& p.cx1 == r.cx1 && p.cy1 == r.cy1
    &&& p.lane == r.lane && p.ogx == r.ogx && p.gx == r.gx
    &&& p.ngxmax == r.ngxmax
    &&& p.dispatch == if r.vptr_offset == 0 {
        InitialDispatch::DrawFlor
    } else {
        InitialDispatch::DrawCeil
    }
}

/// Crosses the first grid line.
pub(crate) fn start(state: &mut GrouscanState<'_>, gxmip: i32) -> (p: GrouscanPrologue)
    ensures
        final(state)@ == started(old(state)@, gxmip),
        prologue_of(final(state)@, p),
        *final(final(state).scratch) == *final(old(state).scratch),
{
    let ghost seed = state@;
    state.ngxmax = state.scratch.gxmax;
    if state.gmipnum > 1 && gxmip < state.ngxmax {
        state.ngxmax = gxmip;
    }
    state.lane = if state.scratch.gpz[1] < state.scratch.gpz[0] {
        1
    } else {
        0
    };
    state.ogx = state.scratch.gpz[state.lane] & -0x1_0000i32;
    state.gx = 0;
    state.scratch.gpz[state.lane] = state.scratch.gpz[state.lane].wrapping_add(
        state.scratch.gdz[state.lane],
    );
    proof {
        let s = state@;
        assert(s.gpz =~= started(seed, gxmip).gpz);
        assert(s =~= started(seed, gxmip));
    }
    GrouscanPrologue {
        z0: state.z0,
        z1: state.z1,
        cx0: state.cx0,
        cy0: state.cy0,
        cx1: state.cx1,
        cy1: state.cy1,
        lane: state.lane,
        ogx: state.ogx,
        gx: state.gx,
        ngxmax: state.ngxmax,
        dispatch: if state.vptr_offset == 0 {
            InitialDispatch::DrawFlor
        } else {
            InitialDispatch::DrawCeil
        },
    }
}

/// Whether the scratch state is that of the ray.
pub open spec fn scratch_of(sc: ScanScratch, r: Ray) -> bool {
    &&& sc.radar@ == r.radar
    &&& sc.cf@ == r.cf
    &&& sc.gpz@ == r.gpz
    &&& sc.gdz@ == r.gdz
    &&& sc.gixy@ == r.gixy
    &&& sc.gi0 == r.gi0
    &&& sc.gi1 == r.gi1
    &&& sc.gxmax == r.gxmax
    &&& sc.skycast == r.skycast
    &&& sc.sky_off == r.sky_off
    &&& sc.treat_z_max_as_air == r.treat_z_max_as_air
}

/// Scans one ray. Every radar slot of the seed segment gets the colour
/// and depth of what the ray sees there.
pub fn grouscan_run(
    scratch: &mut ScanScratch,
    inputs: &GrouscanInputs<'_>,
    vptr_offset: usize,
    ixy_sptr_col_idx: usize,
    cx: i32,
    cy: i32,
    gxmip: i32,
    gmipnum: u32,
) -> (r: GrouscanPrologue)
    requires
        seed_ok(*inputs, cx, cy),
        exists|n: nat|
            done_within(
                started(
                    seeded(
                        *old(scratch),
                        *inputs,
                        vptr_offset as int,
                        ixy_sptr_col_idx as int,
                        cx,
                        cy,
                        gmipnum,
                    ),
                    gxmip,
                ),
                first_phase(vptr_offset as int),
                n,
            ),
    ensures
        ({
            let s = started(
                seeded(
                    *old(scratch),
                    *inputs,
                    vptr_offset as int,
                    ixy_sptr_col_idx as int,
                    cx,
                    cy,
                    gmipnum,
                ),
                gxmip,
            );
            &&& prologue_of(s, r)
            &&& forall|n: nat| #[trigger]
                done_within(s, first_phase(vptr_offset as int), n) ==> scratch_of(
                    *final(scratch),
                    after(s, first_phase(vptr_offset as int), n),
                )
        }),
{
    let mut state: GrouscanState = GrouscanState::from_seed(
        scratch,
        inputs,
        vptr_offset,
        ixy_sptr_col_idx,
        cx,
        cy,
        gmipnum,
    );
    let prologue: GrouscanPrologue = start(&mut state, gxmip);
    let entry: Phase = match prologue.dispatch {
        InitialDispatch::DrawFlor => Phase::DrawFlor,
        InitialDispatch::DrawCeil => Phase::DrawCeil,
    };
    run_phases(&mut state, entry);
    prologue
}

} // verus!
