//! Scans with a limit: every phase is looked at before it runs, and the
//! scan is given up where one would overflow, or after a number of phases.
use crate::arith;
use crate::grid_view::GridView;
use crate::grouscan::columns;
use crate::grouscan::guard;
use crate::grouscan::guard::phase_is_ok;
use crate::grouscan::order;
use crate::grouscan::run;
use crate::grouscan::run::{run_phase, start};
use crate::grouscan::{
    GrouscanInputs, GrouscanPrologue, GrouscanState, InitialDispatch, Phase, Ray, SkyRef,
};
use crate::rasterizer::ScanScratch;
use crate::slab;
use vstd::prelude::*;

verus! {

/// The ray and the phase that is next after at most `n` phases. The scan
/// stops before a phase that would leave the tables or overflow.
pub open spec fn driven<'a>(r: Ray<'a>, phase: Phase, n: nat) -> (Ray<'a>, Phase)
    decreases n,
{
    if phase == Phase::Done || n == 0 || !run::step_ok(r, phase) {
        (r, phase)
    } else {
        driven(run::step_phase(r, phase).0, run::step_phase(r, phase).1, (n - 1) as nat)
    }
}

/// A scan that is driven is done where an unwatched one is, and then with
/// the same result.
pub proof fn lemma_driven_to_the_end(r: Ray, phase: Phase, n: nat)
    ensures
        (driven(r, phase, n).1 == Phase::Done) == run::done_within(r, phase, n),
        run::done_within(r, phase, n) ==> driven(r, phase, n).0 == run::after(r, phase, n),
    decreases n,
{
    if phase != Phase::Done && n > 0 && run::step_ok(r, phase) {
        lemma_driven_to_the_end(
            run::step_phase(r, phase).0,
            run::step_phase(r, phase).1,
            (n - 1) as nat,
        );
    }
}

fn table_is_fit(gylookup: &[i32]) -> (r: bool)
    ensures
        r == order::table_fits(gylookup@),
{
    let mut i: usize = 0;
    while i < gylookup.len()
        invariant
            i <= gylookup@.len(),
            forall|j: int|
                0 <= j < i ==> arith::low16((#[trigger] gylookup@[j]) as int) != -0x8000,
        decreases gylookup@.len() - i,
    {
        let gy: i32 = gylookup[i];
        assert((gy & 0xffffi32 == 0x8000i32) == ((gy + 0x8000_0000) % 0x1_0000 == 0x8000))
            by (bit_vector);
        if gy & 0xffff == 0x8000 {
            assert(arith::low16(gylookup@[i as int] as int) == -0x8000);
            return false;
        }
        i += 1;
    }
    true
}

fn lat_is_fit(lat: &[i32]) -> (r: bool)
    ensures
        r == order::lat_fits(lat@),
{
    let mut i: usize = 0;
    while i < lat.len()
        invariant
            i <= lat@.len(),
            forall|j: int| 0 <= j < i ==> arith::high16(#[trigger] lat@[j]) != -0x8000,
        decreases lat@.len() - i,
    {
        if lat[i] < -0x7fff_0000 {
            assert(arith::high16(lat@[i as int]) == -0x8000);
            return false;
        }
        i += 1;
    }
    true
}

fn sky_is_fit(sky: Option<SkyRef<'_>>) -> (r: bool)
    ensures
        r == order::sky_fits(sky),
{
    match sky {
        Some(s) => lat_is_fit(s.lat),
        None => true,
    }
}

/// Whether the layer that the seed column is read from can be read.
fn layer_is_fit(
    grid: &GridView<'_>,
    chunk: [i32; 2],
    local: [i32; 2],
    size_z: i32,
) -> (r: bool)
    requires
        grid.chunk_index_fits(chunk[0] as int, chunk[1] as int, 0),
    ensures
        r == columns::layer_ok(*grid, chunk@, local@, 0, size_z),
{
    let found: GridView = match grid.chunk_at_xyz([chunk[0], chunk[1], 0]) {
        Some(found) => found,
        None => return true,
    };
    let ghost side = found.chunk_size_xy;
    assert(((side as i32) > i32::MIN) == (side != 0x8000_0000)) by (bit_vector);
    if found.chunk_size_xy == 0x8000_0000 || found.mip_base_offsets.len() == 0 {
        return false;
    }
    let mask: i32 = found.chunk_size_xy as i32 - 1;
    let lx: u32 = (local[0] & mask) as u32;
    let ly: u32 = (local[1] & mask) as u32;
    let col: u32 = ly.wrapping_mul(found.chunk_size_xy).wrapping_add(lx);
    let base: usize = found.mip_base_offsets[0];
    proof {
        let i = columns::layer_index(found, local@);
        assert(i == base + col);
        if 0 <= i < found.column_offsets@.len() {
            assert(0 * size_z == 0);
            slab::lemma_raise_zero(found.slab_buf@, found.column_offsets@[i] as int);
        }
    }
    base <= usize::MAX - col as usize
}

/// Whether the seed column can be read.
fn seed_is_ok(inputs: &GrouscanInputs<'_>, cx: i32, cy: i32) -> (r: bool)
    ensures
        r == run::seed_ok(*inputs, cx, cy),
{
    let side: u32 = inputs.grid_view.chunk_size_xy;
    if side == 0 || side & (side - 1) != 0 {
        return false;
    }
    proof {
        vstd::std_specs::bits::axiom_u32_trailing_zeros(side);
    }
    let log2: u32 = side.trailing_zeros();
    let mask: i32 = (side - 1) as i32;
    let chunk: [i32; 2] = [cx >> log2, cy >> log2];
    let local: [i32; 2] = [cx & mask, cy & mask];
    assert(chunk@ =~= run::chunk_of(cx, cy, side));
    assert(local@ =~= run::local_of(cx, cy, side));
    if !inputs.grid_view.can_index([chunk[0], chunk[1], inputs.camera_chunk_z]) {
        return false;
    }
    let from_grid: bool = match inputs.grid_view.chunk_grid {
        Some(cg) => cg.chunks_z == 1 && cg.origin_chunk_z == 0,
        None => false,
    };
    !from_grid || inputs.grid_view.can_index([chunk[0], chunk[1], 0]) && layer_is_fit(
        &inputs.grid_view,
        chunk,
        local,
        inputs.chunk_size_z as i32,
    )
}

/// Runs the phases from `entry`, `limit` of them at most. Returns whether
/// the scan is done.
pub fn run_phases_within(state: &mut GrouscanState<'_>, entry: Phase, limit: u32) -> (r: bool)
    requires
        order::tables_fit(old(state)@),
    ensures
        r == run::done_within(old(state)@, entry, limit as nat),
        final(state)@ == driven(old(state)@, entry, limit as nat).0,
        *final(final(state).scratch) == *final(old(state).scratch),
{
    let ghost r0 = state@;
    let mut current: Phase = entry;
    let mut left: u32 = limit;
    while current != Phase::Done && left > 0
        invariant
            r0 == old(state)@,
            order::tables_fit(state@),
            run::done_within(r0, entry, limit as nat) == run::done_within(
                state@,
                current,
                left as nat,
            ),
            driven(r0, entry, limit as nat) == driven(state@, current, left as nat),
            *final(state.scratch) == *final(old(state).scratch),
        decreases left,
    {
        if !phase_is_ok(state, current) {
            return false;
        }
        proof {
            guard::lemma_phase_keeps_tables(state@, current);
        }
        current = run_phase(state, current);
        left = left - 1;
    }
    current == Phase::Done
}

/// Whether a scan can be watched: no cross product of it overflows, and it
/// can start.
pub open spec fn can_watch<'a>(inputs: GrouscanInputs<'a>, cx: i32, cy: i32) -> bool {
    &&& order::table_fits(inputs.gylookup@)
    &&& order::sky_fits(inputs.sky)
    &&& run::seed_ok(inputs, cx, cy)
}

/// Scans one ray, in `limit` phases at most. `None` where the scan cannot
/// be watched, and nothing changes; and where it is not done after so many
/// phases, or one of them would leave the tables or overflow, and what was
/// scanned before that stays.
pub fn grouscan_run_within(
    scratch: &mut ScanScratch,
    inputs: &GrouscanInputs<'_>,
    vptr_offset: usize,
    ixy_sptr_col_idx: usize,
    cx: i32,
    cy: i32,
    gxmip: i32,
    gmipnum: u32,
    limit: u32,
) -> (r: Option<GrouscanPrologue>)
    ensures
        ({
            let s = run::started(
                run::seeded(
                    *old(scratch),
                    *inputs,
                    vptr_offset as int,
                    ixy_sptr_col_idx as int,
                    cx,
                    cy,
                    gmipnum,
                ),
                gxmip,
            );
            let entry = run::first_phase(vptr_offset as int);
            if can_watch(*inputs, cx, cy) {
                &&& r is Some == run::done_within(s, entry, limit as nat)
                &&& r matches Some(p) ==> run::prologue_of(s, p) && run::scratch_of(
                    *final(scratch),
                    run::after(s, entry, limit as nat),
                )
                &&& run::scratch_of(*final(scratch), driven(s, entry, limit as nat).0)
            } else {
                r is None && *final(scratch) == *old(scratch)
            }
        }),
{
    if !table_is_fit(inputs.gylookup) || !sky_is_fit(inputs.sky) || !seed_is_ok(inputs, cx, cy) {
        return None;
    }
    let mut state: GrouscanState = GrouscanState::from_seed(
        scratch,
        inputs,
        vptr_offset,
        ixy_sptr_col_idx,
        cx,
        cy,
        gmipnum,
    );
    let prologue: GrouscanPrologue = start(&mut state, gxmip);
    let entry: Phase = match prologue.dispatch {
        InitialDispatch::DrawFlor => Phase::DrawFlor,
        InitialDispatch::DrawCeil => Phase::DrawCeil,
    };
    proof {
        lemma_driven_to_the_end(state@, entry, limit as nat);
    }
    if run_phases_within(&mut state, entry, limit) {
        Some(prologue)
    } else {
        None
    }
}

} // verus!
