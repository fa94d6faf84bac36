//! What a scan spends its phases on: columns, layers, slabs and segments
//! are all used up, and only splitting a segment makes more of them. So a
//! scan ends unless it splits segments without end.
use crate::arith;
use crate::cf_narrow;
use crate::grid_view::GridView;
use crate::grouscan::columns;
use crate::grouscan::empty;
use crate::grouscan::fill;
use crate::grouscan::ground;
use crate::grouscan::mip;
use crate::grouscan::order;
use crate::grouscan::run;
use crate::grouscan::stack;
use crate::grouscan::step;
use crate::grouscan::walls;
use crate::grouscan::{GrouscanInputs, Phase, Ray, CF_SEED_INDEX, CF_TOP_INDEX};
use crate::rasterizer::ScanScratch;
use crate::slab;
use vstd::prelude::*;

verus! {

/// Whether no chunk of a grid stores more than `m` bytes, and its layers
/// can be counted.
pub open spec fn small_chunks(grid: GridView, m: nat) -> bool {
    grid.chunk_grid matches Some(cg) ==> {
        &&& cg.origin_chunk_z + (cg.chunks_z as i32) <= i32::MAX
        &&& forall|x: int, y: int, z: int|
            (#[trigger] grid.chunk(x, y, z)) matches Some(v) ==> v.slab_buf@.len() <= m
    }
}

/// A scan through chunks of at most `m` bytes, with the grid lines ahead
/// of it.
pub open spec fn under_way(r: Ray, m: nat) -> bool {
    &&& m <= usize::MAX
    &&& 0 <= r.gmipcnt && r.gmipnum <= i32::MAX
    &&& r.column.len() <= m && r.slab_buf.len() <= m
    &&& small_chunks(r.grid_view, m)
    &&& 0 <= r.vptr_offset
    &&& CF_SEED_INDEX <= r.ce_idx <= CF_TOP_INDEX
    &&& r.gpz.len() == 2 && r.gdz.len() == 2
    &&& 0 <= r.ngxmax <= r.gxmax < i32::MAX
    &&& empty::recedes(r.gpz[0], r.gdz[0]) && empty::recedes(r.gpz[1], r.gdz[1])
}

/// Whether a phase belongs to the end of a scan.
pub open spec fn is_last(phase: Phase) -> bool {
    phase == Phase::Remiporend || phase == Phase::Startsky || phase == Phase::Done
}

/// The same before a phase: the current segment is on the stack, or just
/// above it where one was taken off.
pub open spec fn under_way_at(r: Ray, phase: Phase, m: nat) -> bool {
    &&& under_way(r, m)
    &&& is_last(phase) || CF_SEED_INDEX <= r.c_idx <= r.ce_idx + if phase == Phase::AfterDelete
        || phase == Phase::AfterDeleteKeptPresync {
        1int
    } else {
        0
    }
}

/// Place of a phase in the order that the phases of a segment come in,
/// counted from the end.
pub open spec fn place(phase: Phase) -> int {
    match phase {
        Phase::SkipixyWithPresync => 17,
        Phase::SyncFromPresync => 16,
        Phase::Skipixy3 => 15,
        Phase::Intoslabloop => 14,
        Phase::Findslabloop => 13,
        Phase::DrawFwall => 12,
        Phase::DrawCwall => 11,
        Phase::PreDrawCeil => 10,
        Phase::DrawCeil => 9,
        Phase::PreDrawFlor => 8,
        Phase::DrawFlor => 7,
        Phase::PreDeleteZ => 6,
        Phase::DeleteZ => 5,
        Phase::AfterDelete => 4,
        Phase::AfterDeleteKeptPresync => 3,
        Phase::Remiporend => 2,
        Phase::Startsky => 1,
        Phase::Done => 0,
    }
}

/// Bytes of the column from the current slab on.
pub open spec fn bytes_left(r: Ray) -> int {
    arith::max_int(r.column.len() - r.vptr_offset, 0)
}

/// What a column of at most `m` bytes can cost.
pub open spec fn column_cost(m: nat) -> int {
    20 * (m as int) + 1400
}

/// Levels after the current one.
pub open spec fn levels_left(r: Ray) -> int {
    arith::max_int(r.gmipnum - 1 - r.gmipcnt, 0)
}

/// Columns that the ray may still enter. No level has more grid lines and
/// layers than are counted for each one to come.
pub open spec fn columns_left(r: Ray) -> int {
    ground::ways_left(r) + levels_left(r) * 0x4_0000_0000
}

/// What is left to spend: columns, slabs of the column, segments of the
/// stack, and phases of the segment.
pub open spec fn budget(r: Ray, phase: Phase, m: nat) -> int {
    match phase {
        Phase::Startsky | Phase::Done => place(phase),
        Phase::Remiporend => place(phase) + levels_left(r) * 0x4_0000_0000 * column_cost(m),
        _ => place(phase) + 20 * (r.c_idx - 126) + 20 * bytes_left(r) + columns_left(r)
            * column_cost(m),
    }
}

/// Whether a phase splits a segment: the stack grows.
pub open spec fn splits(r: Ray, phase: Phase) -> bool {
    run::step_phase(r, phase).0.ce_idx > r.ce_idx
}

/// What one phase does to the budget.
pub open spec fn spends(r: Ray, phase: Phase, m: nat) -> bool {
    let (s, next) = run::step_phase(r, phase);
    &&& under_way_at(s, next, m)
    &&& 0 <= budget(s, next, m)
    &&& budget(s, next, m) < budget(r, phase, m) + if splits(r, phase) {
        19int
    } else {
        0
    }
}

/// A budget is never negative.
proof fn lemma_budget_nonnegative(r: Ray, phase: Phase, m: nat)
    requires
        under_way_at(r, phase, m),
    ensures
        budget(r, phase, m) >= 0,
        0 <= ground::ways_left(r) < 0x3_0000_0000,
        columns_left(r) * column_cost(m) >= levels_left(r) * 0x4_0000_0000 * column_cost(m) >= 0,
        phase != Phase::Done ==> budget(r, phase, m) > 0,
{
    ground::lemma_ways_nonnegative(r);
    lemma_few_lines(r.gpz[0], r.gdz[0], r.ngxmax);
    lemma_few_lines(r.gpz[1], r.gdz[1], r.ngxmax);
    let (w, l, c) = (columns_left(r), levels_left(r) * 0x4_0000_0000, column_cost(m));
    assert(w * c >= l * c >= 0) by (nonlinear_arith)
        requires
            w >= l >= 0,
            c >= 0,
    ;
}

/// There are no more grid lines than depths.
proof fn lemma_few_lines(gpz: i32, gdz: i32, far: i32)
    requires
        far < i32::MAX,
    ensures
        empty::lines_within(gpz, gdz, far) <= 0x8000_0000,
{
    if gdz > 0 && 0 <= gpz <= far {
        let (a, d) = (far - gpz, gdz as int);
        assert(a / d <= a) by (nonlinear_arith)
            requires
                a >= 0,
                d >= 1,
        ;
    }
}

/// A phase that stays where it is.
proof fn lemma_stays(r: Ray, phase: Phase, m: nat)
    requires
        under_way_at(r, phase, m),
        ({
            let (s, next) = run::step_phase(r, phase);
            &&& ground::same_place(r, s)
            &&& place(next) < place(phase)
            &&& 3 <= place(phase)
            &&& next == Phase::AfterDelete || next == Phase::AfterDeleteKeptPresync || r.c_idx
                <= r.ce_idx
        }),
    ensures
        spends(r, phase, m),
{
    let (s, next) = run::step_phase(r, phase);
    lemma_budget_nonnegative(r, phase, m);
    assert(columns_left(s) == columns_left(r));
    assert(under_way_at(s, next, m));
    lemma_budget_nonnegative(s, next, m);
}

proof fn lemma_fills(r: Ray, phase: Phase, m: nat)
    requires
        under_way_at(r, phase, m),
        phase == Phase::DrawFwall || phase == Phase::DrawCwall || phase == Phase::DrawCeil,
    ensures
        spends(r, phase, m),
{
    match phase {
        Phase::DrawFwall => {
            ground::lemma_fwall_stays(Ray { ebx: fill::current(r).i1 as int, ..r });
        },
        Phase::DrawCwall => {
            let a = Ray { z1: walls::floor_top(r) as i32, ..r };
            ground::lemma_cwall_stays(Ray { ebx: fill::current(r).i0 as int, ..a });
        },
        _ => {},
    }
    lemma_stays(r, phase, m);
}

/// A chain is no longer than the bytes that it is stored in.
proof fn lemma_chain_bytes_len(buf: Seq<u8>, off: int)
    requires
        0 <= off,
    ensures
        slab::chain_bytes(buf, off).len() <= buf.len(),
{
    if off < buf.len() {
        slab::lemma_chain_end(buf.skip(off), 0);
    }
}

/// A column that is found on the way is as short as the others.
proof fn lemma_found_column(r: Ray, m: nat)
    requires
        under_way(r, m),
    ensures
        ({
            let s = step::refreshed(r);
            &&& under_way(s, m)
            &&& s.gpz == r.gpz && s.gdz == r.gdz && s.ngxmax == r.ngxmax
            &&& s.grid_view == r.grid_view && s.current_chunk_z == r.current_chunk_z
            &&& s.c_presync_idx == r.c_presync_idx && s.ce_idx == r.ce_idx
            &&& s.gmipcnt == r.gmipcnt && s.gmipnum == r.gmipnum
        }),
{
    let log2 = if r.gmipcnt > 0 {
        (r.chunk_size_xy_log2 - r.gmipcnt) as u32
    } else {
        r.chunk_size_xy_log2
    };
    let (x, y) = if r.gmipcnt > 0 {
        (r.cx_mip >> log2, r.cy_mip >> log2)
    } else {
        (r.cx >> log2, r.cy >> log2)
    };
    let t = if r.grid_view.chunk_grid is None {
        r
    } else {
        assert(r.grid_view.chunk(x as int, y as int, r.current_chunk_z as int) matches Some(v)
            ==> v.slab_buf@.len() <= m);
        step::moved_to_chunk(r, x, y)
    };
    assert(under_way(t, m));
    assert forall|i: int| 0 <= i < t.column_offsets.len() implies slab::chain_bytes(
        t.slab_buf,
        #[trigger] t.column_offsets[i] as int,
    ).len() <= m by {
        lemma_chain_bytes_len(t.slab_buf, t.column_offsets[i] as int);
    }
}

/// The segment below, or the next column.
proof fn lemma_steps(r: Ray, m: nat)
    requires
        under_way_at(r, Phase::AfterDeleteKeptPresync, m),
    ensures
        spends(r, Phase::AfterDeleteKeptPresync, m),
{
    let (s, next) = step::after_delete_kept(r);
    lemma_budget_nonnegative(r, Phase::AfterDeleteKeptPresync, m);
    if r.c_idx > CF_SEED_INDEX {
        assert(columns_left(s) == columns_left(r));
        lemma_budget_nonnegative(s, next, m);
    } else {
        let a = step::stepped(Ray { c_idx: r.c_idx - 1, ..r });
        assert(under_way(a, m));
        lemma_found_column(a, m);
        let t = step::next_column(r);
        assert(under_way(t, m));
        let near = cf_narrow::near_lane(r.gpz);
        if (t.gpz[t.lane] as u32) <= (t.ngxmax as u32) {
            if r.gpz[near] < 0 {
                empty::lemma_negative_is_large(r.gpz[near]);
            }
            empty::lemma_fewer_lines(r.gpz[near], r.gdz[near], r.ngxmax);
            assert(s.gpz == cf_narrow::crossed(r.gpz, r.gdz));
            assert(under_way(s, m));
            lemma_budget_nonnegative(s, next, m);
            lemma_one_way_less(r, s, m);
        } else {
            assert(levels_left(t) == levels_left(r));
            lemma_budget_nonnegative(t, Phase::Remiporend, m);
        }
    }
}

/// One way less pays for a whole column.
proof fn lemma_one_way_less(r: Ray, s: Ray, m: nat)
    requires
        columns_left(s) < columns_left(r),
    ensures
        columns_left(s) * column_cost(m) + column_cost(m) <= columns_left(r) * column_cost(m),
{
    let (a, b, c) = (columns_left(s), columns_left(r), column_cost(m));
    assert(a * c + c <= b * c) by (nonlinear_arith)
        requires
            a + 1 <= b,
            c >= 0,
    ;
}

/// The floor: where it opens on the chunk below, a layer is used up.
proof fn lemma_floors(r: Ray, m: nat)
    requires
        under_way_at(r, Phase::DrawFlor, m),
    ensures
        spends(r, Phase::DrawFlor, m),
{
    let (s, next) = fill::draw_flor(r);
    if next == Phase::Skipixy3 {
        lemma_budget_nonnegative(r, Phase::DrawFlor, m);
        let chunk = columns::chunk_below(r)->0;
        assert(r.grid_view.chunk(
            r.current_chunk_idx_xy[0] as int,
            r.current_chunk_idx_xy[1] as int,
            r.current_chunk_z + 1,
        ) == Some(chunk));
        let t = Ray {
            current_chunk_z: (r.current_chunk_z + 1) as i32,
            chunk_world_z_base: (r.chunk_world_z_base + (r.chunk_size_z as i32)) as i32,
            ..columns::enter_chunk(r, chunk)
        };
        let i = columns::local_index(t);
        if 0 <= i < t.column_offsets.len() {
            lemma_chain_bytes_len(t.slab_buf, t.column_offsets[i] as int);
        }
        lemma_budget_nonnegative(s, next, m);
        lemma_one_way_less(r, s, m);
    } else {
        assert(ground::same_place(r, s));
        lemma_stays(r, Phase::DrawFlor, m);
    }
}

/// Looking at a slab: only a split makes the stack grow.
proof fn lemma_looks(r: Ray, m: nat)
    requires
        under_way_at(r, Phase::Intoslabloop, m),
    ensures
        spends(r, Phase::Intoslabloop, m),
{
    let (s, next) = stack::into_slab(r);
    lemma_budget_nonnegative(r, Phase::Intoslabloop, m);
    assert(columns_left(s) == columns_left(r));
    assert(bytes_left(s) == bytes_left(r));
    lemma_budget_nonnegative(s, next, m);
}

/// Moving to the next slab uses bytes of the column up.
proof fn lemma_moves(r: Ray, m: nat)
    requires
        under_way_at(r, Phase::Findslabloop, m),
    ensures
        spends(r, Phase::Findslabloop, m),
{
    let (s, next) = stack::find_slab(r);
    lemma_budget_nonnegative(r, Phase::Findslabloop, m);
    assert(columns_left(s) == columns_left(r));
    lemma_budget_nonnegative(s, next, m);
}

/// Taking a segment off the stack.
proof fn lemma_deletes(r: Ray, m: nat)
    requires
        under_way_at(r, Phase::DeleteZ, m),
    ensures
        spends(r, Phase::DeleteZ, m),
{
    let (s, next) = stack::delete_z(r);
    lemma_budget_nonnegative(r, Phase::DeleteZ, m);
    assert(columns_left(s) == columns_left(r));
    lemma_budget_nonnegative(s, next, m);
}

/// The level change uses a level up; the lines of the next one are at most
/// as many as are counted for it.
proof fn lemma_levels(r: Ray, m: nat)
    requires
        under_way_at(r, Phase::Remiporend, m),
    ensures
        spends(r, Phase::Remiporend, m),
{
    let (s, next) = mip::remip(r);
    lemma_budget_nonnegative(r, Phase::Remiporend, m);
    if ((r.gmipcnt + 1) as u32) < r.gmipnum {
        let n = mip::level_narrowed(r);
        let c = mip::coarsened(n);
        assert(empty::recedes(c.gpz[0], c.gdz[0]) && empty::recedes(c.gpz[1], c.gdz[1]));
        assert(levels_left(c) == levels_left(r) - 1);
        if next == Phase::SyncFromPresync {
            let i = c.ixy_sptr_col_idx;
            lemma_chain_bytes_len(c.slab_buf, c.column_offsets[i] as int);
            assert(s.gpz == cf_narrow::crossed(c.gpz, c.gdz));
            assert(empty::recedes(s.gpz[0], s.gdz[0]) && empty::recedes(s.gpz[1], s.gdz[1]));
            assert(under_way_at(s, next, m));
            lemma_budget_nonnegative(s, next, m);
            let (a, b, k) = (columns_left(s), levels_left(r) * 0x4_0000_0000, column_cost(m));
            assert(a * k + k <= b * k) by (nonlinear_arith)
                requires
                    a + 1 <= b,
                    k >= 0,
            ;
        }
    }
}

/// Every phase spends some of the budget, but that one that splits a
/// segment may add to it.
pub proof fn lemma_phase_spends(r: Ray, phase: Phase, m: nat)
    requires
        under_way_at(r, phase, m),
        phase != Phase::Done,
    ensures
        spends(r, phase, m),
{
    match phase {
        Phase::DrawFwall | Phase::DrawCwall | Phase::DrawCeil => lemma_fills(r, phase, m),
        Phase::DrawFlor => lemma_floors(r, m),
        Phase::DeleteZ => lemma_deletes(r, m),
        Phase::AfterDeleteKeptPresync => lemma_steps(r, m),
        Phase::Intoslabloop => lemma_looks(r, m),
        Phase::Findslabloop => lemma_moves(r, m),
        Phase::Remiporend => lemma_levels(r, m),
        Phase::Startsky => {},
        _ => lemma_stays(r, phase, m),
    }
}

/// How many of the next `n` phases split a segment.
pub open spec fn splits_within(r: Ray, phase: Phase, n: nat) -> nat
    decreases n,
{
    if phase == Phase::Done || n == 0 {
        0
    } else {
        let (s, next) = run::step_phase(r, phase);
        splits_within(s, next, (n - 1) as nat) + if splits(r, phase) {
            1nat
        } else {
            0
        }
    }
}

/// A scan that is under way ends, unless it splits segments without end:
/// so many phases as its budget has, and nineteen more for each split,
/// take it there.
pub proof fn lemma_ends_but_for_splits(r: Ray, phase: Phase, m: nat, n: nat)
    requires
        under_way_at(r, phase, m),
        budget(r, phase, m) + 19 * splits_within(r, phase, n) <= n,
    ensures
        order::ends_within(r, phase, n),
    decreases n,
{
    lemma_budget_nonnegative(r, phase, m);
    if phase != Phase::Done {
        let (s, next) = run::step_phase(r, phase);
        lemma_phase_spends(r, phase, m);
        lemma_ends_but_for_splits(s, next, m, (n - 1) as nat);
    }
}

/// Whether a scan starts among columns of at most `m` bytes, with the grid
/// lines ahead of it.
pub open spec fn starts_under_way<'a>(
    sc: ScanScratch,
    inputs: GrouscanInputs<'a>,
    cx: i32,
    cy: i32,
    gxmip: i32,
    gmipnum: u32,
    m: nat,
) -> bool {
    let side = inputs.grid_view.chunk_size_xy;
    let column = run::seed_column(
        inputs,
        run::chunk_of(cx, cy, side),
        run::local_of(cx, cy, side),
    );
    &&& m <= usize::MAX
    &&& gmipnum <= i32::MAX
    &&& gmipnum > 1 ==> gxmip >= 0
    &&& column.len() <= m && inputs.slab_buf@.len() <= m
    &&& small_chunks(inputs.grid_view, m)
    &&& 0 <= sc.gxmax < i32::MAX
    &&& empty::recedes(sc.gpz@[0], sc.gdz@[0]) && empty::recedes(sc.gpz@[1], sc.gdz@[1])
}

/// A scan of any map, at any number of levels, ends after `n` phases, where
/// these are as many as its budget has and nineteen more for each of them
/// that splits a segment: it can only go on for ever by splitting segments
/// without end. Where it has one level and its seed is far enough from the
/// ends of every range for `n` phases, none of them leaves the tables or
/// overflows.
pub proof fn lemma_scan_ends_but_for_splits<'a>(
    sc: ScanScratch,
    inputs: GrouscanInputs<'a>,
    vptr_offset: usize,
    ixy: usize,
    cx: i32,
    cy: i32,
    gxmip: i32,
    gmipnum: u32,
    m: nat,
    n: nat,
)
    requires
        starts_under_way(sc, inputs, cx, cy, gxmip, gmipnum, m),
        ({
            let r = run::started(
                run::seeded(sc, inputs, vptr_offset as int, ixy as int, cx, cy, gmipnum),
                gxmip,
            );
            let phase = run::first_phase(vptr_offset as int);
            budget(r, phase, m) + 19 * splits_within(r, phase, n) <= n
        }),
    ensures
        ({
            let r = run::started(
                run::seeded(sc, inputs, vptr_offset as int, ixy as int, cx, cy, gmipnum),
                gxmip,
            );
            let phase = run::first_phase(vptr_offset as int);
            &&& order::ends_within(r, phase, n)
            &&& gmipnum <= 1 && order::seed_fits(sc, inputs, cx, cy, n) ==> run::done_within(
                r,
                phase,
                n,
            )
        }),
{
    let r = run::started(
        run::seeded(sc, inputs, vptr_offset as int, ixy as int, cx, cy, gmipnum),
        gxmip,
    );
    let phase = run::first_phase(vptr_offset as int);
    assert(r.gpz == cf_narrow::crossed(sc.gpz@, sc.gdz@));
    assert(under_way_at(r, phase, m));
    lemma_ends_but_for_splits(r, phase, m, n);
    if gmipnum <= 1 && order::seed_fits(sc, inputs, cx, cy, n) {
        order::lemma_seed_in_order(sc, inputs, vptr_offset, ixy, cx, cy, gxmip, gmipnum, n);
    }
}

} // verus!
