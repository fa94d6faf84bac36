//! Scans over plain ground, where every column is one slab: they end.
use crate::arith;
use crate::cf_narrow;
use crate::grid_view::GridView;
use crate::grouscan::columns;
use crate::grouscan::empty;
use crate::grouscan::fill;
use crate::grouscan::order;
use crate::grouscan::run;
use crate::grouscan::step;
use crate::grouscan::walls;
use crate::grouscan::{GrouscanInputs, Phase, Ray, CF_SEED_INDEX};
use crate::rasterizer::ScanScratch;
use crate::slab;
use vstd::prelude::*;

verus! {

/// Whether a chain is one slab, or none at all.
pub open spec fn one_slab(s: Seq<u8>) -> bool {
    s.len() > 0 ==> s[0] == 0
}

/// Whether every column of a chunk is.
pub open spec fn plain_chunk(slab_buf: Seq<u8>, column_offsets: Seq<u32>) -> bool {
    forall|i: int|
        0 <= i < column_offsets.len() ==> one_slab(
            slab::chain_bytes(slab_buf, #[trigger] column_offsets[i] as int),
        )
}

/// Whether every chunk of a grid is plain, and its layers can be counted.
pub open spec fn plain_grid(grid: GridView) -> bool {
    grid.chunk_grid matches Some(cg) ==> {
        &&& cg.origin_chunk_z + (cg.chunks_z as i32) <= i32::MAX
        &&& forall|x: int, y: int, z: int|
            (#[trigger] grid.chunk(x, y, z)) matches Some(v) ==> plain_chunk(
                v.slab_buf@,
                v.column_offsets@,
            )
    }
}

/// Layers below the one that the ray is in.
pub open spec fn layers_below(grid: GridView, z: i32) -> int {
    match grid.chunk_grid {
        Some(cg) => arith::max_int(cg.origin_chunk_z + (cg.chunks_z as i32) - 1 - z, 0),
        None => 0,
    }
}

/// A scan of one level over plain ground, with the grid lines ahead of it.
pub open spec fn over_ground(r: Ray) -> bool {
    &&& r.gmipcnt == 0 && r.gmipnum <= 1
    &&& one_slab(r.column)
    &&& plain_chunk(r.slab_buf, r.column_offsets)
    &&& plain_grid(r.grid_view)
    &&& r.ce_idx == CF_SEED_INDEX
    &&& r.gpz.len() == 2 && r.gdz.len() == 2
    &&& 0 <= r.ngxmax < i32::MAX
    &&& empty::recedes(r.gpz[0], r.gdz[0]) && empty::recedes(r.gpz[1], r.gdz[1])
}

/// The same before a phase: only the seed segment is open, and no column
/// has a second slab to look at.
pub open spec fn over_ground_at(r: Ray, phase: Phase) -> bool {
    &&& over_ground(r)
    &&& match phase {
        Phase::Remiporend | Phase::Startsky | Phase::Done => true,
        Phase::SkipixyWithPresync | Phase::Intoslabloop | Phase::Findslabloop => false,
        Phase::Skipixy3 | Phase::SyncFromPresync => r.c_idx == CF_SEED_INDEX && r.vptr_offset == 0,
        _ => r.c_idx == CF_SEED_INDEX,
    }
}

/// Place of a phase in the order that the phases of a column come in,
/// counted from the end.
pub open spec fn place(phase: Phase) -> int {
    match phase {
        Phase::SyncFromPresync => 12,
        Phase::Skipixy3 => 11,
        Phase::DrawFwall => 10,
        Phase::DrawCwall => 9,
        Phase::PreDrawCeil => 8,
        Phase::DrawCeil => 7,
        Phase::PreDrawFlor => 6,
        Phase::DrawFlor => 5,
        Phase::AfterDelete => 4,
        Phase::AfterDeleteKeptPresync => 3,
        Phase::PreDeleteZ | Phase::Remiporend => 2,
        Phase::Done => 0,
        _ => 1,
    }
}

/// Columns and layers that the ray may still enter.
pub open spec fn ways_left(r: Ray) -> int {
    empty::lines_left(r) + layers_below(r.grid_view, r.current_chunk_z)
}

/// The most phases that are left.
pub open spec fn phases_left(r: Ray, phase: Phase) -> int {
    match phase {
        Phase::PreDeleteZ | Phase::DeleteZ | Phase::Remiporend | Phase::Startsky | Phase::Done =>
            place(phase),
        _ => place(phase) + 13 * ways_left(r),
    }
}

/// Two rays in the same place of the same world.
pub open spec fn same_place(r: Ray, s: Ray) -> bool {
    &&& s.gmipcnt == r.gmipcnt && s.gmipnum == r.gmipnum
    &&& s.column == r.column && s.vptr_offset == r.vptr_offset
    &&& s.slab_buf == r.slab_buf && s.column_offsets == r.column_offsets
    &&& s.grid_view == r.grid_view && s.current_chunk_z == r.current_chunk_z
    &&& s.c_idx == r.c_idx && s.ce_idx == r.ce_idx
    &&& s.gpz == r.gpz && s.gdz == r.gdz && s.ngxmax == r.ngxmax && s.gxmax == r.gxmax
}

pub proof fn lemma_fwall_stays(r: Ray)
    ensures
        same_place(r, walls::fwall_rows(r).0),
        walls::fwall_rows(r).1 == Phase::DrawCwall || walls::fwall_rows(r).1 == Phase::PreDeleteZ,
    decreases arith::max_int(r.z1 - walls::floor_top(r), 0),
{
    let (c, ready) = walls::fwall_row(r);
    if r.z1 > walls::floor_top(r) && ready {
        let d = walls::right_after(c, walls::right_len(c));
        assert(walls::floor_top(d) == walls::floor_top(r));
        lemma_fwall_stays(d);
    }
}

pub proof fn lemma_cwall_stays(r: Ray)
    ensures
        same_place(r, walls::cwall_rows(r).0),
        ({
            let phase = walls::cwall_rows(r).1;
            phase == Phase::PreDrawCeil || phase == Phase::PreDrawFlor || phase
                == Phase::PreDeleteZ
        }),
    decreases arith::max_int(walls::ceiling_z(r) - r.z0, 0),
{
    let (c, ready) = walls::cwall_row(r);
    if r.z0 < walls::ceiling_z(r) <= i32::MAX && ready {
        let d = walls::left_after(c, walls::left_len(c));
        assert(walls::ceiling_z(d) == walls::ceiling_z(r));
        lemma_cwall_stays(d);
    }
}

/// The ways left are counted from zero.
pub proof fn lemma_ways_nonnegative(r: Ray)
    ensures
        ways_left(r) >= 0,
        empty::lines_left(r) >= 0,
{
    empty::lemma_lines_nonnegative(r.gpz[0], r.gdz[0], r.ngxmax);
    empty::lemma_lines_nonnegative(r.gpz[1], r.gdz[1], r.ngxmax);
}

/// A column that is found over plain ground is plain.
proof fn lemma_found_column(r: Ray)
    requires
        over_ground(r),
    ensures
        over_ground(step::refreshed(r)),
        step::refreshed(r).gpz == r.gpz && step::refreshed(r).gdz == r.gdz,
        step::refreshed(r).ngxmax == r.ngxmax,
        step::refreshed(r).grid_view == r.grid_view,
        step::refreshed(r).current_chunk_z == r.current_chunk_z,
        step::refreshed(r).c_presync_idx == r.c_presync_idx,
{
    if r.grid_view.chunk_grid is None {
        let i = (r.cy as u32).wrapping_mul(r.vsid).wrapping_add(r.cx as u32) as int;
        if 0 <= i < r.column_offsets.len() {
            assert(one_slab(slab::chain_bytes(r.slab_buf, r.column_offsets[i] as int)));
        }
    } else {
        let log2 = r.chunk_size_xy_log2;
        let (x, y) = (r.cx >> log2, r.cy >> log2);
        let s = step::moved_to_chunk(r, x, y);
        assert(r.grid_view.chunk(x as int, y as int, r.current_chunk_z as int) matches Some(v)
            ==> plain_chunk(v.slab_buf@, v.column_offsets@));
        assert(plain_chunk(s.slab_buf, s.column_offsets));
        let i = columns::local_index(s);
        if 0 <= i < s.column_offsets.len() {
            assert(one_slab(slab::chain_bytes(s.slab_buf, s.column_offsets[i] as int)));
        }
    }
}

/// The step to the next column takes one of the grid lines away.
proof fn lemma_ground_step(r: Ray)
    requires
        over_ground_at(r, Phase::AfterDeleteKeptPresync),
    ensures
        ({
            let (s, phase) = step::after_delete_kept(r);
            &&& over_ground_at(s, phase)
            &&& phases_left(s, phase) < phases_left(r, Phase::AfterDeleteKeptPresync)
        }),
{
    let a = step::stepped(Ray { c_idx: r.c_idx - 1, ..r });
    assert(over_ground(a));
    lemma_found_column(a);
    let s = step::next_column(r);
    lemma_ways_nonnegative(r);
    assert(over_ground(s));
    let near = cf_narrow::near_lane(r.gpz);
    if (s.gpz[s.lane] as u32) <= (s.ngxmax as u32) {
        if r.gpz[near] < 0 {
            empty::lemma_negative_is_large(r.gpz[near]);
        }
        empty::lemma_fewer_lines(r.gpz[near], r.gdz[near], r.ngxmax);
        let e = step::entered(s);
        assert(step::column_narrowed(e) == e);
        assert(e.gpz == cf_narrow::crossed(r.gpz, r.gdz));
        assert(empty::lines_left(e) < empty::lines_left(r));
        assert(over_ground(e));
    }
}

/// The floor: where it opens on the chunk below, a layer is used up.
proof fn lemma_ground_floor(r: Ray)
    requires
        over_ground_at(r, Phase::DrawFlor),
    ensures
        ({
            let (s, phase) = fill::draw_flor(r);
            &&& over_ground_at(s, phase)
            &&& phases_left(s, phase) < phases_left(r, Phase::DrawFlor)
        }),
{
    lemma_ways_nonnegative(r);
    if let Some(chunk) = columns::chunk_below(r) {
        assert(r.grid_view.chunk(
            r.current_chunk_idx_xy[0] as int,
            r.current_chunk_idx_xy[1] as int,
            r.current_chunk_z + 1,
        ) == Some(chunk));
        assert(plain_chunk(chunk.slab_buf@, chunk.column_offsets@));
        let s = Ray {
            current_chunk_z: (r.current_chunk_z + 1) as i32,
            chunk_world_z_base: (r.chunk_world_z_base + (r.chunk_size_z as i32)) as i32,
            ..columns::enter_chunk(r, chunk)
        };
        let i = columns::local_index(s);
        if 0 <= i < s.column_offsets.len() {
            assert(one_slab(slab::chain_bytes(s.slab_buf, s.column_offsets[i] as int)));
        }
    }
}

/// A phase that stays in its place and comes before the next one leaves
/// fewer of them.
proof fn lemma_next_in_place(r: Ray, phase: Phase, s: Ray, next: Phase)
    requires
        over_ground_at(r, phase),
        same_place(r, s),
        place(next) < place(phase),
        5 <= place(phase),
        next != Phase::Skipixy3 && next != Phase::SkipixyWithPresync && next != Phase::Intoslabloop
            && next != Phase::Findslabloop,
    ensures
        over_ground_at(s, next),
        0 <= phases_left(s, next) < phases_left(r, phase),
{
    lemma_ways_nonnegative(r);
    assert(ways_left(s) == ways_left(r));
}

/// The fills of a column.
proof fn lemma_ground_fill(r: Ray, phase: Phase)
    requires
        over_ground_at(r, phase),
        phase == Phase::DrawFwall || phase == Phase::DrawCwall || phase == Phase::DrawCeil,
    ensures
        ({
            let (s, next) = run::step_phase(r, phase);
            &&& over_ground_at(s, next)
            &&& 0 <= phases_left(s, next) < phases_left(r, phase)
        }),
{
    let (s, next) = run::step_phase(r, phase);
    match phase {
        Phase::DrawFwall => {
            lemma_fwall_stays(Ray { ebx: fill::current(r).i1 as int, ..r });
        },
        Phase::DrawCwall => {
            let a = Ray { z1: walls::floor_top(r) as i32, ..r };
            lemma_cwall_stays(Ray { ebx: fill::current(r).i0 as int, ..a });
        },
        _ => {},
    }
    assert(same_place(r, s));
    lemma_next_in_place(r, phase, s, next);
}

/// Every phase over plain ground leaves fewer of them.
pub proof fn lemma_ground_phase(r: Ray, phase: Phase)
    requires
        over_ground_at(r, phase),
        phase != Phase::Done,
    ensures
        ({
            let (s, next) = run::step_phase(r, phase);
            &&& over_ground_at(s, next)
            &&& 0 <= phases_left(s, next) < phases_left(r, phase)
        }),
{
    let (s, next) = run::step_phase(r, phase);
    lemma_ways_nonnegative(r);
    match phase {
        Phase::DrawFwall | Phase::DrawCwall | Phase::DrawCeil => lemma_ground_fill(r, phase),
        Phase::DrawFlor => {
            lemma_ground_floor(r);
            lemma_ways_nonnegative(s);
        },
        Phase::AfterDeleteKeptPresync => {
            lemma_ground_step(r);
            lemma_ways_nonnegative(s);
        },
        Phase::SyncFromPresync => {
            assert(same_place(r, s));
            assert(ways_left(s) == ways_left(r));
        },
        Phase::PreDrawCeil | Phase::PreDrawFlor => lemma_next_in_place(r, phase, s, next),
        Phase::Skipixy3 => lemma_next_in_place(r, phase, s, next),
        _ => {
            assert(ways_left(s) == ways_left(r));
        },
    }
}

/// A scan over plain ground ends: it takes no more phases than those that
/// its grid lines and layers allow.
pub proof fn lemma_ground_ends(r: Ray, phase: Phase, n: nat)
    requires
        over_ground_at(r, phase),
        phases_left(r, phase) <= n,
    ensures
        order::ends_within(r, phase, n),
    decreases n,
{
    if phase != Phase::Done {
        let (s, next) = run::step_phase(r, phase);
        lemma_ground_phase(r, phase);
        lemma_ground_ends(s, next, (n - 1) as nat);
    }
}

/// Whether a scan of one level starts over plain ground, with the grid
/// lines ahead of it.
pub open spec fn starts_on_ground<'a>(
    sc: ScanScratch,
    inputs: GrouscanInputs<'a>,
    cx: i32,
    cy: i32,
    gmipnum: u32,
) -> bool {
    let side = inputs.grid_view.chunk_size_xy;
    &&& gmipnum <= 1
    &&& one_slab(
        run::seed_column(inputs, run::chunk_of(cx, cy, side), run::local_of(cx, cy, side)),
    )
    &&& plain_chunk(inputs.slab_buf@, inputs.column_offsets@)
    &&& plain_grid(inputs.grid_view)
    &&& 0 <= sc.gxmax < i32::MAX
    &&& sc.gpz@[0] >= 0 && empty::recedes(sc.gpz@[0], sc.gdz@[0])
    &&& sc.gpz@[1] >= 0 && empty::recedes(sc.gpz@[1], sc.gdz@[1])
}

/// The most phases of a scan over plain ground.
pub open spec fn phases_needed<'a>(sc: ScanScratch, inputs: GrouscanInputs<'a>) -> int {
    20 + 13 * (empty::lines_within(sc.gpz@[0], sc.gdz@[0], sc.gxmax) + empty::lines_within(
        sc.gpz@[1],
        sc.gdz@[1],
        sc.gxmax,
    ) + layers_below(inputs.grid_view, inputs.camera_chunk_z))
}

/// A scan over plain ground ends after a number of phases that the grid
/// lines within its depth and the layers below it give. Where its seed is
/// far enough from the ends of every range for as many, none of them
/// leaves the tables or overflows.
pub proof fn lemma_ground_scan_ends<'a>(
    sc: ScanScratch,
    inputs: GrouscanInputs<'a>,
    vptr_offset: usize,
    ixy: usize,
    cx: i32,
    cy: i32,
    gxmip: i32,
    gmipnum: u32,
)
    requires
        starts_on_ground(sc, inputs, cx, cy, gmipnum),
    ensures
        ({
            let r = run::started(
                run::seeded(sc, inputs, vptr_offset as int, ixy as int, cx, cy, gmipnum),
                gxmip,
            );
            let phase = run::first_phase(vptr_offset as int);
            let n = phases_needed(sc, inputs);
            &&& 0 <= n
            &&& order::ends_within(r, phase, n as nat)
            &&& order::seed_fits(sc, inputs, cx, cy, n as nat) ==> run::done_within(
                r,
                phase,
                n as nat,
            )
        }),
{
    let r = run::started(
        run::seeded(sc, inputs, vptr_offset as int, ixy as int, cx, cy, gmipnum),
        gxmip,
    );
    let phase = run::first_phase(vptr_offset as int);
    let n = phases_needed(sc, inputs);
    let near = cf_narrow::near_lane(sc.gpz@);
    if 0 <= sc.gpz@[near] <= sc.gxmax {
        empty::lemma_fewer_lines(sc.gpz@[near], sc.gdz@[near], sc.gxmax);
    }
    empty::lemma_lines_nonnegative(sc.gpz@[0], sc.gdz@[0], sc.gxmax);
    empty::lemma_lines_nonnegative(sc.gpz@[1], sc.gdz@[1], sc.gxmax);
    assert(r.gpz == cf_narrow::crossed(sc.gpz@, sc.gdz@));
    lemma_ways_nonnegative(r);
    assert(over_ground_at(r, phase));
    lemma_ground_ends(r, phase, n as nat);
    if order::seed_fits(sc, inputs, cx, cy, n as nat) {
        order::lemma_seed_in_order(
            sc,
            inputs,
            vptr_offset,
            ixy,
            cx,
            cy,
            gxmip,
            gmipnum,
            n as nat,
        );
    }
}

} // verus!
