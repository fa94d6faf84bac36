//! Laws of the walk of a scan: from slab to slab, from segment to
//! segment, and from column to column.
use crate::arith;
use crate::cf_narrow;
use crate::dda::sampler;
use crate::grid_view::GridView;
use crate::grouscan;
use crate::grouscan::columns;
use crate::grouscan::fill;
use crate::grouscan::fill_laws;
use crate::grouscan::run;
use crate::grouscan::stack;
use crate::grouscan::step;
use crate::grouscan::{Phase, Ray, CF_SEED_INDEX, CF_TOP_INDEX};
use crate::slab;
use vstd::prelude::*;

verus! {

/// Going over to another segment takes its heights and edges, and going
/// back gives back those that the ray had. The slots of the segments
/// never change.
pub proof fn lemma_segments_change_over(r: Ray)
    requires
        r.cf.len() == 256,
        0 <= r.c_idx < 256,
        0 <= r.c_presync_idx < 256,
    ensures
        ({
            let s = stack::sync_from_presync(r);
            let back = stack::sync_from_presync(
                Ray { c_idx: r.c_presync_idx, c_presync_idx: r.c_idx, ..s },
            );
            &&& r.c_idx != r.c_presync_idx ==> s.z0 == r.cf[r.c_idx].z0 && s.z1
                == r.cf[r.c_idx].z1
            &&& r.c_idx != r.c_presync_idx ==> s.cx0 == r.cf[r.c_idx].cx0 && s.cy0
                == r.cf[r.c_idx].cy0 && s.cx1 == r.cf[r.c_idx].cx1 && s.cy1 == r.cf[r.c_idx].cy1
            &&& back.z0 == r.z0 && back.z1 == r.z1
            &&& back.cx0 == r.cx0 && back.cy0 == r.cy0 && back.cx1 == r.cx1 && back.cy1 == r.cy1
            &&& forall|p: int|
                0 <= p < 256 ==> (#[trigger] s.cf[p]).i0 == r.cf[p].i0 && s.cf[p].i1
                    == r.cf[p].i1
            &&& forall|p: int|
                0 <= p < 256 && p != r.c_presync_idx ==> #[trigger] s.cf[p] == r.cf[p]
        }),
{
}

/// Looking for the next slab follows the link of the header, and a slab
/// is drawn at once exactly where it is the last.
pub proof fn lemma_next_slab(r: Ray)
    requires
        0 <= r.vptr_offset < r.column.len(),
        r.vptr_offset + 4 * r.column[r.vptr_offset] < r.column.len() <= usize::MAX,
    ensures
        ({
            let (f, phase) = stack::find_slab(r);
            &&& f.vptr_offset == r.vptr_offset + 4 * r.column[r.vptr_offset]
            &&& phase == Phase::DrawFwall <==> r.column[f.vptr_offset] == 0
            &&& phase == Phase::Intoslabloop <==> r.column[f.vptr_offset] != 0
            &&& f == Ray { vptr_offset: f.vptr_offset, ..r }
        }),
{
}

/// A slab that is not the last is passed where its end lies above the
/// left edge. Otherwise it is drawn where the slab below starts past the
/// right edge, and else the segment is split between the two.
pub proof fn lemma_slab_in_view(r: Ray)
    requires
        0 <= r.vptr_offset,
        r.vptr_offset + 4 <= r.column.len(),
        r.vptr_offset + 4 * r.column[r.vptr_offset] + 4 <= r.column.len(),
        r.column[r.vptr_offset] != 0,
        r.gylookup.len() <= i32::MAX,
    ensures
        ({
            let base = columns::level_base(r);
            let end = r.column[r.vptr_offset + 2] + 1 + base;
            let next = r.column[r.vptr_offset + 4 * r.column[r.vptr_offset] + 3] + base;
            let (f, phase) = stack::into_slab(r);
            0 <= end < r.gylookup.len() && 0 <= next < r.gylookup.len() ==> if grouscan::cross(
                r.cx0,
                r.cy0,
                r.ogx,
                r.gylookup[end],
            ) > 0 {
                phase == Phase::Findslabloop && f.cf == r.cf && f.radar == r.radar
            } else if grouscan::cross(r.cx1, r.cy1, r.ogx, r.gylookup[next]) <= 0 {
                phase == Phase::DrawFwall && f.cf == r.cf && f.radar == r.radar
            } else {
                r.ce_idx < CF_TOP_INDEX ==> f.ce_idx == r.ce_idx + 1 && f.c_idx == r.c_idx + 1
                    && f.z1 == next && phase == Phase::DrawFwall
            }
        }),
{
}

/// A split leaves the lower part in view, from the old top down to the
/// slab below, and puts the upper part beside it. The edge between them
/// is the right edge moved back slot by slot: past it at every sixteenth
/// slot of the big steps and at each slot of the small ones, and at the
/// split no longer, unless the small steps ran out.
pub proof fn lemma_split_at_edge(r: Ray, v2: int, next_v3: i32)
    requires
        r.cf.len() == 256,
        CF_SEED_INDEX <= r.c_idx <= r.ce_idx < CF_TOP_INDEX,
        0 <= v2 + 1 < r.gylookup.len(),
        isize::MIN < r.cf[r.c_idx].i0 <= r.cf[r.c_idx].i1 < isize::MAX - 1,
        r.cf[r.c_idx].i1 - r.cf[r.c_idx].i0 < 0x4000_0000,
        isize::MIN + 0x8000_0000 < r.cf[r.c_idx].i0,
    ensures
        ({
            let (f, phase) = stack::slab_split(r, v2, next_v3);
            let low = f.cf[r.c_idx + 1];
            let high = f.cf[r.c_idx];
            let k = r.cf[r.c_idx].i1 - low.i1;
            let gy = r.gylookup[v2 + 1];
            &&& phase == Phase::DrawFwall
            &&& k >= 0
            &&& high.i0 == low.i1 + 1 && high.i1 == r.cf[r.c_idx].i1 && low.i0 == r.cf[r.c_idx].i0
            &&& f.cx1 == arith::wrap32(r.cx1 - k * r.gi0)
            &&& f.cy1 == arith::wrap32(r.cy1 - k * r.gi1)
            &&& high.cx0 == arith::wrap32(r.cx1 - (k - 1) * r.gi0)
            &&& high.cy0 == arith::wrap32(r.cy1 - (k - 1) * r.gi1)
            &&& high.cx1 == r.cx1 && high.cy1 == r.cy1
            &&& f.z0 == r.z0 && f.z1 == next_v3 && high.z0 == next_v3 && high.z1 == r.z1
            &&& exists|big: int, small: int|
                k == 16 * big + small && #[trigger] searched(r, gy, big, small)
        }),
{
    let a = fill::with_current(r, stack::saved_segment(r, fill::current(r)));
    let b = Ray { gy_raw: r.gylookup[v2 + 1], ..a };
    let big = stack::big_steps(b);
    let small = stack::small_steps(b);
    let k = stack::split_steps(b);
    let gy = b.gy_raw;
    let limit = stack::big_step_limit(b);
    let m = stack::edge_moved(b, 16 * big);
    fill_laws::lemma_fill_stops_at_edge(
        arith::wrap32(b.cx1 - 16 * b.gi0),
        arith::wrap32(b.cy1 - 16 * b.gi1),
        -16 * b.gi0,
        -16 * b.gi1,
        b.ogx,
        gy,
        false,
        limit,
    );
    fill_laws::lemma_fill_stops_at_edge(
        m.cx1,
        m.cy1,
        -b.gi0 as int,
        -b.gi1 as int,
        b.ogx,
        gy,
        false,
        17,
    );
    assert(r.cf[r.c_idx] == fill::current(r));
    assert(b.cf[r.c_idx].i1 == r.cf[r.c_idx].i1);
    assert(limit <= 0x400_0000 + 1);
    let (x, y) = (r.gi0 as int, r.gi1 as int);
    assert((k - 1) * x == k * x - x && (k - 1) * y == k * y - y) by (nonlinear_arith);
    arith::lemma_wrap_twice(r.cx1 - k * x, x);
    arith::lemma_wrap_twice(r.cy1 - k * y, y);
    assert forall|q: int| 16 <= q <= 16 * big && q % 16 == 0 implies #[trigger] past(r, gy, q) by {
        let i = q / 16 - 1;
        assert(fill_laws::cross_at(
            arith::wrap32(b.cx1 - 16 * b.gi0),
            arith::wrap32(b.cy1 - 16 * b.gi1),
            -16 * b.gi0,
            -16 * b.gi1,
            b.ogx,
            gy,
            i,
        ) > 0);
        assert(i * (-16 * x) == 16 * x - q * x && i * (-16 * y) == 16 * y - q * y)
            by (nonlinear_arith)
            requires
                q == 16 * (i + 1),
        ;
        arith::lemma_wrap_twice(r.cx1 - 16 * x, i * (-16 * x));
        arith::lemma_wrap_twice(r.cy1 - 16 * y, i * (-16 * y));
    }
    let w = 16 * big;
    assert forall|q: int| w <= q <= w + 17 implies (fill_laws::cross_at(
        m.cx1,
        m.cy1,
        -b.gi0 as int,
        -b.gi1 as int,
        b.ogx,
        gy,
        q - w,
    ) > 0) == #[trigger] past(r, gy, q) by {
        let t = q - w;
        assert(t * -x == w * x - q * x && t * -y == w * y - q * y) by (nonlinear_arith)
            requires
                t == q - w,
        ;
        arith::lemma_wrap_twice(r.cx1 - w * x, t * -x);
        arith::lemma_wrap_twice(r.cy1 - w * y, t * -y);
    }
    assert(searched(r, gy, big, small));
}

/// Whether the right edge is past the ray when it is moved back by `k`
/// slots.
pub open spec fn past(r: Ray, gy: i32, k: int) -> bool {
    grouscan::cross(
        arith::wrap32(r.cx1 - k * r.gi0),
        arith::wrap32(r.cy1 - k * r.gi1),
        r.ogx,
        gy,
    ) > 0
}

/// Whether a search for the edge that the ray is at takes `big` steps of
/// sixteen slots and then `small` steps of one.
pub open spec fn searched(r: Ray, gy: i32, big: int, small: int) -> bool {
    &&& big >= 0 && 0 <= small <= 17
    &&& forall|k: int|
        (16 <= k <= 16 * big && k % 16 == 0) || 16 * big <= k < 16 * big + small
            ==> #[trigger] past(r, gy, k)
    &&& small < 17 ==> !past(r, gy, 16 * big + small)
}

/// A step crosses one grid line: one coordinate changes by one, in the
/// direction of the ray along the axis of the nearer line, at the current
/// level as at level 0, and the walls that follow face along that axis.
pub proof fn lemma_step_crosses_one_line(r: Ray)
    requires
        r.lane == 0 || r.lane == 1,
        r.gixy.len() == 2,
        -0x4000_0000 < r.cx < 0x4000_0000,
        -0x4000_0000 < r.cy < 0x4000_0000,
        -0x4000_0000 < r.cx_mip < 0x4000_0000,
        -0x4000_0000 < r.cy_mip < 0x4000_0000,
        r.gixy[0] != 0 && r.gixy[1] != 0,
    ensures
        ({
            let s = step::stepped(r);
            &&& s.cx_mip - r.cx_mip == s.cx - r.cx
            &&& s.cy_mip - r.cy_mip == s.cy - r.cy
            &&& r.lane == 0 ==> s.cy == r.cy && (r.gixy[0] > 0 ==> s.cx == r.cx + 1) && (r.gixy[0]
                < 0 ==> s.cx == r.cx - 1)
            &&& r.lane == 1 ==> s.cx == r.cx && (r.gixy[1] > 0 ==> s.cy == r.cy + 1) && (r.gixy[1]
                < 0 ==> s.cy == r.cy - 1)
            &&& s.wall_lane == r.lane
        }),
{
}

/// Where the table steps of a ray are one column along x and one row
/// along y, a step leads to the table position of the column that it
/// enters: looking the column up again changes nothing.
pub proof fn lemma_step_meets_table(r: Ray)
    requires
        r.lane == 0 || r.lane == 1,
        r.gixy.len() == 2,
        0 < r.vsid <= 0x4000,
        r.vsid_signed == r.vsid,
        r.gixy[0] == 1 || r.gixy[0] == -1,
        r.gixy[1] == r.vsid || r.gixy[1] == -r.vsid,
        0 <= r.cx < r.vsid,
        0 <= r.cy < r.vsid,
        r.ixy_sptr_col_idx == r.cy * r.vsid + r.cx,
        r.grid_view.chunk_grid is None,
        r.gmipcnt == 0,
        ({
            let s = step::stepped(r);
            0 <= s.cx < r.vsid && 0 <= s.cy < r.vsid
        }),
    ensures
        ({
            let s = step::stepped(r);
            let f = step::refreshed(s);
            &&& f.ixy_sptr_col_idx == s.ixy_sptr_col_idx
            &&& f.ixy_sptr_col_idx == f.cy * r.vsid + f.cx
            &&& f.ixy_sptr_col_idx < r.column_offsets.len()
                && r.column_offsets[f.ixy_sptr_col_idx] <= r.slab_buf.len() ==> f.column
                == slab::chain_bytes(r.slab_buf, r.column_offsets[f.ixy_sptr_col_idx] as int)
        }),
{
    let s = step::stepped(r);
    let v = r.vsid as int;
    let (y, z) = (r.cy as int, s.cy as int);
    assert(0 <= y * v <= 0x1000_0000 && 0 <= z * v <= 0x1000_0000) by (nonlinear_arith)
        requires
            0 <= y < v,
            0 <= z < v,
            v <= 0x4000,
    ;
    assert((y + 1) * v == y * v + v && (y - 1) * v == y * v - v) by (nonlinear_arith);
}

/// A ray that leaves the map of a single chunk is in an empty column.
pub proof fn lemma_outside_is_empty(r: Ray)
    requires
        r.grid_view.chunk_grid is None,
        r.gmipcnt == 0,
        r.cx < 0 || r.cy < 0 || r.cx >= r.vsid_signed || r.cy >= r.vsid_signed,
    ensures
        step::refreshed(r).column.len() == 0,
        step::refreshed(r) == (Ray { column: step::refreshed(r).column, ..r }),
{
}

/// A column of a grid lies in the chunk that its coordinates fall into:
/// the chunk index times the side, and the coordinate inside the chunk,
/// give the coordinate.
pub proof fn lemma_column_in_its_chunk(cx: i32, cy: i32, side: u32, k: u32)
    requires
        k <= 30,
        side == 1u32 << k,
    ensures
        ({
            let chunk = run::chunk_of(cx, cy, side);
            let local = run::local_of(cx, cy, side);
            &&& chunk[0] * side + local[0] == cx && 0 <= local[0] < side
            &&& chunk[1] * side + local[1] == cy && 0 <= local[1] < side
        }),
{
    sampler::lemma_trailing_zeros(side, k);
    arith::lemma_mask(cx, k);
    arith::lemma_mask(cy, k);
    arith::lemma_shr_divides(cx, k);
    arith::lemma_shr_divides(cy, k);
    vstd::arithmetic::div_mod::lemma_fundamental_div_mod(cx as int, side as int);
    vstd::arithmetic::div_mod::lemma_fundamental_div_mod(cy as int, side as int);
    vstd::arithmetic::mul::lemma_mul_is_commutative(side as int, cx as int / side as int);
    vstd::arithmetic::mul::lemma_mul_is_commutative(side as int, cy as int / side as int);
}

/// In a grid a ray reads the chunk that its column lies in, at the
/// position of the column in the chunk, row by row; where the chunk's
/// table has no such column the ray keeps the one it has.
pub proof fn lemma_grid_column(r: Ray, k: u32)
    requires
        k <= 14,
        r.chunk_size_xy == 1u32 << k,
        r.chunk_size_xy_log2 == k,
        r.chunk_size_xy_mask == r.chunk_size_xy - 1,
        r.grid_view.chunk_grid is Some,
        r.gmipcnt == 0,
        r.current_chunk_idx_xy.len() == 2,
    ensures
        ({
            let f = step::refreshed(r);
            let side = r.chunk_size_xy as int;
            let (x, y) = (f.current_chunk_idx_xy[0], f.current_chunk_idx_xy[1]);
            &&& 0 <= r.cx - x * side < side
            &&& 0 <= r.cy - y * side < side
            &&& f.current_chunk_exists ==> f.ixy_sptr_col_idx == (r.cy - y * side) * side + (r.cx
                - x * side)
            &&& x != r.current_chunk_idx_xy[0] || y != r.current_chunk_idx_xy[1]
                ==> match r.grid_view.chunk(x as int, y as int, r.current_chunk_z as int) {
                Some(c) => f.current_chunk_exists && f.slab_buf == c.slab_buf@
                    && f.column_offsets == c.column_offsets@ && f.mip_base_offsets
                    == c.mip_base_offsets@ && f.vsid == c.vsid && f.vsid_signed == c.vsid as i32,
                None => !f.current_chunk_exists && f.column.len() == 0,
            }
            &&& !f.current_chunk_exists ==> f.column.len() == 0
            &&& f.current_chunk_exists ==> f.column == if f.ixy_sptr_col_idx
                < f.column_offsets.len() && f.column_offsets[f.ixy_sptr_col_idx]
                <= f.slab_buf.len() {
                slab::chain_bytes(f.slab_buf, f.column_offsets[f.ixy_sptr_col_idx] as int)
            } else {
                r.column
            }
        }),
{
    let side = r.chunk_size_xy as int;
    vstd::arithmetic::power2::lemma2_to64();
    if k < 14 {
        vstd::arithmetic::power2::lemma_pow2_strictly_increases(k as nat, 14);
    }
    vstd::bits::lemma_u32_shl_is_mul(1u32, k);
    arith::lemma_mask(r.cx, k);
    arith::lemma_mask(r.cy, k);
    arith::lemma_shr_divides(r.cx, k);
    arith::lemma_shr_divides(r.cy, k);
    let (x, y) = (r.cx as int / side, r.cy as int / side);
    vstd::arithmetic::div_mod::lemma_fundamental_div_mod(r.cx as int, side);
    vstd::arithmetic::div_mod::lemma_fundamental_div_mod(r.cy as int, side);
    vstd::arithmetic::mul::lemma_mul_is_commutative(side, x);
    vstd::arithmetic::mul::lemma_mul_is_commutative(side, y);
    let ly = r.cy as int % side;
    assert(0 <= ly * side <= 0x1000_0000) by (nonlinear_arith)
        requires
            0 <= ly < side,
            side <= 0x4000,
    ;
}

/// Of the two grid lines ahead the nearer one is next, and the one along
/// x where both are as near. The next column ends at its whole depth, and
/// crossing it leads on to the line after it along the same axis.
pub proof fn lemma_nearer_line_is_next(r: Ray)
    requires
        r.gpz.len() == 2,
        r.gdz.len() == 2,
        0 <= r.gpz[0] < 0x4000_0000,
        0 <= r.gpz[1] < 0x4000_0000,
        0 <= r.gdz[0] < 0x4000_0000,
        0 <= r.gdz[1] < 0x4000_0000,
    ensures
        ({
            let f = step::at_column(r);
            let e = step::entered(f);
            &&& f.lane == 0 <==> r.gpz[0] <= r.gpz[1]
            &&& f.lane == 1 <==> r.gpz[1] < r.gpz[0]
            &&& f.gx <= r.gpz[f.lane] < f.gx + 0x1_0000
            &&& f.gx as int % 0x1_0000 == 0
            &&& f.vptr_offset == 0
            &&& e.gpz.len() == 2
            &&& e.gpz[f.lane] == r.gpz[f.lane] + r.gdz[f.lane]
            &&& e.gpz[1 - f.lane] == r.gpz[1 - f.lane]
            &&& e.c_idx == r.ce_idx
        }),
{
    lemma_whole_depth(r.gpz[0]);
    lemma_whole_depth(r.gpz[1]);
}

/// A whole depth is the depth without its fraction.
pub proof fn lemma_whole_depth(x: i32)
    ensures
        cf_narrow::whole_depth(x) <= x < cf_narrow::whole_depth(x) + 0x1_0000,
        cf_narrow::whole_depth(x) as int % 0x1_0000 == 0,
{
    assert(x & -0x1_0000i32 == x - x % 0x1_0000) by (bit_vector);
}

/// A scan starts at the nearer grid line, with the depth of that line
/// behind it, and goes at level 0 up to the depth of the level, or to the
/// end where that is nearer or there is only one level.
pub proof fn lemma_scan_starts(r: Ray, gxmip: i32)
    requires
        r.gpz.len() == 2,
        r.gdz.len() == 2,
    ensures
        ({
            let s = run::started(r, gxmip);
            &&& s.lane == 0 <==> r.gpz[0] <= r.gpz[1]
            &&& s.lane == 0 || s.lane == 1
            &&& s.ogx <= r.gpz[s.lane] < s.ogx + 0x1_0000
            &&& s.gx == 0
            &&& s.gpz[1 - s.lane] == r.gpz[1 - s.lane]
            &&& r.gmipnum > 1 ==> s.ngxmax <= gxmip && s.ngxmax <= r.gxmax && (s.ngxmax == gxmip
                || s.ngxmax == r.gxmax)
            &&& r.gmipnum <= 1 ==> s.ngxmax == r.gxmax
        }),
{
    lemma_whole_depth(r.gpz[0]);
    lemma_whole_depth(r.gpz[1]);
}

/// At a coarser level of a single chunk a ray reads the column at its own
/// place in the table of the level, row by row; the table's side is that
/// of the chunk, halved at each level. Where there is none it is in an
/// empty column.
pub proof fn lemma_level_column(r: Ray)
    requires
        r.grid_view.chunk_grid is None,
        0 < r.gmipcnt < 32,
        r.chunk_size_xy <= 0x4000,
    ensures
        ({
            let f = step::refreshed(r);
            let side = r.chunk_size_xy as int / vstd::arithmetic::power2::pow2(
                r.gmipcnt as nat,
            ) as int;
            let i = r.mip_base_offsets[r.gmipcnt as int] + r.cy_mip * side + r.cx_mip;
            let inside = 0 <= r.cx_mip < side && 0 <= r.cy_mip < side;
            &&& !inside ==> f.column.len() == 0
            &&& inside ==> f.ixy_sptr_col_idx == i
            &&& inside ==> f.column == if i < r.column_offsets.len() && r.column_offsets[i]
                <= r.slab_buf.len() {
                slab::chain_bytes(r.slab_buf, r.column_offsets[i] as int)
            } else {
                Seq::empty()
            }
        }),
{
    lemma_level_side(r);
}

proof fn lemma_level_side(r: Ray)
    requires
        0 <= r.gmipcnt < 32,
        r.chunk_size_xy <= 0x4000,
    ensures
        step::level_side(r) == r.chunk_size_xy as int / vstd::arithmetic::power2::pow2(
            r.gmipcnt as nat,
        ) as int,
        0 <= step::level_side(r) <= 0x4000,
{
    vstd::bits::lemma_u32_shr_is_div(r.chunk_size_xy, r.gmipcnt as u32);
    let d = vstd::arithmetic::power2::pow2(r.gmipcnt as nat) as int;
    vstd::arithmetic::power2::lemma_pow2_pos(r.gmipcnt as nat);
    vstd::arithmetic::div_mod::lemma_div_is_ordered_by_denominator(
        r.chunk_size_xy as int,
        1,
        d,
    );
    vstd::arithmetic::div_mod::lemma_div_pos_is_pos(r.chunk_size_xy as int, d);
}

/// At a coarser level of a grid a ray reads the chunk that its column
/// lies in, at the column's place in the table of the level; a column
/// that is not there is empty.
pub proof fn lemma_grid_level_column(r: Ray, k: u32)
    requires
        k <= 14,
        0 < r.gmipcnt <= k,
        r.chunk_size_xy == 1u32 << k,
        r.chunk_size_xy_log2 == k,
        r.grid_view.chunk_grid is Some,
        r.current_chunk_idx_xy.len() == 2,
    ensures
        ({
            let f = step::refreshed(r);
            let side = vstd::arithmetic::power2::pow2((k - r.gmipcnt) as nat) as int;
            let (x, y) = (f.current_chunk_idx_xy[0], f.current_chunk_idx_xy[1]);
            &&& 0 <= r.cx_mip - x * side < side
            &&& 0 <= r.cy_mip - y * side < side
            &&& f.ixy_sptr_col_idx == f.mip_base_offsets[r.gmipcnt as int] + (r.cy_mip - y * side)
                * side + (r.cx_mip - x * side)
            &&& f.column == if f.current_chunk_exists && f.ixy_sptr_col_idx
                < f.column_offsets.len() && f.column_offsets[f.ixy_sptr_col_idx]
                <= f.slab_buf.len() {
                slab::chain_bytes(f.slab_buf, f.column_offsets[f.ixy_sptr_col_idx] as int)
            } else {
                Seq::empty()
            }
        }),
{
    let j = (k - r.gmipcnt) as u32;
    let side = vstd::arithmetic::power2::pow2(j as nat) as int;
    vstd::arithmetic::power2::lemma2_to64();
    if k < 14 {
        vstd::arithmetic::power2::lemma_pow2_strictly_increases(k as nat, 14);
    }
    if j < 14 {
        vstd::arithmetic::power2::lemma_pow2_strictly_increases(j as nat, 14);
    }
    vstd::bits::lemma_u32_shl_is_mul(1u32, k);
    vstd::bits::lemma_u32_shl_is_mul(1u32, j);
    lemma_level_side(r);
    vstd::arithmetic::power2::lemma_pow2_adds(j as nat, r.gmipcnt as nat);
    vstd::arithmetic::power2::lemma_pow2_pos(r.gmipcnt as nat);
    vstd::arithmetic::div_mod::lemma_div_multiples_vanish(
        side,
        vstd::arithmetic::power2::pow2(r.gmipcnt as nat) as int,
    );
    vstd::arithmetic::mul::lemma_mul_is_commutative(
        side,
        vstd::arithmetic::power2::pow2(r.gmipcnt as nat) as int,
    );
    let s = step::level_chunk(r);
    assert(step::level_side(r) == side);
    assert(step::level_side(s) == side);
    arith::lemma_mask(r.cx_mip, j);
    arith::lemma_mask(r.cy_mip, j);
    arith::lemma_shr_divides(r.cx_mip, j);
    arith::lemma_shr_divides(r.cy_mip, j);
    let (x, y) = (r.cx_mip as int / side, r.cy_mip as int / side);
    vstd::arithmetic::div_mod::lemma_fundamental_div_mod(r.cx_mip as int, side);
    vstd::arithmetic::div_mod::lemma_fundamental_div_mod(r.cy_mip as int, side);
    vstd::arithmetic::mul::lemma_mul_is_commutative(side, x);
    vstd::arithmetic::mul::lemma_mul_is_commutative(side, y);
}

/// Past the bytes of a column there is no slab to go on to: the last one
/// is drawn.
pub proof fn lemma_column_ends(r: Ray)
    requires
        r.vptr_offset >= r.column.len(),
    ensures
        stack::find_slab(r) == (r, Phase::DrawFwall),
        stack::at_slab(r) == Phase::DrawFwall,
{
}

/// A slab whose heights are not on the screen table is drawn where it is,
/// and nothing is split.
pub proof fn lemma_slab_off_table(r: Ray)
    requires
        0 <= r.vptr_offset,
        r.vptr_offset + 4 <= r.column.len(),
        r.vptr_offset + 4 * r.column[r.vptr_offset] + 4 <= r.column.len(),
        ({
            let base = columns::level_base(r);
            let end = r.column[r.vptr_offset + 2] + 1 + base;
            let next = r.column[r.vptr_offset + 4 * r.column[r.vptr_offset] + 3] + base;
            end < 0 || end >= r.gylookup.len() || (grouscan::cross(
                r.cx0,
                r.cy0,
                r.ogx,
                r.gylookup[end],
            ) <= 0 && (next < 0 || next >= r.gylookup.len()))
        }),
    ensures
        ({
            let (f, phase) = stack::into_slab(r);
            phase == Phase::DrawFwall && f == (Ray { gy_raw: f.gy_raw, ..r })
        }),
{
}

/// With the stack full a split ends the scan and adds no segment.
pub proof fn lemma_full_stack_ends_scan(r: Ray, v2: int, next_v3: i32)
    requires
        r.ce_idx >= CF_TOP_INDEX,
        0 <= v2 + 1 < r.gylookup.len(),
    ensures
        ({
            let (f, phase) = stack::slab_split(r, v2, next_v3);
            &&& phase == Phase::Done
            &&& f.ce_idx == r.ce_idx && f.c_idx == r.c_idx
            &&& f.radar == r.radar && f.z0 == r.z0 && f.z1 == r.z1
        }),
{
}

/// In the layer below a ray is in the same column of its chunk.
pub proof fn lemma_same_column_below<'a>(r: Ray<'a>, chunk: GridView<'a>, k: u32)
    requires
        k <= 14,
        r.chunk_size_xy == 1u32 << k,
        r.chunk_size_xy_mask == r.chunk_size_xy - 1,
    ensures
        ({
            let f = columns::handed_down(r, chunk);
            let side = r.chunk_size_xy as int;
            &&& f.ixy_sptr_col_idx == (r.cy as int % side) * side + r.cx as int % side
            &&& f.cx == r.cx && f.cy == r.cy
            &&& f.mip_base_offsets == chunk.mip_base_offsets@ && f.vsid == chunk.vsid
        }),
{
    let side = r.chunk_size_xy as int;
    vstd::arithmetic::power2::lemma2_to64();
    if k < 14 {
        vstd::arithmetic::power2::lemma_pow2_strictly_increases(k as nat, 14);
    }
    vstd::bits::lemma_u32_shl_is_mul(1u32, k);
    arith::lemma_mask(r.cx, k);
    arith::lemma_mask(r.cy, k);
    let ly = r.cy as int % side;
    assert(0 <= ly * side <= 0x1000_0000) by (nonlinear_arith)
        requires
            0 <= ly < side,
            side <= 0x4000,
    ;
}

} // verus!
