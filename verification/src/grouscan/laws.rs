//! Laws of a scan: what its fills, its segment stack and its end keep.
use crate::arith;
use crate::color;
use crate::grouscan;
use crate::grouscan::fill;
use crate::grouscan::skyfill;
use crate::grouscan::stack;
use crate::grouscan::walls;
use crate::grouscan::{CfType, Phase, Ray, SkyRef, CF_SEED_INDEX};
use crate::rasterizer::CastDat;
use vstd::prelude::*;

verus! {

// ---------------------------------------------------------------------
// The two primitives.

/// A cross product is a machine integer unless the screen position and
/// the depth are both the lowest there are.
pub proof fn lemma_cross_in_range(cx: i32, cy: i32, depth: i32, gy: i32)
    requires
        arith::low16(gy as int) != -0x8000 || arith::high16(depth) != -0x8000,
    ensures
        i32::MIN <= grouscan::cross(cx, cy, depth, gy) <= i32::MAX,
{
    let a = arith::high16(cx);
    let b = arith::low16(gy as int);
    let c = arith::high16(cy);
    let d = arith::high16(depth);
    assert(-0x4000_0000 <= a * b <= 0x4000_0000 && (b != -0x8000 ==> a * b < 0x4000_0000))
        by (nonlinear_arith)
        requires
            -0x8000 <= a < 0x8000,
            -0x8000 <= b < 0x8000,
    ;
    assert(-0x4000_0000 <= c * d <= 0x4000_0000 && (d != -0x8000 ==> c * d < 0x4000_0000))
        by (nonlinear_arith)
        requires
            -0x8000 <= c < 0x8000,
            -0x8000 <= d < 0x8000,
    ;
}

/// A fill along any edge stays inside machine integers, unless the screen
/// position and the depth are both the lowest there are.
pub proof fn lemma_edge_in_range(
    cx: i32,
    cy: i32,
    dx: int,
    dy: int,
    depth: i32,
    gy: i32,
    outward: bool,
    limit: nat,
)
    requires
        arith::low16(gy as int) != -0x8000 || arith::high16(depth) != -0x8000,
    ensures
        fill::edge_ok(cx, cy, dx, dy, depth, gy, outward, limit),
    decreases limit,
{
    if limit > 0 {
        lemma_cross_in_range(cx, cy, depth, gy);
        lemma_edge_in_range(
            arith::wrap32(cx + dx),
            arith::wrap32(cy + dy),
            dx,
            dy,
            depth,
            gy,
            outward,
            (limit - 1) as nat,
        );
    }
}

/// A fill never draws more pixels than it may.
pub proof fn lemma_edge_len_bound(
    cx: i32,
    cy: i32,
    dx: int,
    dy: int,
    depth: i32,
    gy: i32,
    outward: bool,
    limit: nat,
)
    ensures
        fill::edge_len(cx, cy, dx, dy, depth, gy, outward, limit) <= limit,
    decreases limit,
{
    if limit > 0 {
        lemma_edge_len_bound(
            arith::wrap32(cx + dx),
            arith::wrap32(cy + dy),
            dx,
            dy,
            depth,
            gy,
            outward,
            (limit - 1) as nat,
        );
    }
}

/// Without shade, and after a black colour, a voxel of neutral brightness
/// keeps its colour.
pub proof fn lemma_neutral_shade(vox: u32)
    requires
        color::byte_of(vox, 3) == 0x80,
    ensures
        grouscan::shade(vox, 0, 0) == vox,
{
    reveal_with_fuel(grouscan::byte_of_wide, 8);
    assert(forall|i: int|
        0 <= i < 4 ==> #[trigger] grouscan::shade_lane(vox, 0, 0, i) == 0x100 * color::byte_of(
            vox,
            i,
        ));
    let b3 = grouscan::shade_lane(vox, 0, 0, 3);
    assert(b3 == 0x8000);
    assert forall|i: int| 0 <= i < 4 implies #[trigger] grouscan::shade_byte(vox, 0, 0, i)
        == color::byte_of(vox, i) by {
        let v = color::byte_of(vox, i);
        assert(0 <= v < 0x100);
        let w = grouscan::shade_lane(vox, 0, 0, i);
        assert(w * b3 / 0x80_0000 == v) by (nonlinear_arith)
            requires
                w == 0x100 * v,
                b3 == 0x8000,
        ;
    }
    color::lemma_packed_bytes(vox);
    assert(grouscan::shade_byte(vox, 0, 0, 0) == color::byte_of(vox, 0));
    assert(grouscan::shade_byte(vox, 0, 0, 1) == color::byte_of(vox, 1));
    assert(grouscan::shade_byte(vox, 0, 0, 2) == color::byte_of(vox, 2));
    assert(grouscan::shade_byte(vox, 0, 0, 3) == color::byte_of(vox, 3));
}

/// Where the shade takes the whole brightness of the voxel and of the last
/// colour, the pixel is black.
pub proof fn lemma_black_shade(vox: u32, tail: u32, csub: i64)
    requires
        color::byte_of(tail, 3) <= grouscan::byte_of_wide(csub, 6),
        color::byte_of(vox, 3) <= grouscan::byte_of_wide(csub, 7),
    ensures
        grouscan::shade(vox, tail, csub) == 0,
{
    let b3 = grouscan::shade_lane(vox, tail, csub, 3);
    assert(b3 == 0);
    assert forall|i: int| #[trigger] grouscan::shade_byte(vox, tail, csub, i) == 0 by {
        let w = grouscan::shade_lane(vox, tail, csub, i);
        assert(w * b3 == 0) by (nonlinear_arith)
            requires
                b3 == 0,
        ;
    }
}

// ---------------------------------------------------------------------
// Fills.

/// A ceiling fill changes only slots of its segment, and every slot of
/// the segment is either drawn or still in it.
pub proof fn lemma_ceiling_slots(r: Ray, vox: u32, p: int)
    requires
        fill::segment_ok(r),
        r.c_idx < r.cf.len(),
        fill::current(r).i0 <= fill::current(r).i1,
        0 <= p < r.radar.len(),
    ensures
        ({
            let c = fill::current(r);
            let s = fill::save_left(fill::ceil_after(r, vox, fill::ceil_len(r)));
            let d = fill::current(s);
            &&& d.i1 == c.i1
            &&& c.i0 <= d.i0 <= c.i1 + 1
            &&& !(c.i0 <= p < d.i0) ==> s.radar[p] == r.radar[p]
            &&& c.i0 <= p < d.i0 ==> s.radar[p].dist == r.ogx
        }),
{
    let c = fill::current(r);
    lemma_edge_len_bound(
        r.cx0,
        r.cy0,
        r.gi0 as int,
        r.gi1 as int,
        r.ogx,
        r.gy_raw,
        true,
        fill::room(c.i0 as int, c.i1 as int),
    );
}

/// A floor fill changes only slots of its segment, and every slot of the
/// segment is either drawn or still in it.
pub proof fn lemma_floor_slots(r: Ray, vox: u32, p: int)
    requires
        fill::segment_ok(r),
        r.c_idx < r.cf.len(),
        fill::current(r).i0 <= fill::current(r).i1,
        0 <= p < r.radar.len(),
    ensures
        ({
            let c = fill::current(r);
            let s = fill::save_right(fill::flor_after(r, vox, fill::flor_len(r)));
            let d = fill::current(s);
            &&& d.i0 == c.i0
            &&& c.i0 - 1 <= d.i1 <= c.i1
            &&& !(d.i1 < p <= c.i1) ==> s.radar[p] == r.radar[p]
            &&& d.i1 < p <= c.i1 ==> s.radar[p].dist == r.ogx
        }),
{
    let c = fill::current(r);
    lemma_edge_len_bound(
        r.cx1,
        r.cy1,
        -r.gi0 as int,
        -r.gi1 as int,
        r.ogx,
        r.gy_raw,
        false,
        fill::room(c.i0 as int, c.i1 as int),
    );
}

/// The rows of the wall below draw only slots from the segment's left end
/// to the slot that they start at. The slots that they leave go back to
/// the segment.
proof fn lemma_fwall_rows_slots(r: Ray, p: int)
    requires
        0 <= r.c_idx < r.cf.len(),
        fill::current(r).i0 <= r.ebx <= isize::MAX,
        walls::floor_top(r) < r.z1,
        0 <= p < r.radar.len(),
    ensures
        ({
            let c = fill::current(r);
            let (s, phase) = walls::fwall_rows(r);
            &&& s.radar.len() == r.radar.len()
            &&& !(c.i0 <= p <= r.ebx) ==> s.radar[p] == r.radar[p]
            &&& s.radar[p] == r.radar[p] || s.radar[p].dist == r.ogx
            &&& phase == Phase::DrawCwall ==> {
                &&& fill::current(s).i0 == c.i0 <= fill::current(s).i1 <= r.ebx
                &&& p <= fill::current(s).i1 ==> s.radar[p] == r.radar[p]
            }
        }),
    decreases r.z1 - walls::floor_top(r),
{
    let (c, ready) = walls::fwall_row(r);
    if ready {
        let n = walls::right_len(c);
        let d = walls::right_after(c, n);
        lemma_edge_len_bound(
            c.cx1,
            c.cy1,
            -c.gi0 as int,
            -c.gi1 as int,
            c.ogx,
            c.gy_raw,
            false,
            walls::right_room(c),
        );
        assert(walls::floor_top(d) == walls::floor_top(r));
        if n != walls::right_room(c) && d.z1 != walls::floor_top(r) {
            lemma_fwall_rows_slots(d, p);
        }
    }
}

/// The fill of the wall below changes only slots of its segment. Where it
/// does not use the segment up, the slots that are left in the segment
/// are those that it did not draw.
pub proof fn lemma_fwall_slots(r: Ray, p: int)
    requires
        fill::segment_ok(r),
        r.c_idx < r.cf.len(),
        fill::current(r).i0 <= fill::current(r).i1,
        0 <= p < r.radar.len(),
    ensures
        ({
            let c = fill::current(r);
            let (s, phase) = walls::draw_fwall(r);
            &&& !(c.i0 <= p <= c.i1) ==> s.radar[p] == r.radar[p]
            &&& phase == Phase::DrawCwall ==> {
                &&& fill::current(s).i0 == c.i0 <= fill::current(s).i1 <= c.i1
                &&& p <= fill::current(s).i1 ==> s.radar[p] == r.radar[p]
            }
        }),
{
    if walls::has_fwall(r) {
        let s = Ray { ebx: fill::current(r).i1 as int, ..r };
        assert(walls::floor_top(s) == walls::floor_top(r));
        lemma_fwall_rows_slots(s, p);
    }
}

/// The rows of the wall above draw only slots from the slot that they
/// start at to the segment's right end. The slots that they leave go back
/// to the segment.
proof fn lemma_cwall_rows_slots(r: Ray, p: int)
    requires
        0 <= r.c_idx < r.cf.len(),
        isize::MIN <= r.ebx <= fill::current(r).i1,
        r.z0 < walls::ceiling_z(r) <= i32::MAX,
        0 <= p < r.radar.len(),
    ensures
        ({
            let c = fill::current(r);
            let (s, phase) = walls::cwall_rows(r);
            &&& s.radar.len() == r.radar.len()
            &&& !(r.ebx <= p <= c.i1) ==> s.radar[p] == r.radar[p]
            &&& s.radar[p] == r.radar[p] || s.radar[p].dist == r.ogx
            &&& phase == Phase::PreDrawCeil ==> {
                &&& r.ebx <= fill::current(s).i0 <= fill::current(s).i1 == c.i1
                &&& p >= fill::current(s).i0 ==> s.radar[p] == r.radar[p]
            }
        }),
    decreases walls::ceiling_z(r) - r.z0,
{
    let (c, ready) = walls::cwall_row(r);
    if ready {
        let n = walls::left_len(c);
        let d = walls::left_after(c, n);
        lemma_edge_len_bound(
            c.cx0,
            c.cy0,
            c.gi0 as int,
            c.gi1 as int,
            c.ogx,
            c.gy_raw,
            true,
            walls::left_room(c),
        );
        assert(walls::ceiling_z(d) == walls::ceiling_z(r));
        if n != walls::left_room(c) && d.z0 != walls::ceiling_z(r) {
            lemma_cwall_rows_slots(d, p);
        }
    }
}

/// The fill of the wall above changes only slots of its segment. Where it
/// does not use the segment up, the slots that are left in the segment
/// are those that it did not draw.
pub proof fn lemma_cwall_slots(r: Ray, p: int)
    requires
        fill::segment_ok(r),
        r.c_idx < r.cf.len(),
        walls::draw_cwall_ok(r),
        fill::current(r).i0 <= fill::current(r).i1,
        0 <= p < r.radar.len(),
    ensures
        ({
            let c = fill::current(r);
            let (s, phase) = walls::draw_cwall(r);
            &&& !(c.i0 <= p <= c.i1) ==> s.radar[p] == r.radar[p]
            &&& phase == Phase::PreDrawCeil ==> {
                &&& c.i0 <= fill::current(s).i0 <= fill::current(s).i1 == c.i1
                &&& p >= fill::current(s).i0 ==> s.radar[p] == r.radar[p]
            }
        }),
{
    if r.vptr_offset + 4 <= r.column.len() && r.vptr_offset != 0 && walls::ceiling_z(r) > r.z0 {
        let s = Ray {
            ebx: fill::current(r).i0 as int,
            z1: walls::floor_top(r) as i32,
            ..r
        };
        assert(walls::ceiling_z(s) == walls::ceiling_z(r));
        lemma_cwall_rows_slots(s, p);
    }
}

// ---------------------------------------------------------------------
// The segment stack.

/// Exchanging the two depths twice changes nothing.
pub proof fn lemma_swap_twice(r: Ray)
    ensures
        stack::swapped(stack::swapped(r)) == r,
{
}

/// Taking a doubled segment off again leaves the open stack as it was.
pub proof fn lemma_delete_undoes_double(cf: Seq<CfType>, c: int, ce: int, p: int)
    requires
        0 <= c <= ce,
        ce + 1 < cf.len(),
        0 <= p <= ce,
    ensures
        stack::without(stack::doubled(cf, c, ce), c, ce + 1)[p] == cf[p],
{
}

/// A split neither loses a slot of the segment nor doubles one: each is
/// in the lower part or in the upper part, never in both. The other
/// segments stay, those above moved up by one.
pub proof fn lemma_split_shares_slots(r: Ray, next_v3: i32, col: int, p: int)
    requires
        0 <= r.c_idx <= r.ce_idx,
        r.ce_idx + 1 < r.cf.len(),
        fill::current(r).i0 - 1 <= col <= fill::current(r).i1,
        isize::MIN <= col,
        col < isize::MAX,
    ensures
        ({
            let c = fill::current(r);
            let cf = stack::split_stack(r, next_v3, col);
            let low = cf[r.c_idx + 1];
            let high = cf[r.c_idx];
            &&& (c.i0 <= p <= c.i1) == ((low.i0 <= p <= low.i1) || (high.i0 <= p <= high.i1))
            &&& !((low.i0 <= p <= low.i1) && (high.i0 <= p <= high.i1))
        }),
        forall|q: int|
            0 <= q < r.c_idx ==> #[trigger] stack::split_stack(r, next_v3, col)[q] == r.cf[q],
        forall|q: int|
            r.c_idx < q <= r.ce_idx ==> stack::split_stack(r, next_v3, col)[q + 1]
                == #[trigger] r.cf[q],
{
}

// ---------------------------------------------------------------------
// The end of a scan.

/// Painting a textured sky changes no slot outside the open segments.
proof fn lemma_textured_elsewhere(
    r: Ray,
    sky: SkyRef,
    radar: Seq<CastDat>,
    first: int,
    q: int,
    p: int,
)
    requires
        0 <= q,
        0 <= p < radar.len(),
        forall|i: int| q <= i <= r.ce_idx ==> !(#[trigger] skyfill::slot_of(r, i, p)),
    ensures
        skyfill::textured_sky(r, sky, radar, first, q)[p] == radar[p],
    decreases r.ce_idx + 1 - q,
{
    if q <= r.ce_idx {
        let e = r.cf[q];
        assert(!skyfill::slot_of(r, q, p));
        let next = skyfill::textured_slots(r, sky, radar, e, first, skyfill::slots(e));
        assert(next[p] == radar[p]);
        lemma_textured_elsewhere(
            r,
            sky,
            next,
            skyfill::slot_column(r, sky.lat@, e, first, skyfill::slots(e)),
            q + 1,
            p,
        );
    }
}

/// The end of a scan changes no slot outside the open segments, be the sky
/// plain or textured.
pub proof fn lemma_sky_elsewhere(r: Ray, p: int)
    requires
        0 <= p < r.radar.len(),
        !skyfill::slot_open(r, p),
    ensures
        skyfill::start_sky(r).radar[p] == r.radar[p],
{
    if let Some(sky) = r.sky {
        lemma_textured_elsewhere(
            r,
            sky,
            r.radar,
            sky.xsiz_post as int,
            CF_SEED_INDEX as int,
            p,
        );
    }
}

/// Every slot of an open segment shows the sky's depth after the scan.
proof fn lemma_textured_depth(
    r: Ray,
    sky: SkyRef,
    radar: Seq<CastDat>,
    first: int,
    q: int,
    p: int,
)
    requires
        0 <= q,
        0 <= p < radar.len(),
        radar[p].dist == r.skycast.dist || exists|i: int|
            q <= i <= r.ce_idx && #[trigger] skyfill::slot_of(r, i, p),
    ensures
        skyfill::textured_sky(r, sky, radar, first, q)[p].dist == r.skycast.dist,
    decreases r.ce_idx + 1 - q,
{
    if q <= r.ce_idx {
        let e = r.cf[q];
        let next = skyfill::textured_slots(r, sky, radar, e, first, skyfill::slots(e));
        if skyfill::slot_of(r, q, p) {
            assert(next[p].dist == r.skycast.dist);
        } else {
            assert(next[p] == radar[p]);
        }
        lemma_textured_depth(
            r,
            sky,
            next,
            skyfill::slot_column(r, sky.lat@, e, first, skyfill::slots(e)),
            q + 1,
            p,
        );
    }
}

/// After a scan that ends in the sky, every slot that was open shows the
/// depth of the sky.
pub proof fn lemma_open_slots_show_sky(r: Ray, p: int)
    requires
        0 <= p < r.radar.len(),
        skyfill::slot_open(r, p),
    ensures
        skyfill::start_sky(r).radar[p].dist == r.skycast.dist,
{
    if let Some(sky) = r.sky {
        lemma_textured_depth(r, sky, r.radar, sky.xsiz_post as int, CF_SEED_INDEX as int, p);
    }
}

} // verus!
