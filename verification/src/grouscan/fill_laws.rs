//! Laws of the fills: which pixels a fill draws, and in which colours.
use crate::arith;
use crate::color;
use crate::grouscan;
use crate::grouscan::fill;
use crate::grouscan::walls;
use crate::grouscan::{Phase, Ray};
use crate::rasterizer::CastDat;
use crate::slab;
use vstd::prelude::*;

verus! {

/// The bytes of a wide number are its digits, the lowest first, with a
/// negative one counted from the top.
pub proof fn lemma_wide_bytes_are_digits(x: i64)
    ensures
        ({
            let b = |i: int| grouscan::byte_of_wide(x, i);
            let low = b(0) + 0x100 * b(1) + 0x1_0000 * b(2) + 0x100_0000 * b(3);
            let high = b(4) + 0x100 * b(5) + 0x1_0000 * b(6) + 0x100_0000 * b(7);
            let all = low + 0x1_0000_0000 * high;
            all == x || all == x + 0x1_0000_0000_0000_0000
        }),
        forall|i: int| 0 <= i < 8 ==> 0 <= #[trigger] grouscan::byte_of_wide(x, i) < 0x100,
{
    reveal_with_fuel(grouscan::byte_of_wide, 9);
    let x1 = x as int / 0x100;
    let x2 = x1 / 0x100;
    let x3 = x2 / 0x100;
    let x4 = x3 / 0x100;
    let x5 = x4 / 0x100;
    let x6 = x5 / 0x100;
    let x7 = x6 / 0x100;
    assert(grouscan::byte_of_wide(x, 7) == x7 % 0x100);
    assert(grouscan::byte_of_wide(x, 6) == x6 % 0x100);
    assert(grouscan::byte_of_wide(x, 5) == x5 % 0x100);
    assert(grouscan::byte_of_wide(x, 4) == x4 % 0x100);
    assert(grouscan::byte_of_wide(x, 3) == x3 % 0x100);
    assert(grouscan::byte_of_wide(x, 2) == x2 % 0x100);
    assert(grouscan::byte_of_wide(x, 1) == x1 % 0x100);
}

/// Whether `left` is what is left of `whole` when up to `part` of it is
/// taken.
pub open spec fn left_of(whole: int, part: int, left: int) -> bool {
    &&& left >= 0
    &&& left + part == whole || (left == 0 && part >= whole)
}

/// The shade takes from each byte of the last colour and of the voxel
/// what its own bytes say. A channel of the pixel is then the product of
/// what is left of the channel and of the brightness, the voxel's bytes
/// above those of the last colour, in parts of `0x80_0000`, and at most
/// full.
pub proof fn lemma_shade_of_channel(
    vox: u32,
    tail: u32,
    csub: i64,
    i: int,
    low: int,
    high: int,
    low_light: int,
    high_light: int,
)
    requires
        0 <= i < 4,
        left_of(color::byte_of(tail, i), grouscan::byte_of_wide(csub, 2 * i), low),
        left_of(color::byte_of(vox, i), grouscan::byte_of_wide(csub, 2 * i + 1), high),
        left_of(color::byte_of(tail, 3), grouscan::byte_of_wide(csub, 6), low_light),
        left_of(color::byte_of(vox, 3), grouscan::byte_of_wide(csub, 7), high_light),
    ensures
        ({
            let product = (0x100 * high + low) * (0x100 * high_light + low_light);
            let c = color::byte_of(grouscan::shade(vox, tail, csub), i);
            &&& c * 0x80_0000 <= product
            &&& product < (c + 1) * 0x80_0000 || c == 0xff
        }),
{
    lemma_wide_bytes_are_digits(csub);
    let l0 = grouscan::shade_lane(vox, tail, csub, 0);
    let l1 = grouscan::shade_lane(vox, tail, csub, 1);
    let l2 = grouscan::shade_lane(vox, tail, csub, 2);
    let l3 = grouscan::shade_lane(vox, tail, csub, 3);
    vstd::arithmetic::mul::lemma_mul_nonnegative(l0, l3);
    vstd::arithmetic::mul::lemma_mul_nonnegative(l1, l3);
    vstd::arithmetic::mul::lemma_mul_nonnegative(l2, l3);
    vstd::arithmetic::mul::lemma_mul_nonnegative(l3, l3);
    color::lemma_bytes_of_packed(
        grouscan::shade_byte(vox, tail, csub, 0),
        grouscan::shade_byte(vox, tail, csub, 1),
        grouscan::shade_byte(vox, tail, csub, 2),
        grouscan::shade_byte(vox, tail, csub, 3),
    );
    assert(0x100 * high_light + low_light == l3);
    assert(0x100 * high + low == grouscan::shade_lane(vox, tail, csub, i));
}

/// The cross product that decides the pixel which is `k` steps along an
/// edge.
pub open spec fn cross_at(
    cx: i32,
    cy: i32,
    dx: int,
    dy: int,
    depth: i32,
    gy: i32,
    k: int,
) -> int {
    grouscan::cross(arith::wrap32(cx + k * dx), arith::wrap32(cy + k * dy), depth, gy)
}

/// Whether a fill along an edge draws `n` of `limit` pixels: it goes on
/// as long as the cross product is positive, an outward one as long as it
/// is not, and stops at the first that is otherwise.
pub open spec fn draws(
    cx: i32,
    cy: i32,
    dx: int,
    dy: int,
    depth: i32,
    gy: i32,
    outward: bool,
    limit: int,
    n: int,
) -> bool {
    &&& 0 <= n <= limit
    &&& forall|k: int|
        0 <= k < n ==> if outward {
            #[trigger] cross_at(cx, cy, dx, dy, depth, gy, k) <= 0
        } else {
            cross_at(cx, cy, dx, dy, depth, gy, k) > 0
        }
    &&& n < limit ==> if outward {
        cross_at(cx, cy, dx, dy, depth, gy, n) > 0
    } else {
        cross_at(cx, cy, dx, dy, depth, gy, n) <= 0
    }
}

/// A fill along an edge draws up to the first pixel that its cross
/// product rules out.
pub proof fn lemma_fill_stops_at_edge(
    cx: i32,
    cy: i32,
    dx: int,
    dy: int,
    depth: i32,
    gy: i32,
    outward: bool,
    limit: nat,
)
    ensures
        draws(
            cx,
            cy,
            dx,
            dy,
            depth,
            gy,
            outward,
            limit as int,
            fill::edge_len(cx, cy, dx, dy, depth, gy, outward, limit) as int,
        ),
    decreases limit,
{
    let n = fill::edge_len(cx, cy, dx, dy, depth, gy, outward, limit);
    assert(0 * dx == 0 && 0 * dy == 0) by (nonlinear_arith);
    assert(cross_at(cx, cy, dx, dy, depth, gy, 0) == grouscan::cross(cx, cy, depth, gy));
    if limit > 0 && !fill::stops(cx, cy, depth, gy, outward) {
        let (x, y) = (arith::wrap32(cx + dx), arith::wrap32(cy + dy));
        lemma_fill_stops_at_edge(x, y, dx, dy, depth, gy, outward, (limit - 1) as nat);
        assert forall|k: int| #[trigger] cross_at(cx, cy, dx, dy, depth, gy, k) == cross_at(
            x,
            y,
            dx,
            dy,
            depth,
            gy,
            k - 1,
        ) by {
            assert(k * dx == dx + (k - 1) * dx && k * dy == dy + (k - 1) * dy) by (nonlinear_arith);
            arith::lemma_wrap_twice(cx + dx, (k - 1) * dx);
            arith::lemma_wrap_twice(cy + dy, (k - 1) * dy);
        }
    }
}

/// Whether `tones` are the last colour before a fill and then the colours
/// of its pixels, each the voxel shaded after the one before it.
pub open spec fn tones_of(tones: Seq<u32>, vox: u32, tail: u32, csub: i64) -> bool {
    &&& tones.len() > 0
    &&& tones[0] == tail
    &&& forall|k: int|
        0 < k < tones.len() ==> #[trigger] tones[k] == grouscan::shade(vox, tones[k - 1], csub)
}

proof fn lemma_tones(vox: u32, tail: u32, csub: i64, n: nat) -> (tones: Seq<u32>)
    ensures
        tones.len() == n + 1,
        tones_of(tones, vox, tail, csub),
        forall|k: int|
            0 <= k <= n ==> #[trigger] tones[k] == fill::shade_times(vox, tail, csub, k as nat),
{
    Seq::new((n + 1) as nat, |k: int| fill::shade_times(vox, tail, csub, k as nat))
}

/// A ceiling fill draws from the left end of its segment on, up to the
/// first pixel that the ceiling's height rules out or to the end of the
/// segment. The pixels have the depth of the last step and the colour
/// before the slab's header, shaded by the ceiling's entry of the table,
/// each after the one before it. The segment starts after the last
/// pixel, with the edge there.
pub proof fn lemma_ceiling_fill(r: Ray) -> (tones: Seq<u32>)
    requires
        r.cf.len() == 256,
        fill::segment_ok(r),
        0 <= r.z0 < r.gylookup.len(),
        4 <= r.vptr_offset <= r.column.len(),
    ensures
        ({
            let f = fill::draw_ceil(r).0;
            let start = r.cf[r.c_idx].i0;
            let room = if start <= r.cf[r.c_idx].i1 {
                r.cf[r.c_idx].i1 - start + 1
            } else {
                1
            };
            let n = f.cf[r.c_idx].i0 - start;
            &&& draws(
                r.cx0,
                r.cy0,
                r.gi0 as int,
                r.gi1 as int,
                r.ogx,
                r.gylookup[r.z0 as int],
                true,
                room,
                n,
            )
            &&& tones.len() == n + 1
            &&& tones_of(tones, slab::word_at(r.column, r.vptr_offset - 4), r.mm5_tail, r.gcsub[2])
            &&& f.mm5_tail == tones[n]
            &&& n > 0 ==> f.color == tones[n]
            &&& forall|p: int|
                start <= p < start + n && 0 <= p < r.radar.len() ==> #[trigger] f.radar[p]
                    == (CastDat { col: tones[p - start + 1] as i32, dist: r.ogx })
            &&& f.cx0 == arith::wrap32(r.cx0 + n * r.gi0)
            &&& f.cy0 == arith::wrap32(r.cy0 + n * r.gi1)
            &&& f.cf[r.c_idx].cx0 == f.cx0
            &&& f.cf[r.c_idx].cy0 == f.cy0
            &&& f.cf[r.c_idx].i1 == r.cf[r.c_idx].i1
            &&& fill::draw_ceil(r).1 == if n == room {
                Phase::DeleteZ
            } else {
                Phase::DrawFlor
            }
        }),
{
    let s = Ray { gy_raw: r.gylookup[r.z0 as int], ..r };
    let vox = slab::word_at(r.column, r.vptr_offset - 4);
    let n = fill::ceil_len(s);
    lemma_fill_stops_at_edge(
        s.cx0,
        s.cy0,
        s.gi0 as int,
        s.gi1 as int,
        s.ogx,
        s.gy_raw,
        true,
        fill::room(fill::current(s).i0 as int, fill::current(s).i1 as int),
    );
    let tones = lemma_tones(vox, r.mm5_tail, r.gcsub[2], n);
    let m = fill::ceil_after(s, vox, n);
    assert(m.cf[r.c_idx].i0 == r.cf[r.c_idx].i0 + n);
    let f = fill::draw_ceil(r).0;
    assert(f.cf[r.c_idx].i0 == r.cf[r.c_idx].i0 + n);
    assert(f.mm5_tail == fill::shade_times(vox, r.mm5_tail, r.gcsub[2], n));
    tones
}

/// A floor fill draws from the right end of its segment back, up to the
/// first pixel that the floor's height rules out or to the start of the
/// segment. The pixels have the depth of the last step and the colour
/// after the slab's header, shaded by the floor's entry of the table,
/// each after the one before it. The segment ends before the last pixel,
/// with the edge there.
pub proof fn lemma_floor_fill(r: Ray) -> (tones: Seq<u32>)
    requires
        r.cf.len() == 256,
        fill::segment_ok(r),
        !fill::airy_bedrock(r),
        0 <= r.z1 < r.gylookup.len(),
        r.vptr_offset + 8 <= r.column.len(),
    ensures
        ({
            let f = fill::draw_flor(r).0;
            let end = r.cf[r.c_idx].i1;
            let room = if r.cf[r.c_idx].i0 <= end {
                end - r.cf[r.c_idx].i0 + 1
            } else {
                1
            };
            let n = end - f.cf[r.c_idx].i1;
            &&& draws(
                r.cx1,
                r.cy1,
                -r.gi0,
                -r.gi1,
                r.ogx,
                r.gylookup[r.z1 as int],
                false,
                room,
                n,
            )
            &&& tones.len() == n + 1
            &&& tones_of(tones, slab::word_at(r.column, r.vptr_offset + 4), r.mm5_tail, r.gcsub[3])
            &&& f.mm5_tail == tones[n]
            &&& n > 0 ==> f.color == tones[n]
            &&& forall|p: int|
                end - n < p <= end && 0 <= p < r.radar.len() ==> #[trigger] f.radar[p] == (
                CastDat { col: tones[end - p + 1] as i32, dist: r.ogx })
            &&& f.cx1 == arith::wrap32(r.cx1 - n * r.gi0)
            &&& f.cy1 == arith::wrap32(r.cy1 - n * r.gi1)
            &&& f.cf[r.c_idx].cx1 == f.cx1
            &&& f.cf[r.c_idx].cy1 == f.cy1
            &&& f.cf[r.c_idx].i0 == r.cf[r.c_idx].i0
            &&& fill::draw_flor(r).1 == if n == room {
                Phase::DeleteZ
            } else {
                Phase::AfterDelete
            }
        }),
{
    let s = Ray { gy_raw: r.gylookup[r.z1 as int], ..r };
    let vox = slab::word_at(r.column, r.vptr_offset + 4);
    let n = fill::flor_len(s);
    lemma_fill_stops_at_edge(
        s.cx1,
        s.cy1,
        -s.gi0 as int,
        -s.gi1 as int,
        s.ogx,
        s.gy_raw,
        false,
        fill::room(fill::current(s).i0 as int, fill::current(s).i1 as int),
    );
    let tones = lemma_tones(vox, r.mm5_tail, r.gcsub[3], n);
    let m = fill::flor_after(s, vox, n);
    assert(m.cf[r.c_idx].i1 == r.cf[r.c_idx].i1 - n);
    let f = fill::draw_flor(r).0;
    assert(f.cf[r.c_idx].i1 == r.cf[r.c_idx].i1 - n);
    assert(f.mm5_tail == fill::shade_times(vox, r.mm5_tail, r.gcsub[3], n));
    tones
}

/// The colour word at `at`, shaded by the wall's entry of the table after
/// the colour `tail`.
#[verifier::opaque]
pub open spec fn wall_tone(r: Ray, at: int, tail: u32) -> i32 {
    grouscan::shade(slab::word_at(r.column, at), tail, r.gcsub[r.wall_lane]) as i32
}

/// Whether slot `p` shows row `z` of the wall below: the right edge, as
/// it passes the slot, sees the row's height, and the slot has the row's
/// colour from the words after the slab's header, shaded after some last
/// colour.
pub open spec fn shows_floor_row(r: Ray, slot: CastDat, p: int, z: int, tail: u32) -> bool {
    let at = r.vptr_offset + 4 + (z - walls::floor_top(r)) * 4;
    &&& walls::floor_top(r) <= z < r.z1
    &&& 0 <= z < r.gylookup.len()
    &&& at + 4 <= r.column.len()
    &&& cross_at(r.cx1, r.cy1, -r.gi0, -r.gi1, r.ogx, r.gylookup[z], r.ebx - p) > 0
    &&& slot == (CastDat { col: wall_tone(r, at, tail), dist: r.ogx })
}

proof fn lemma_moved(cx: i32, d: int, k: int, j: int)
    ensures
        arith::wrap32(arith::wrap32(cx + k * d) + j * d) == arith::wrap32(cx + (k + j) * d),
{
    assert((k + j) * d == k * d + j * d) by (nonlinear_arith);
    arith::lemma_wrap_twice(cx + k * d, j * d);
}

/// Whether `d` is `r` some slots on: the edges moved with the slot, and
/// the ground is the same.
spec fn is_on_right(r: Ray, d: Ray) -> bool {
    &&& d.cx1 == arith::wrap32(r.cx1 + (r.ebx - d.ebx) * -r.gi0)
    &&& d.cy1 == arith::wrap32(r.cy1 + (r.ebx - d.ebx) * -r.gi1)
    &&& d.ebx <= r.ebx
    &&& d.z1 <= r.z1
    &&& same_ground(r, d)
}

spec fn same_ground(r: Ray, d: Ray) -> bool {
    &&& d.gi0 == r.gi0
    &&& d.gi1 == r.gi1
    &&& d.ogx == r.ogx
    &&& d.gylookup == r.gylookup
    &&& d.column == r.column
    &&& d.vptr_offset == r.vptr_offset
    &&& d.gcsub == r.gcsub
    &&& d.wall_lane == r.wall_lane
    &&& d.chunk_world_z_base == r.chunk_world_z_base
    &&& d.gmipcnt == r.gmipcnt
    &&& d.radar.len() == r.radar.len()
    &&& d.cf == r.cf
    &&& d.c_idx == r.c_idx
}

proof fn lemma_one_floor_row(r: Ray)
    requires
        r.z1 > walls::floor_top(r),
        walls::fwall_row(r).1,
    ensures
        ({
            let c = walls::fwall_row(r).0;
            let d = walls::right_after(c, walls::right_len(c));
            &&& is_on_right(r, d)
            &&& d.z1 == r.z1 - 1
            &&& forall|p: int|
                d.ebx < p <= r.ebx && 0 <= p < r.radar.len() ==> shows_floor_row(
                    r,
                    #[trigger] d.radar[p],
                    p,
                    r.z1 - 1,
                    r.mm5_tail,
                )
            &&& forall|p: int|
                r.ebx < p < r.radar.len() && 0 <= p ==> #[trigger] d.radar[p] == r.radar[p]
        }),
{
    let c = walls::fwall_row(r).0;
    let n = walls::right_len(c);
    let d = walls::right_after(c, n);
    let (gx, gy) = (-r.gi0, -r.gi1);
    lemma_fill_stops_at_edge(
        c.cx1,
        c.cy1,
        -c.gi0 as int,
        -c.gi1 as int,
        c.ogx,
        c.gy_raw,
        false,
        walls::right_room(c),
    );
    assert(n * gx == -(n * r.gi0) && n * gy == -(n * r.gi1)) by (nonlinear_arith)
        requires
            gx == -r.gi0,
            gy == -r.gi1,
    ;
    let at = r.vptr_offset + (r.z1 - walls::floor_top(r)) * 4;
    assert(c.color as i32 == wall_tone(r, at, r.mm5_tail)) by {
        reveal(wall_tone);
    }
    assert forall|p: int| d.ebx < p <= r.ebx && 0 <= p < r.radar.len() implies shows_floor_row(
        r,
        #[trigger] d.radar[p],
        p,
        r.z1 - 1,
        r.mm5_tail,
    ) by {
        assert(cross_at(r.cx1, r.cy1, gx, gy, r.ogx, c.gy_raw, r.ebx - p) > 0);
    }
}

proof fn lemma_floor_row_seen_before(
    r: Ray,
    d: Ray,
    slot: CastDat,
    p: int,
    z: int,
    tail: u32,
)
    requires
        is_on_right(r, d),
        shows_floor_row(d, slot, p, z, tail),
    ensures
        shows_floor_row(r, slot, p, z, tail),
{
    reveal(wall_tone);
    lemma_moved(r.cx1, -r.gi0, r.ebx - d.ebx, d.ebx - p);
    lemma_moved(r.cy1, -r.gi1, r.ebx - d.ebx, d.ebx - p);
}

/// Whether slot `p` shows some row of the wall below.
pub open spec fn shows_floor_wall(r: Ray, slot: CastDat, p: int) -> bool {
    exists|z: int, tail: u32| shows_floor_row(r, slot, p, z, tail)
}

/// Every slot that the wall below takes shows one of its rows, and the
/// edge stands at the slot that comes next.
pub proof fn lemma_floor_rows(r: Ray)
    ensures
        ({
            let f = walls::fwall_rows(r).0;
            &&& f.radar.len() == r.radar.len()
            &&& f.ebx <= r.ebx
            &&& f.cx1 == arith::wrap32(r.cx1 + (r.ebx - f.ebx) * -r.gi0)
            &&& f.cy1 == arith::wrap32(r.cy1 + (r.ebx - f.ebx) * -r.gi1)
            &&& forall|p: int|
                f.ebx < p <= r.ebx && 0 <= p < r.radar.len() ==> shows_floor_wall(
                    r,
                    #[trigger] f.radar[p],
                    p,
                )
            &&& forall|p: int|
                r.ebx < p < r.radar.len() && 0 <= p ==> #[trigger] f.radar[p] == r.radar[p]
        }),
    decreases arith::max_int(r.z1 - walls::floor_top(r), 0),
{
    let (c, ready) = walls::fwall_row(r);
    let f = walls::fwall_rows(r).0;
    assert(0 * -r.gi0 == 0 && 0 * -r.gi1 == 0) by (nonlinear_arith);
    if r.z1 > walls::floor_top(r) && ready {
        let n = walls::right_len(c);
        let d = walls::right_after(c, n);
        lemma_one_floor_row(r);
        if n != walls::right_room(c) && d.z1 != walls::floor_top(r) {
            assert(walls::floor_top(d) == walls::floor_top(r));
            lemma_floor_rows(d);
            lemma_moved(r.cx1, -r.gi0, r.ebx - d.ebx, d.ebx - f.ebx);
            lemma_moved(r.cy1, -r.gi1, r.ebx - d.ebx, d.ebx - f.ebx);
            assert(f == walls::fwall_rows(d).0);
        } else {
            assert(f.radar == d.radar);
        }
        assert forall|p: int| f.ebx < p <= r.ebx && 0 <= p < r.radar.len() implies shows_floor_wall(
            r,
            #[trigger] f.radar[p],
            p,
        ) by {
            if p > d.ebx {
                assert(f.radar[p] == d.radar[p]);
                assert(shows_floor_row(r, d.radar[p], p, r.z1 - 1, r.mm5_tail));
            } else {
                assert(shows_floor_wall(d, f.radar[p], p));
                let (z, tail): (int, u32) = choose|z: int, tail: u32|
                    shows_floor_row(d, f.radar[p], p, z, tail);
                lemma_floor_row_seen_before(r, d, f.radar[p], p, z, tail);
            }
        }
    }
}

/// Whether slot `p` shows row `z` of the wall above: the left edge, as it
/// passes the slot, sees the height under the row, and the slot has the
/// row's colour from the words before the slab's header, shaded after
/// some last colour.
pub open spec fn shows_ceiling_row(r: Ray, slot: CastDat, p: int, z: int, tail: u32) -> bool {
    let at = r.vptr_offset - (walls::ceiling_z(r) - z) * 4;
    &&& r.z0 <= z < walls::ceiling_z(r)
    &&& 0 <= z + 1 < r.gylookup.len()
    &&& 0 <= at
    &&& cross_at(
        r.cx0,
        r.cy0,
        r.gi0 as int,
        r.gi1 as int,
        r.ogx,
        r.gylookup[z + 1],
        p - r.ebx,
    ) <= 0
    &&& slot == (CastDat { col: wall_tone(r, at, tail), dist: r.ogx })
}

/// Whether `d` is `r` some slots on, from the left.
spec fn is_on_left(r: Ray, d: Ray) -> bool {
    &&& d.cx0 == arith::wrap32(r.cx0 + (d.ebx - r.ebx) * r.gi0)
    &&& d.cy0 == arith::wrap32(r.cy0 + (d.ebx - r.ebx) * r.gi1)
    &&& r.ebx <= d.ebx
    &&& r.z0 <= d.z0
    &&& same_ground(r, d)
}

proof fn lemma_one_ceiling_row(r: Ray)
    requires
        r.z0 < walls::ceiling_z(r) <= i32::MAX,
        walls::cwall_row(r).1,
    ensures
        ({
            let c = walls::cwall_row(r).0;
            let d = walls::left_after(c, walls::left_len(c));
            &&& is_on_left(r, d)
            &&& d.z0 == r.z0 + 1
            &&& forall|p: int|
                r.ebx <= p < d.ebx && 0 <= p < r.radar.len() ==> shows_ceiling_row(
                    r,
                    #[trigger] d.radar[p],
                    p,
                    r.z0 as int,
                    r.mm5_tail,
                )
            &&& forall|p: int|
                0 <= p < r.ebx && p < r.radar.len() ==> #[trigger] d.radar[p] == r.radar[p]
        }),
{
    let c = walls::cwall_row(r).0;
    let n = walls::left_len(c);
    let d = walls::left_after(c, n);
    let (gx, gy) = (r.gi0 as int, r.gi1 as int);
    lemma_fill_stops_at_edge(c.cx0, c.cy0, gx, gy, c.ogx, c.gy_raw, true, walls::left_room(c));
    let at = r.vptr_offset + (r.z0 - walls::ceiling_z(r)) * 4;
    assert(c.color as i32 == wall_tone(r, at, r.mm5_tail)) by {
        reveal(wall_tone);
    }
    assert forall|p: int| r.ebx <= p < d.ebx && 0 <= p < r.radar.len() implies shows_ceiling_row(
        r,
        #[trigger] d.radar[p],
        p,
        r.z0 as int,
        r.mm5_tail,
    ) by {
        assert(cross_at(r.cx0, r.cy0, gx, gy, r.ogx, c.gy_raw, p - r.ebx) <= 0);
    }
}

proof fn lemma_ceiling_row_seen_before(
    r: Ray,
    d: Ray,
    slot: CastDat,
    p: int,
    z: int,
    tail: u32,
)
    requires
        is_on_left(r, d),
        shows_ceiling_row(d, slot, p, z, tail),
    ensures
        shows_ceiling_row(r, slot, p, z, tail),
{
    reveal(wall_tone);
    lemma_moved(r.cx0, r.gi0 as int, d.ebx - r.ebx, p - d.ebx);
    lemma_moved(r.cy0, r.gi1 as int, d.ebx - r.ebx, p - d.ebx);
}

/// Whether slot `p` shows some row of the wall above.
pub open spec fn shows_ceiling_wall(r: Ray, slot: CastDat, p: int) -> bool {
    exists|z: int, tail: u32| shows_ceiling_row(r, slot, p, z, tail)
}

/// Every slot that the wall above takes shows one of its rows, and the
/// edge stands at the slot that comes next.
pub proof fn lemma_ceiling_rows(r: Ray)
    ensures
        ({
            let f = walls::cwall_rows(r).0;
            &&& f.radar.len() == r.radar.len()
            &&& r.ebx <= f.ebx
            &&& f.cx0 == arith::wrap32(r.cx0 + (f.ebx - r.ebx) * r.gi0)
            &&& f.cy0 == arith::wrap32(r.cy0 + (f.ebx - r.ebx) * r.gi1)
            &&& forall|p: int|
                r.ebx <= p < f.ebx && 0 <= p < r.radar.len() ==> shows_ceiling_wall(
                    r,
                    #[trigger] f.radar[p],
                    p,
                )
            &&& forall|p: int|
                0 <= p < r.ebx && p < r.radar.len() ==> #[trigger] f.radar[p] == r.radar[p]
        }),
    decreases arith::max_int(walls::ceiling_z(r) - r.z0, 0),
{
    let (c, ready) = walls::cwall_row(r);
    let f = walls::cwall_rows(r).0;
    assert(0 * r.gi0 == 0 && 0 * r.gi1 == 0) by (nonlinear_arith);
    if r.z0 < walls::ceiling_z(r) <= i32::MAX && ready {
        let n = walls::left_len(c);
        let d = walls::left_after(c, n);
        lemma_one_ceiling_row(r);
        if n != walls::left_room(c) && d.z0 != walls::ceiling_z(r) {
            assert(walls::ceiling_z(d) == walls::ceiling_z(r));
            lemma_ceiling_rows(d);
            lemma_moved(r.cx0, r.gi0 as int, d.ebx - r.ebx, f.ebx - d.ebx);
            lemma_moved(r.cy0, r.gi1 as int, d.ebx - r.ebx, f.ebx - d.ebx);
            assert(f == walls::cwall_rows(d).0);
        } else {
            assert(f.radar == d.radar);
        }
        assert forall|p: int| r.ebx <= p < f.ebx && 0 <= p < r.radar.len() implies
            shows_ceiling_wall(r, #[trigger] f.radar[p], p) by {
            if p < d.ebx {
                assert(f.radar[p] == d.radar[p]);
                assert(shows_ceiling_row(r, d.radar[p], p, r.z0 as int, r.mm5_tail));
            } else {
                assert(shows_ceiling_wall(d, f.radar[p], p));
                let (z, tail): (int, u32) = choose|z: int, tail: u32|
                    shows_ceiling_row(d, f.radar[p], p, z, tail);
                lemma_ceiling_row_seen_before(r, d, f.radar[p], p, z, tail);
            }
        }
    }
}

/// Without a colour for the ceiling, or a place for it on the screen
/// table, nothing is drawn and the segment is done with; the same of the
/// floor.
pub proof fn lemma_fill_without_colour(r: Ray)
    requires
        !fill::airy_bedrock(r),
    ensures
        ({
            let (f, phase) = fill::draw_ceil(r);
            r.z0 < 0 || r.z0 >= r.gylookup.len() || r.vptr_offset < 4 || r.vptr_offset
                > r.column.len() ==> phase == Phase::AfterDelete && f == (Ray {
                gy_raw: f.gy_raw,
                ..r
            })
        }),
        ({
            let (f, phase) = fill::draw_flor(r);
            r.z1 < 0 || r.z1 >= r.gylookup.len() || r.vptr_offset + 8 > r.column.len() ==> phase
                == Phase::AfterDelete && f == (Ray { gy_raw: f.gy_raw, ..r })
        }),
{
}

} // verus!
