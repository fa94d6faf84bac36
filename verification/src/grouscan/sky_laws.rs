//! Laws of the sky at the end of a scan: what an open slot shows of a
//! texture, and how its column is found.
use crate::arith;
use crate::grouscan;
use crate::grouscan::skyfill;
use crate::grouscan::{CfType, Ray, SkyRef, CF_SEED_INDEX};
use crate::rasterizer::CastDat;
use vstd::prelude::*;

verus! {

/// A cross product takes the high halves of the vector and of the depth,
/// and the low half of the screen position, as signed numbers; what is in
/// the other halves does not count.
pub proof fn lemma_cross_of_halves(
    x: int,
    y: int,
    depth: int,
    position: int,
    rest_x: int,
    rest_y: int,
    rest_depth: int,
    rest_position: int,
)
    requires
        -0x8000 <= x < 0x8000,
        -0x8000 <= y < 0x8000,
        -0x8000 <= depth < 0x8000,
        -0x8000 <= position < 0x8000,
        0 <= rest_x < 0x1_0000,
        0 <= rest_y < 0x1_0000,
        0 <= rest_depth < 0x1_0000,
        -0x7fff <= rest_position < 0x7fff,
    ensures
        grouscan::cross(
            (x * 0x1_0000 + rest_x) as i32,
            (y * 0x1_0000 + rest_y) as i32,
            (depth * 0x1_0000 + rest_depth) as i32,
            (rest_position * 0x1_0000 + position) as i32,
        ) == x * position + y * depth,
{
    let cx = (x * 0x1_0000 + rest_x) as i32;
    let cy = (y * 0x1_0000 + rest_y) as i32;
    let d = (depth * 0x1_0000 + rest_depth) as i32;
    let g = (rest_position * 0x1_0000 + position) as i32;
    assert(arith::high16(cx) == x);
    assert(arith::high16(cy) == y);
    assert(arith::high16(d) == depth);
    assert(arith::low16(g as int) == position);
}

/// Whether `c` is where a search for the view vector `(sx, sy)` ends that
/// goes down from column `from`: the first column that the vector is not
/// before, or column 0 where there is none.
pub open spec fn is_found(lat: Seq<i32>, from: int, c: int, sx: i32, sy: i32) -> bool {
    if 0 <= from < lat.len() {
        &&& 0 <= c <= from
        &&& forall|j: int|
            c < j <= from ==> grouscan::cross(sx, sy, #[trigger] lat[j], lat[j]) < 0
        &&& grouscan::cross(sx, sy, lat[c], lat[c]) >= 0 || c == 0
    } else {
        c == 0
    }
}

/// The latitude search ends where it should.
pub proof fn lemma_search_finds(lat: Seq<i32>, from: int, sx: i32, sy: i32)
    ensures
        is_found(lat, from, skyfill::sky_column(lat, from, sx, sy), sx, sy),
    decreases arith::max_int(from + 1, 0),
{
    if 0 <= from < lat.len() && grouscan::cross(sx, sy, lat[from], lat[from]) < 0 {
        lemma_search_finds(lat, from - 1, sx, sy);
        let c = skyfill::sky_column(lat, from - 1, sx, sy);
        assert forall|j: int| c < j <= from implies grouscan::cross(
            sx,
            sy,
            #[trigger] lat[j],
            lat[j],
        ) < 0 by {
            if j < from {
                assert(0 <= from - 1 < lat.len());
            }
        }
    }
}

/// The view vector of slot `p` of a segment, along one axis: one step of
/// `gi` for each slot from the left edge of the segment, less one.
pub open spec fn view_of(c0: i32, gi: i32, i0: isize, p: int) -> i32 {
    arith::wrap32(c0 + (p - i0 - 1) * gi)
}

/// What a slot shows of a texture that the search found column `c` of: the
/// texel that lies so many columns after the row's offset in bytes, where
/// the texture has it; elsewhere the plain sky.
pub open spec fn shows(r: Ray, sky: SkyRef, d: CastDat, c: int) -> bool {
    &&& d.dist == r.skycast.dist
    &&& r.sky_off >= 0 && r.sky_off as int / 4 + c < sky.pixels@.len() ==> d.col
        == sky.pixels@[r.sky_off as int / 4 + c]
    &&& r.sky_off < 0 || r.sky_off as int / 4 + c >= sky.pixels@.len() ==> d.col == r.skycast.col
}

/// The column that a slot shows, and where its search began.
pub open spec fn seen_from(r: Ray, sky: SkyRef, e: CfType, p: int, from: int, c: int) -> bool {
    is_found(
        sky.lat@,
        from,
        c,
        view_of(e.cx0, r.gi0, e.i0, p),
        view_of(e.cy0, r.gi1, e.i0, p),
    )
}

/// The slots of one segment, right to left: each shows the column that is
/// found for it from the column of the slot before it.
proof fn lemma_segment_shows(
    r: Ray,
    sky: SkyRef,
    radar: Seq<CastDat>,
    e: CfType,
    first: int,
    p: int,
) -> (found: (int, int))
    requires
        e.i0 <= p <= e.i1,
        e.i1 - e.i0 <= i32::MAX,
        0 <= p < radar.len(),
    ensures
        seen_from(r, sky, e, p, found.0, found.1),
        p == e.i1 ==> found.0 == first,
        found.1 == skyfill::slot_column(r, sky.lat@, e, first, (e.i1 - p + 1) as nat),
        found.0 == skyfill::slot_column(r, sky.lat@, e, first, (e.i1 - p) as nat),
        shows(
            r,
            sky,
            skyfill::textured_slots(r, sky, radar, e, first, skyfill::slots(e))[p],
            found.1,
        ),
{
    let k = (e.i1 - p + 1) as nat;
    let from = skyfill::slot_column(r, sky.lat@, e, first, (k - 1) as nat);
    let c = skyfill::slot_column(r, sky.lat@, e, first, k);
    let n = e.i1 - e.i0;
    assert(n as isize as i32 as int == n);
    assert(n * r.gi0 - k * r.gi0 == (p - e.i0 - 1) * r.gi0) by (nonlinear_arith)
        requires
            n == e.i1 - e.i0,
            k == e.i1 - p + 1,
    ;
    assert(n * r.gi1 - k * r.gi1 == (p - e.i0 - 1) * r.gi1) by (nonlinear_arith)
        requires
            n == e.i1 - e.i0,
            k == e.i1 - p + 1,
    ;
    let (sx, sy) = (view_of(e.cx0, r.gi0, e.i0, p), view_of(e.cy0, r.gi1, e.i0, p));
    assert(skyfill::far_x(r, e) - k * r.gi0 == e.cx0 + (p - e.i0 - 1) * r.gi0);
    assert(skyfill::far_y(r, e) - k * r.gi1 == e.cy0 + (p - e.i0 - 1) * r.gi1);
    lemma_search_finds(sky.lat@, from, sx, sy);
    assert(c == skyfill::sky_column(sky.lat@, from, sx, sy));
    (from, c)
}

/// A slot that no later segment holds keeps what it shows.
proof fn lemma_later_segments(
    r: Ray,
    sky: SkyRef,
    radar: Seq<CastDat>,
    first: int,
    q: int,
    p: int,
)
    requires
        0 <= q,
        0 <= p < radar.len(),
        forall|i: int| q <= i <= r.ce_idx ==> !(r.cf[i].i0 <= p <= (#[trigger] r.cf[i]).i1),
    ensures
        skyfill::textured_sky(r, sky, radar, first, q)[p] == radar[p],
    decreases r.ce_idx + 1 - q,
{
    if q <= r.ce_idx {
        let e = r.cf[q];
        let next = skyfill::textured_slots(r, sky, radar, e, first, skyfill::slots(e));
        assert(!(r.cf[q].i0 <= p <= r.cf[q].i1));
        assert(next[p] == radar[p]);
        lemma_later_segments(
            r,
            sky,
            next,
            skyfill::slot_column(r, sky.lat@, e, first, skyfill::slots(e)),
            q + 1,
            p,
        );
    }
}

proof fn lemma_texture_shows(
    r: Ray,
    sky: SkyRef,
    radar: Seq<CastDat>,
    first: int,
    at: int,
    q: int,
    p: int,
) -> (found: (int, int))
    requires
        0 <= at <= q <= r.ce_idx,
        0 <= p < radar.len(),
        r.cf[q].i0 <= p <= r.cf[q].i1,
        r.cf[q].i1 - r.cf[q].i0 <= i32::MAX,
        forall|i: int| q < i <= r.ce_idx ==> !(r.cf[i].i0 <= p <= (#[trigger] r.cf[i]).i1),
    ensures
        seen_from(r, sky, r.cf[q], p, found.0, found.1),
        at == q && p == r.cf[q].i1 ==> found.0 == first,
        shows(r, sky, skyfill::textured_sky(r, sky, radar, first, at)[p], found.1),
    decreases q - at,
{
    let e = r.cf[at];
    let next = skyfill::textured_slots(r, sky, radar, e, first, skyfill::slots(e));
    let last = skyfill::slot_column(r, sky.lat@, e, first, skyfill::slots(e));
    if at == q {
        let found = lemma_segment_shows(r, sky, radar, e, first, p);
        lemma_later_segments(r, sky, next, last, at + 1, p);
        found
    } else {
        lemma_texture_shows(r, sky, next, last, at + 1, q, p)
    }
}

/// After a scan that ends in the sky with a texture and a row offset, every
/// slot that was open shows the texel of its row at the column that the
/// latitude search finds for its view vector, wherever that texel is in
/// the texture; only outside it does the slot show the plain colour. The
/// search of the rightmost slot of the seed segment begins at the texture's
/// last column. Of several segments that hold the slot the topmost counts.
pub proof fn lemma_open_slot_shows_its_texel(r: Ray, q: int, p: int) -> (found: (int, int))
    requires
        r.sky is Some,
        r.sky_off != 0,
        CF_SEED_INDEX <= q <= r.ce_idx,
        0 <= p < r.radar.len(),
        r.cf[q].i0 <= p <= r.cf[q].i1,
        r.cf[q].i1 - r.cf[q].i0 <= i32::MAX,
        forall|i: int| q < i <= r.ce_idx ==> !(r.cf[i].i0 <= p <= (#[trigger] r.cf[i]).i1),
    ensures
        seen_from(r, r.sky->0, r.cf[q], p, found.0, found.1),
        q == CF_SEED_INDEX && p == r.cf[q].i1 ==> found.0 == r.sky->0.xsiz_post,
        shows(r, r.sky->0, skyfill::start_sky(r).radar[p], found.1),
{
    let sky = r.sky->0;
    lemma_texture_shows(
        r,
        sky,
        r.radar,
        sky.xsiz_post as int,
        CF_SEED_INDEX as int,
        q,
        p,
    )
}

/// In one segment the search goes on from slot to slot: the slot to the
/// left of another begins where that one ended.
pub proof fn lemma_search_goes_on(r: Ray, sky: SkyRef, e: CfType, first: int, p: int)
    requires
        e.i0 <= p < e.i1,
        e.i1 - e.i0 <= i32::MAX,
    ensures
        seen_from(
            r,
            sky,
            e,
            p,
            skyfill::slot_column(r, sky.lat@, e, first, (e.i1 - p) as nat),
            skyfill::slot_column(r, sky.lat@, e, first, (e.i1 - p + 1) as nat),
        ),
        skyfill::slot_column(r, sky.lat@, e, first, 0) == first,
{
    let radar = Seq::new(
        (arith::max_int(p, 0) + 1) as nat,
        |i: int| CastDat { col: 0, dist: 0 },
    );
    if p >= 0 {
        let found = lemma_segment_shows(r, sky, radar, e, first, p);
    } else {
        let k = (e.i1 - p + 1) as nat;
        let n = e.i1 - e.i0;
        assert(n as isize as i32 as int == n);
        assert(n * r.gi0 - k * r.gi0 == (p - e.i0 - 1) * r.gi0) by (nonlinear_arith)
            requires
                n == e.i1 - e.i0,
                k == e.i1 - p + 1,
        ;
        assert(n * r.gi1 - k * r.gi1 == (p - e.i0 - 1) * r.gi1) by (nonlinear_arith)
            requires
                n == e.i1 - e.i0,
                k == e.i1 - p + 1,
        ;
        lemma_search_finds(
            sky.lat@,
            skyfill::slot_column(r, sky.lat@, e, first, (k - 1) as nat),
            view_of(e.cx0, r.gi0, e.i0, p),
            view_of(e.cy0, r.gi1, e.i0, p),
        );
    }
}

/// Under a plain sky every open slot shows its colour and depth.
pub proof fn lemma_open_slot_shows_plain_sky(r: Ray, q: int, p: int)
    requires
        r.sky is None || r.sky_off == 0,
        CF_SEED_INDEX <= q <= r.ce_idx,
        0 <= p < r.radar.len(),
        r.cf[q].i0 <= p <= r.cf[q].i1,
    ensures
        skyfill::start_sky(r).radar[p] == r.skycast,
        skyfill::start_sky(r).radar.len() == r.radar.len(),
{
    assert(skyfill::slot_of(r, q, p));
    assert(skyfill::slot_open(r, p));
}

} // verus!
