//! End of a scan: the slots of the segments that are still open show the
//! sky.
use crate::arith;
use crate::grouscan;
use crate::grouscan::fill;
use crate::grouscan::{grouscan_cross_sign, CfType, GrouscanState, Phase, Ray, SkyRef, CF_SEED_INDEX};
use crate::rasterizer::CastDat;
use vstd::prelude::*;

verus! {

/// Whether slot `p` belongs to an open segment at stack position `q`.
pub open spec fn slot_of(r: Ray, q: int, p: int) -> bool {
    r.cf[q].i0 <= p <= r.cf[q].i1
}

/// Whether slot `p` belongs to an open segment.
pub open spec fn slot_open(r: Ray, p: int) -> bool {
    exists|q: int| CF_SEED_INDEX <= q <= r.ce_idx && #[trigger] slot_of(r, q, p)
}

/// The radar with the plain sky in all open slots.
pub open spec fn plain_sky(r: Ray) -> Seq<CastDat> {
    Seq::new(
        r.radar.len(),
        |p: int|
            if slot_open(r, p) {
                r.skycast
            } else {
                r.radar[p]
            },
    )
}

/// Column of the sky texture for view vector `(sx, sy)`, searched
/// downward from `column`.
pub open spec fn sky_column(lat: Seq<i32>, column: int, sx: i32, sy: i32) -> int
    decreases arith::max_int(column + 1, 0),
{
    if column < 0 || column >= lat.len() {
        0
    } else if grouscan::cross(sx, sy, lat[column], lat[column]) >= 0 {
        column
    } else {
        sky_column(lat, column - 1, sx, sy)
    }
}

/// Whether every cross product of the search is a machine integer.
pub open spec fn sky_column_ok(lat: Seq<i32>, column: int, sx: i32, sy: i32) -> bool
    decreases arith::max_int(column + 1, 0),
{
    0 <= column < lat.len() ==> {
        let c = grouscan::cross(sx, sy, lat[column], lat[column]);
        c <= i32::MAX && (c >= 0 || sky_column_ok(lat, column - 1, sx, sy))
    }
}

/// View vector at the right end of a segment, from its left edge.
pub open spec fn far_x(r: Ray, e: CfType) -> int {
    e.cx0 + ((e.i1 - e.i0) as isize as i32) * r.gi0
}

pub open spec fn far_y(r: Ray, e: CfType) -> int {
    e.cy0 + ((e.i1 - e.i0) as isize as i32) * r.gi1
}

/// Column of the sky texture for the `k`th slot from the right end of the
/// segment, searched on from the slot before it.
pub open spec fn slot_column(r: Ray, lat: Seq<i32>, e: CfType, first: int, k: nat) -> int
    decreases k,
{
    if k == 0 {
        first
    } else {
        sky_column(
            lat,
            slot_column(r, lat, e, first, (k - 1) as nat),
            arith::wrap32(far_x(r, e) - k * r.gi0),
            arith::wrap32(far_y(r, e) - k * r.gi1),
        )
    }
}

/// What a slot shows of the sky texture: plain sky where the texture ends.
pub open spec fn texel<'a>(r: Ray<'a>, sky: SkyRef<'a>, column: int) -> CastDat {
    let i = r.sky_off as int / 4 + column;
    CastDat {
        col: if r.sky_off >= 0 && i < sky.pixels@.len() {
            sky.pixels@[i]
        } else {
            r.skycast.col
        },
        dist: r.skycast.dist,
    }
}

/// The radar with the sky texture in the rightmost `k` slots of one
/// segment.
pub open spec fn textured_slots<'a>(
    r: Ray<'a>,
    sky: SkyRef<'a>,
    radar: Seq<CastDat>,
    e: CfType,
    first: int,
    k: nat,
) -> Seq<CastDat> {
    fill::paint(
        radar,
        e.i1 - k + 1,
        e.i1 + 1,
        |p: int| texel(r, sky, slot_column(r, sky.lat@, e, first, (e.i1 - p + 1) as nat)),
    )
}

/// Number of slots of a segment.
pub open spec fn slots(e: CfType) -> nat {
    if e.i0 <= e.i1 {
        (e.i1 - e.i0 + 1) as nat
    } else {
        0
    }
}

/// The radar with the sky texture in the open segments from stack
/// position `q` on; the search goes on from segment to segment.
pub open spec fn textured_sky<'a>(
    r: Ray<'a>,
    sky: SkyRef<'a>,
    radar: Seq<CastDat>,
    first: int,
    q: int,
) -> Seq<CastDat>
    decreases r.ce_idx + 1 - q,
{
    if q < 0 || q > r.ce_idx {
        radar
    } else {
        let e = r.cf[q];
        textured_sky(
            r,
            sky,
            textured_slots(r, sky, radar, e, first, slots(e)),
            slot_column(r, sky.lat@, e, first, slots(e)),
            q + 1,
        )
    }
}

/// Whether the searches of one segment stay inside machine integers.
pub open spec fn segment_sky_ok(r: Ray, lat: Seq<i32>, e: CfType, first: int) -> bool {
    &&& e.i0 <= e.i1 ==> e.i1 - e.i0 <= isize::MAX
    &&& forall|k: nat|
        k < slots(e) ==> sky_column_ok(
            lat,
            #[trigger] slot_column(r, lat, e, first, k),
            arith::wrap32(far_x(r, e) - (k + 1) * r.gi0),
            arith::wrap32(far_y(r, e) - (k + 1) * r.gi1),
        )
}

/// Whether the searches of all open segments do.
pub open spec fn textured_sky_ok(r: Ray, lat: Seq<i32>, first: int, q: int) -> bool
    decreases r.ce_idx + 1 - q,
{
    0 <= q <= r.ce_idx ==> {
        let e = r.cf[q];
        &&& segment_sky_ok(r, lat, e, first)
        &&& textured_sky_ok(r, lat, slot_column(r, lat, e, first, slots(e)), q + 1)
    }
}

/// The ray after the sky has been filled in.
pub open spec fn start_sky<'a>(r: Ray<'a>) -> Ray<'a> {
    if CF_SEED_INDEX > r.ce_idx {
        r
    } else {
        match r.sky {
            Some(sky) => if r.sky_off != 0 {
                Ray {
                    radar: textured_sky(
                        r,
                        sky,
                        r.radar,
                        sky.xsiz_post as int,
                        CF_SEED_INDEX as int,
                    ),
                    ..r
                }
            } else {
                Ray { radar: plain_sky(r), ..r }
            },
            None => Ray { radar: plain_sky(r), ..r },
        }
    }
}

/// Whether filling in the sky stays inside machine integers.
pub open spec fn start_sky_ok(r: Ray) -> bool {
    &&& r.ce_idx < 256
    &&& r.sky matches Some(sky) ==> r.sky_off != 0 && CF_SEED_INDEX <= r.ce_idx ==> textured_sky_ok(
        r,
        sky.lat@,
        sky.xsiz_post as int,
        CF_SEED_INDEX as int,
    )
}

/// Fills the open slots with the plain sky.
pub fn phase_startsky_solid(state: &mut GrouscanState<'_>) -> (r: Phase)
    requires
        old(state)@.ce_idx < 256,
    ensures
        final(state)@ == (Ray { radar: plain_sky(old(state)@), ..old(state)@ }),
        r == Phase::Done,
        *final(final(state).scratch) == *final(old(state).scratch),
{
    let ghost r0 = state@;
    let skycast: CastDat = state.scratch.skycast;
    let ce: usize = state.ce_idx;
    let n: usize = state.scratch.radar.len();
    let mut q: usize = CF_SEED_INDEX;
    while q <= ce
        invariant
            n == r0.radar.len(),
            r0.cf.len() == 256,
            ce == r0.ce_idx,
            ce < 256,
            CF_SEED_INDEX <= q,
            CF_SEED_INDEX <= ce ==> q <= ce + 1,
            CF_SEED_INDEX > ce ==> q == CF_SEED_INDEX,
            skycast == r0.skycast,
            state@.radar.len() == n,
            state@ == (Ray { radar: state@.radar, ..r0 }),
            forall|p: int|
                0 <= p < n ==> #[trigger] state@.radar[p] == if exists|i: int|
                    CF_SEED_INDEX <= i < q && #[trigger] slot_of(r0, i, p) {
                    skycast
                } else {
                    r0.radar[p]
                },
            *final(state.scratch) == *final(old(state).scratch),
        decreases ce + 1 - q,
    {
        let i0: isize = state.scratch.cf[q].i0;
        let i1: isize = state.scratch.cf[q].i1;
        let ghost before = state@.radar;
        if i1 >= 0 {
            let mut p: usize = if i0 < 0 {
                0
            } else {
                i0 as usize
            };
            let last: usize = i1 as usize;
            let ghost start = p;
            while p < n && p <= last
                invariant
                    n == r0.radar.len(),
                    r0.cf.len() == 256,
                    skycast == r0.skycast,
                    start <= p,
                    state@.radar.len() == n,
                    before.len() == n,
                    state@ == (Ray { radar: state@.radar, ..r0 }),
                    forall|j: int|
                        0 <= j < n ==> #[trigger] state@.radar[j] == if start <= j < p && j
                            <= last {
                            skycast
                        } else {
                            before[j]
                        },
                    *final(state.scratch) == *final(old(state).scratch),
                decreases n - p,
            {
                let ghost prev = state@;
                state.scratch.radar[p] = skycast;
                assert(state@.radar =~= prev.radar.update(p as int, skycast));
                assert(state@ =~= Ray { radar: state@.radar, ..r0 });
                p += 1;
            }
        }
        proof {
            assert forall|p: int| 0 <= p < n implies #[trigger] state@.radar[p] == if exists|
                i: int,
            |
                CF_SEED_INDEX <= i < q + 1 && #[trigger] slot_of(r0, i, p) {
                skycast
            } else {
                r0.radar[p]
            } by {
                assert(slot_of(r0, q as int, p) == (i0 <= p <= i1));
                if exists|i: int| CF_SEED_INDEX <= i < q && #[trigger] slot_of(r0, i, p) {
                    let i = choose|i: int|
                        CF_SEED_INDEX <= i < q && #[trigger] slot_of(r0, i, p);
                    assert(CF_SEED_INDEX <= i < q + 1 && slot_of(r0, i, p));
                }
            }
        }
        q += 1;
    }
    proof {
        assert forall|p: int| 0 <= p < n implies #[trigger] state@.radar[p] == plain_sky(
            r0,
        )[p] by {
            if slot_open(r0, p) {
                let i = choose|i: int|
                    CF_SEED_INDEX <= i <= r0.ce_idx && #[trigger] slot_of(r0, i, p);
                assert(CF_SEED_INDEX <= i < q && slot_of(r0, i, p));
            } else {
                assert(forall|i: int|
                    CF_SEED_INDEX <= i < q ==> !(#[trigger] slot_of(r0, i, p)));
            }
        }
        assert(state@.radar =~= plain_sky(r0));
        assert(state@ =~= Ray { radar: plain_sky(r0), ..r0 });
    }
    Phase::Done
}

/// Finds the column of the sky texture for a view vector.
fn find_sky_column(lat: &[i32], from: i32, sx: i32, sy: i32) -> (r: i32)
    requires
        sky_column_ok(lat@, from as int, sx, sy),
    ensures
        r == sky_column(lat@, from as int, sx, sy),
        r >= 0,
{
    let mut column: i32 = from;
    loop
        invariant
            sky_column_ok(lat@, column as int, sx, sy),
            sky_column(lat@, column as int, sx, sy) == sky_column(lat@, from as int, sx, sy),
            column >= -1 || column == from,
        decreases arith::max_int(column + 1, 0),
    {
        if column < 0 || column as usize >= lat.len() {
            return 0;
        }
        let sl: i32 = lat[column as usize];
        if grouscan_cross_sign(sx, sy, sl, sl) >= 0 {
            return column;
        }
        column = column - 1;
    }
}

/// Fills the slots of one segment from the sky texture. Returns the
/// column that the search ended at.
fn texture_segment<'a>(state: &mut GrouscanState<'a>, sky: SkyRef<'a>, q: usize, first: i32, r0: Ghost<
    Ray<'a>,
>) -> (last: i32)
    requires
        q < 256,
        r0@.cf.len() == 256,
        old(state)@ == (Ray { radar: old(state)@.radar, ..r0@ }),
        old(state)@.cf[q as int].i0 <= old(state)@.cf[q as int].i1,
        segment_sky_ok(r0@, sky.lat@, r0@.cf[q as int], first as int),
    ensures
        final(state)@ == (Ray {
            radar: textured_slots(
                r0@,
                sky,
                old(state)@.radar,
                r0@.cf[q as int],
                first as int,
                slots(r0@.cf[q as int]),
            ),
            ..r0@
        }),
        last == slot_column(
            r0@,
            sky.lat@,
            r0@.cf[q as int],
            first as int,
            slots(r0@.cf[q as int]),
        ),
        *final(final(state).scratch) == *final(old(state).scratch),
{
    let ghost r = r0@;
    let ghost radar0 = state@.radar;
    let e: CfType = state.scratch.cf[q];
    let gi0: i32 = state.scratch.gi0;
    let gi1: i32 = state.scratch.gi1;
    let span: i32 = (e.i1 - e.i0) as i32;
    let mut sx: i32 = e.cx0.wrapping_add(span.wrapping_mul(gi0));
    let mut sy: i32 = e.cy0.wrapping_add(span.wrapping_mul(gi1));
    proof {
        lemma_crop(span * gi0);
        lemma_crop(span * gi1);
        arith::lemma_wrapping(e.cx0, span.wrapping_mul(gi0));
        arith::lemma_wrapping(e.cy0, span.wrapping_mul(gi1));
        arith::lemma_wrap_twice(span * gi0, e.cx0 as int);
        arith::lemma_wrap_twice(span * gi1, e.cy0 as int);
        assert(0 * gi0 == 0 && 0 * gi1 == 0);
        let t = textured_slots(r, sky, radar0, e, first as int, 0);
        assert(state@.radar =~= t);
        assert(state@ =~= Ray { radar: t, ..r });
    }
    let mut column: i32 = first;
    let mut p: isize = e.i1;
    let ghost mut k: nat = 0;
    loop
        invariant_except_break
            e.i0 <= p <= e.i1,
            p == e.i1 - k,
            k < slots(e),
            sx == arith::wrap32(far_x(r, e) - k * r.gi0),
            sy == arith::wrap32(far_y(r, e) - k * r.gi1),
            column == slot_column(r, sky.lat@, e, first as int, k),
            state@ == (Ray { radar: textured_slots(r, sky, radar0, e, first as int, k), ..r }),
        invariant
            q < 256,
            e == r.cf[q as int],
            gi0 == r.gi0,
            gi1 == r.gi1,
            segment_sky_ok(r, sky.lat@, e, first as int),
            *final(state.scratch) == *final(old(state).scratch),
        ensures
            column == slot_column(r, sky.lat@, e, first as int, slots(e)),
            state@ == (Ray {
                radar: textured_slots(r, sky, radar0, e, first as int, slots(e)),
                ..r
            }),
        decreases p - e.i0,
    {
        proof {
            arith::lemma_wrapping(sx, gi0);
            arith::lemma_wrapping(sy, gi1);
            arith::lemma_wrap_twice(far_x(r, e) - k * r.gi0, -r.gi0 as int);
            arith::lemma_wrap_twice(far_y(r, e) - k * r.gi1, -r.gi1 as int);
            vstd::arithmetic::mul::lemma_mul_is_distributive_add_other_way(
                r.gi0 as int,
                k as int,
                1,
            );
            vstd::arithmetic::mul::lemma_mul_is_distributive_add_other_way(
                r.gi1 as int,
                k as int,
                1,
            );
        }
        sx = sx.wrapping_sub(gi0);
        sy = sy.wrapping_sub(gi1);
        assert(1 * r.gi0 == r.gi0 && 1 * r.gi1 == r.gi1);
        assert(sx == arith::wrap32(far_x(r, e) - (k + 1) * r.gi0));
        assert(sy == arith::wrap32(far_y(r, e) - (k + 1) * r.gi1));
        assert(sky_column_ok(sky.lat@, slot_column(r, sky.lat@, e, first as int, k), sx, sy));
        column = find_sky_column(sky.lat, column, sx, sy);
        let ghost prev = state@;
        proof {
            k = k + 1;
            assert(column == slot_column(r, sky.lat@, e, first as int, k));
        }
        let off: i32 = state.scratch.sky_off;
        let col: i32 = if off >= 0 && (off as usize / 4 + column as usize) < sky.pixels.len() {
            sky.pixels[off as usize / 4 + column as usize]
        } else {
            state.scratch.skycast.col
        };
        let dist: i32 = state.scratch.skycast.dist;
        if p >= 0 && (p as usize) < state.scratch.radar.len() {
            state.scratch.radar[p as usize] = CastDat { col, dist };
        }
        proof {
            let t = textured_slots(r, sky, radar0, e, first as int, k);
            assert(CastDat { col, dist } == texel(r, sky, column as int));
            assert(state@.radar =~= t);
            assert(state@ =~= Ray { radar: t, ..r });
        }
        if p <= e.i0 {
            assert(k == slots(e));
            break;
        }
        p = p - 1;
    }
    column
}

/// A wrapped product is the product, wrapped.
proof fn lemma_crop(x: int)
    ensures
        vstd::wrapping::i32_specs::signed_crop(x) == arith::wrap32(x),
{
    let m: int = 0x1_0000_0000;
    let a = x % m;
    assert((x + 0x8000_0000) % m == (a + 0x8000_0000) % m) by (nonlinear_arith)
        requires
            a == x % m,
            m == 0x1_0000_0000,
    ;
}

/// Fills the open slots from the sky texture.
pub fn phase_startsky_textured(state: &mut GrouscanState<'_>) -> (r: Phase)
    requires
        old(state)@.ce_idx < 256,
        old(state)@.sky matches Some(sky) && textured_sky_ok(
            old(state)@,
            sky.lat@,
            sky.xsiz_post as int,
            CF_SEED_INDEX as int,
        ),
    ensures
        old(state)@.sky matches Some(sky) && final(state)@ == (Ray {
            radar: textured_sky(
                old(state)@,
                sky,
                old(state)@.radar,
                sky.xsiz_post as int,
                CF_SEED_INDEX as int,
            ),
            ..old(state)@
        }),
        r == Phase::Done,
        *final(final(state).scratch) == *final(old(state).scratch),
{
    let ghost r0 = state@;
    let sky: SkyRef = match state.sky {
        Some(s) => s,
        None => return Phase::Done,
    };
    let ce: usize = state.ce_idx;
    let mut first: i32 = sky.xsiz_post;
    let mut q: usize = CF_SEED_INDEX;
    assert(state@ =~= Ray { radar: state@.radar, ..r0 });
    while q <= ce
        invariant
            r0.cf.len() == 256,
            ce == r0.ce_idx,
            ce < 256,
            state@ == (Ray { radar: state@.radar, ..r0 }),
            textured_sky_ok(r0, sky.lat@, first as int, q as int),
            textured_sky(r0, sky, state@.radar, first as int, q as int) == textured_sky(
                r0,
                sky,
                r0.radar,
                sky.xsiz_post as int,
                CF_SEED_INDEX as int,
            ),
            *final(state.scratch) == *final(old(state).scratch),
        decreases ce + 1 - q,
    {
        let i0: isize = state.scratch.cf[q].i0;
        let i1: isize = state.scratch.cf[q].i1;
        let ghost before = state@.radar;
        if i0 <= i1 {
            first = texture_segment(state, sky, q, first, Ghost(r0));
        } else {
            assert(before =~= textured_slots(r0, sky, before, r0.cf[q as int], first as int, 0));
        }
        q += 1;
    }
    assert(state@.radar == textured_sky(r0, sky, state@.radar, first as int, q as int));
    Phase::Done
}

/// Fills what is left of the view with the sky.
pub fn phase_startsky(state: &mut GrouscanState<'_>) -> (r: Phase)
    requires
        start_sky_ok(old(state)@),
    ensures
        final(state)@ == start_sky(old(state)@),
        r == Phase::Done,
        *final(final(state).scratch) == *final(old(state).scratch),
{
    if CF_SEED_INDEX > state.ce_idx {
        return Phase::Done;
    }
    if state.sky.is_some() && state.scratch.sky_off != 0 {
        phase_startsky_textured(state)
    } else {
        phase_startsky_solid(state)
    }
}

} // verus!
