//! Narrowing of view segments where a ray moves to coarser columns: each
//! segment gives up slots at its right edge as the finer columns that
//! were passed over would have made it do.
use crate::arith;
use crate::grouscan;
use crate::grouscan::{grouscan_cross_sign, CfType};
use vstd::prelude::*;

verus! {

/// What the narrowing reads of the scan.
#[derive(Debug, Clone, Copy)]
pub struct CfNarrowInputs<'a> {
    /// Depth of the next grid line along x and along y.
    pub gpz_at_entry: [i32; 2],
    /// Depth between grid lines along x and along y.
    pub gdz_old: [i32; 2],
    pub gi0: i32,
    pub gi1: i32,
    /// Screen position per height.
    pub gylookup: &'a [i32],
    /// Level that the ray leaves.
    pub old_mip: u32,
}

/// Most finer columns that are stepped through.
pub const MAX_VIRTUAL_STEPS: u32 = 64;

/// Axis of the nearer grid line.
pub open spec fn near_lane(gpz: Seq<i32>) -> int {
    if gpz[1] < gpz[0] {
        1
    } else {
        0
    }
}

/// A depth without its fraction.
pub open spec fn whole_depth(x: i32) -> i32 {
    x & -0x1_0000i32
}

/// The grid lines after the nearer one has been crossed.
pub open spec fn crossed(gpz: Seq<i32>, gdz: Seq<i32>) -> Seq<i32> {
    gpz.update(
        near_lane(gpz),
        gpz[near_lane(gpz)].wrapping_add(gdz[near_lane(gpz)]),
    )
}

/// Half of each distance.
pub open spec fn halves(gdz: Seq<i32>) -> Seq<i32> {
    seq![gdz[0] >> 1u32, gdz[1] >> 1u32]
}

/// Whether the screen table has a position for the bottom of the segment.
pub open spec fn on_table(e: CfType, gylookup: Seq<i32>) -> bool {
    0 <= e.z1 < gylookup.len()
}

/// Whether the segment gives up a slot at depth `ogx`: its right edge is
/// past the ray, and it has more than one slot.
pub open spec fn gives_up(e: CfType, gylookup: Seq<i32>, ogx: i32) -> bool {
    on_table(e, gylookup) && grouscan::cross(e.cx1, e.cy1, ogx, gylookup[e.z1 as int]) > 0 && e.i1
        > e.i0
}

/// The segment with one slot less at its right edge.
pub open spec fn one_less(e: CfType, gi0: i32, gi1: i32) -> CfType {
    CfType {
        cx1: arith::wrap32(e.cx1 - gi0),
        cy1: arith::wrap32(e.cy1 - gi1),
        i1: (e.i1 - 1) as isize,
        ..e
    }
}

/// The segment after one finer column at depth `ogx`: it gives up slots
/// until its right edge is no longer past the ray, or one slot is left.
pub open spec fn narrow_once(
    e: CfType,
    gi0: i32,
    gi1: i32,
    gylookup: Seq<i32>,
    ogx: i32,
) -> CfType
    decreases arith::max_int(e.i1 - e.i0, 0),
{
    if gives_up(e, gylookup, ogx) {
        narrow_once(one_less(e, gi0, gi1), gi0, gi1, gylookup, ogx)
    } else {
        e
    }
}

/// Whether every cross product of that column is a machine integer.
pub open spec fn once_ok(e: CfType, gi0: i32, gi1: i32, gylookup: Seq<i32>, ogx: i32) -> bool
    decreases arith::max_int(e.i1 - e.i0, 0),
{
    &&& on_table(e, gylookup) ==> grouscan::cross(e.cx1, e.cy1, ogx, gylookup[e.z1 as int])
        <= i32::MAX
    &&& gives_up(e, gylookup, ogx) ==> once_ok(one_less(e, gi0, gi1), gi0, gi1, gylookup, ogx)
}

/// The segment after `n` finer columns.
pub open spec fn narrow_steps(
    e: CfType,
    gpz: Seq<i32>,
    gdz: Seq<i32>,
    gi0: i32,
    gi1: i32,
    gylookup: Seq<i32>,
    n: nat,
) -> CfType
    decreases n,
{
    if n == 0 {
        e
    } else {
        narrow_steps(
            narrow_once(e, gi0, gi1, gylookup, whole_depth(gpz[near_lane(gpz)])),
            crossed(gpz, gdz),
            gdz,
            gi0,
            gi1,
            gylookup,
            (n - 1) as nat,
        )
    }
}

/// Whether every cross product of these steps is a machine integer.
pub open spec fn narrow_ok(
    e: CfType,
    gpz: Seq<i32>,
    gdz: Seq<i32>,
    gi0: i32,
    gi1: i32,
    gylookup: Seq<i32>,
    n: nat,
) -> bool
    decreases n,
{
    n == 0 || {
        let ogx = whole_depth(gpz[near_lane(gpz)]);
        &&& once_ok(e, gi0, gi1, gylookup, ogx)
        &&& narrow_ok(
            narrow_once(e, gi0, gi1, gylookup, ogx),
            crossed(gpz, gdz),
            gdz,
            gi0,
            gi1,
            gylookup,
            (n - 1) as nat,
        )
    }
}

/// Finer columns that one coarse column stands for, less one, up to the
/// most that are stepped through.
pub open spec fn virtual_steps(old_mip: u32) -> nat {
    if old_mip == 0 {
        0
    } else {
        arith::min_int((1u32 << old_mip) - 1, MAX_VIRTUAL_STEPS as int) as nat
    }
}

impl<'a> CfNarrowInputs<'a> {
    /// The segment after the narrowing.
    pub open spec fn narrowed(self, e: CfType) -> CfType {
        narrow_steps(
            e,
            self.gpz_at_entry@,
            halves(self.gdz_old@),
            self.gi0,
            self.gi1,
            self.gylookup@,
            virtual_steps(self.old_mip),
        )
    }

    /// Whether the narrowing of the segment stays inside machine integers.
    pub open spec fn fits(self, e: CfType) -> bool {
        narrow_ok(
            e,
            self.gpz_at_entry@,
            halves(self.gdz_old@),
            self.gi0,
            self.gi1,
            self.gylookup@,
            virtual_steps(self.old_mip),
        )
    }
}

/// Without a screen table no segment narrows.
proof fn lemma_no_table(
    e: CfType,
    gpz: Seq<i32>,
    gdz: Seq<i32>,
    gi0: i32,
    gi1: i32,
    gylookup: Seq<i32>,
    n: nat,
)
    requires
        gylookup.len() == 0,
    ensures
        narrow_steps(e, gpz, gdz, gi0, gi1, gylookup, n) == e,
    decreases n,
{
    if n > 0 {
        lemma_no_table(e, crossed(gpz, gdz), gdz, gi0, gi1, gylookup, (n - 1) as nat);
    }
}

/// One finer column keeps everything of a segment but its right edge, leaves
/// it at least one slot where it had one, and ends where the right edge is
/// no longer past the ray or one slot is left.
pub proof fn lemma_column_keeps(e: CfType, gi0: i32, gi1: i32, gylookup: Seq<i32>, ogx: i32)
    ensures
        ({
            let f = narrow_once(e, gi0, gi1, gylookup, ogx);
            &&& f == (CfType { i1: f.i1, cx1: f.cx1, cy1: f.cy1, ..e })
            &&& f.i1 <= e.i1
            &&& e.i0 <= e.i1 ==> e.i0 <= f.i1
            &&& e.i1 <= e.i0 ==> f == e
            &&& !gives_up(f, gylookup, ogx)
        }),
    decreases arith::max_int(e.i1 - e.i0, 0),
{
    if gives_up(e, gylookup, ogx) {
        lemma_column_keeps(one_less(e, gi0, gi1), gi0, gi1, gylookup, ogx);
    }
}

/// Narrowing keeps everything of a segment but its right edge, and leaves
/// it at least one slot where it had one.
pub proof fn lemma_narrowing_keeps(
    e: CfType,
    gpz: Seq<i32>,
    gdz: Seq<i32>,
    gi0: i32,
    gi1: i32,
    gylookup: Seq<i32>,
    n: nat,
)
    ensures
        ({
            let f = narrow_steps(e, gpz, gdz, gi0, gi1, gylookup, n);
            &&& f == (CfType { i1: f.i1, cx1: f.cx1, cy1: f.cy1, ..e })
            &&& f.i1 <= e.i1
            &&& e.i0 <= e.i1 ==> e.i0 <= f.i1
        }),
    decreases n,
{
    if n > 0 {
        let ogx = whole_depth(gpz[near_lane(gpz)]);
        lemma_column_keeps(e, gi0, gi1, gylookup, ogx);
        lemma_narrowing_keeps(
            narrow_once(e, gi0, gi1, gylookup, ogx),
            crossed(gpz, gdz),
            gdz,
            gi0,
            gi1,
            gylookup,
            (n - 1) as nat,
        );
    }
}

/// Narrows one segment for one finer column.
fn narrow_entry(e: CfType, in_: &CfNarrowInputs<'_>, ogx: i32) -> (r: CfType)
    requires
        once_ok(e, in_.gi0, in_.gi1, in_.gylookup@, ogx),
    ensures
        r == narrow_once(e, in_.gi0, in_.gi1, in_.gylookup@, ogx),
{
    if e.z1 < 0 || e.z1 as usize >= in_.gylookup.len() {
        return e;
    }
    let gy_raw: i32 = in_.gylookup[e.z1 as usize];
    let mut f: CfType = e;
    while grouscan_cross_sign(f.cx1, f.cy1, ogx, gy_raw) > 0 && f.i1 > f.i0
        invariant
            f.z1 == e.z1,
            on_table(f, in_.gylookup@),
            gy_raw == in_.gylookup@[f.z1 as int],
            once_ok(f, in_.gi0, in_.gi1, in_.gylookup@, ogx),
            narrow_once(f, in_.gi0, in_.gi1, in_.gylookup@, ogx) == narrow_once(
                e,
                in_.gi0,
                in_.gi1,
                in_.gylookup@,
                ogx,
            ),
        decreases f.i1 - f.i0,
    {
        proof {
            arith::lemma_wrapping(f.cx1, in_.gi0);
            arith::lemma_wrapping(f.cy1, in_.gi1);
        }
        let g: CfType = CfType {
            cx1: f.cx1.wrapping_sub(in_.gi0),
            cy1: f.cy1.wrapping_sub(in_.gi1),
            i1: f.i1 - 1,
            ..f
        };
        assert(g == one_less(f, in_.gi0, in_.gi1));
        f = g;
    }
    f
}

/// Narrows the segments `cf[lo..hi]`.
pub fn cf_narrow_range(cf: &mut [CfType], lo: usize, hi: usize, in_: &CfNarrowInputs<'_>)
    requires
        lo <= hi <= old(cf)@.len(),
        in_.old_mip < 32,
        forall|i: int| lo <= i < hi ==> in_.fits(#[trigger] old(cf)@[i]),
    ensures
        final(cf)@ == Seq::new(
            old(cf)@.len(),
            |i: int|
                if lo <= i < hi {
                    in_.narrowed(old(cf)@[i])
                } else {
                    old(cf)@[i]
                },
        ),
{
    let ghost cf0 = cf@;
    let ghost out = Seq::new(
        cf0.len(),
        |i: int|
            if lo <= i < hi {
                in_.narrowed(cf0[i])
            } else {
                cf0[i]
            },
    );
    if in_.old_mip == 0 {
        assert(cf@ =~= out);
        return;
    }
    let old_mip: u32 = in_.old_mip;
    assert(1u32 << old_mip >= 1) by (bit_vector)
        requires
            old_mip < 32,
    ;
    let all: u32 = (1u32 << old_mip) - 1;
    let n_steps: u32 = if all < MAX_VIRTUAL_STEPS {
        all
    } else {
        MAX_VIRTUAL_STEPS
    };
    let finer: [i32; 2] = [in_.gdz_old[0] >> 1u32, in_.gdz_old[1] >> 1u32];
    assert(finer@ =~= halves(in_.gdz_old@));
    let ghost gdz = finer@;
    let mut gpz: [i32; 2] = in_.gpz_at_entry;
    let mut step: u32 = 0;
    assert(n_steps == virtual_steps(in_.old_mip));
    while step < n_steps
        invariant
            lo <= hi <= cf0.len(),
            step <= n_steps,
            gdz == finer@,
            gdz.len() == 2,
            cf@.len() == cf0.len(),
            out.len() == cf0.len(),
            forall|i: int| 0 <= i < lo || hi <= i < cf0.len() ==> cf@[i] == #[trigger] out[i],
            forall|i: int|
                lo <= i < hi ==> #[trigger] out[i] == narrow_steps(
                    cf@[i],
                    gpz@,
                    gdz,
                    in_.gi0,
                    in_.gi1,
                    in_.gylookup@,
                    (n_steps - step) as nat,
                ),
            forall|i: int|
                lo <= i < hi ==> narrow_ok(
                    #[trigger] cf@[i],
                    gpz@,
                    gdz,
                    in_.gi0,
                    in_.gi1,
                    in_.gylookup@,
                    (n_steps - step) as nat,
                ),
        decreases n_steps - step,
    {
        let lane: usize = if gpz[1] < gpz[0] {
            1
        } else {
            0
        };
        let ogx: i32 = gpz[lane] & -0x1_0000i32;
        let ghost gpz0 = gpz@;
        let ghost left = (n_steps - step - 1) as nat;
        let mut i: usize = lo;
        while i < hi
            invariant
                lo <= i <= hi <= cf0.len(),
                gpz0.len() == 2,
                gdz.len() == 2,
                lane == near_lane(gpz0),
                ogx == whole_depth(gpz0[lane as int]),
                left == n_steps - step - 1,
                cf@.len() == cf0.len(),
                out.len() == cf0.len(),
                forall|j: int| 0 <= j < lo || hi <= j < cf0.len() ==> cf@[j] == #[trigger] out[j],
                forall|j: int|
                    lo <= j < i ==> #[trigger] out[j] == narrow_steps(
                        cf@[j],
                        crossed(gpz0, gdz),
                        gdz,
                        in_.gi0,
                        in_.gi1,
                        in_.gylookup@,
                        left,
                    ),
                forall|j: int|
                    lo <= j < i ==> narrow_ok(
                        #[trigger] cf@[j],
                        crossed(gpz0, gdz),
                        gdz,
                        in_.gi0,
                        in_.gi1,
                        in_.gylookup@,
                        left,
                    ),
                forall|j: int|
                    i <= j < hi ==> #[trigger] out[j] == narrow_steps(
                        cf@[j],
                        gpz0,
                        gdz,
                        in_.gi0,
                        in_.gi1,
                        in_.gylookup@,
                        left + 1,
                    ),
                forall|j: int|
                    i <= j < hi ==> narrow_ok(
                        #[trigger] cf@[j],
                        gpz0,
                        gdz,
                        in_.gi0,
                        in_.gi1,
                        in_.gylookup@,
                        left + 1,
                    ),
            decreases hi - i,
        {
            let e: CfType = cf[i];
            assert(cf@[i as int] == e);
            assert(narrow_ok(e, gpz0, gdz, in_.gi0, in_.gi1, in_.gylookup@, left + 1));
            assert(out[i as int] == narrow_steps(
                e,
                gpz0,
                gdz,
                in_.gi0,
                in_.gi1,
                in_.gylookup@,
                left + 1,
            ));
            let f: CfType = narrow_entry(e, in_, ogx);
            cf[i] = f;
            i += 1;
        }
        gpz[lane] = gpz[lane].wrapping_add(finer[lane]);
        assert(gpz@ =~= crossed(gpz0, gdz));
        step += 1;
    }
    assert(cf@ =~= out);
}

/// Narrows every segment of `cf` by the finer columns that a column of
/// the level left stood for. Only the right edges change.
pub fn cf_narrow_simulate(cf: &mut [CfType], in_: &CfNarrowInputs<'_>)
    requires
        old(cf)@.len() > 0 && in_.gylookup@.len() > 0 ==> in_.old_mip < 32,
        forall|i: int| 0 <= i < old(cf)@.len() ==> in_.fits(#[trigger] old(cf)@[i]),
    ensures
        final(cf)@ == Seq::new(old(cf)@.len(), |i: int| in_.narrowed(old(cf)@[i])),
{
    let ghost cf0 = cf@;
    let n: usize = cf.len();
    if n == 0 || in_.gylookup.len() == 0 {
        proof {
            assert forall|i: int| 0 <= i < cf0.len() implies in_.narrowed(cf0[i]) == cf0[i] by {
                lemma_no_table(
                    cf0[i],
                    in_.gpz_at_entry@,
                    halves(in_.gdz_old@),
                    in_.gi0,
                    in_.gi1,
                    in_.gylookup@,
                    virtual_steps(in_.old_mip),
                );
            }
            assert(cf@ =~= Seq::new(cf0.len(), |i: int| in_.narrowed(cf0[i])));
        }
        return;
    }
    cf_narrow_range(cf, 0, n, in_);
    assert(cf@ =~= Seq::new(cf0.len(), |i: int| in_.narrowed(cf0[i])));
}

impl<'a> CfNarrowInputs<'a> {
    /// At level 0 nothing narrows. At another level a segment is narrowed
    /// at the lines from where the ray entered the level on, half as far
    /// apart as those of the level: at level 1 by the one finer column
    /// that its column has more than one.
    pub proof fn lemma_narrows_by_level(self, e: CfType, depth: i32)
        requires
            self.gpz_at_entry@.len() == 2,
            depth == whole_depth(
                if self.gpz_at_entry@[0] <= self.gpz_at_entry@[1] {
                    self.gpz_at_entry@[0]
                } else {
                    self.gpz_at_entry@[1]
                },
            ),
        ensures
            self.old_mip == 0 ==> self.narrowed(e) == e,
            self.old_mip == 1 ==> self.narrowed(e) == narrow_once(
                e,
                self.gi0,
                self.gi1,
                self.gylookup@,
                depth,
            ),
    {
        reveal_with_fuel(narrow_steps, 3);
        vstd::arithmetic::power2::lemma2_to64();
        vstd::bits::lemma_u32_shl_is_mul(1u32, 1u32);
    }
}

} // verus!
