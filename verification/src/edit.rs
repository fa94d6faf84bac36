//! Editing of a column's solid runs in place.
//!
//! A column is a flat list `[top, bottom, top, bottom, ..]` of solid runs
//! `[top, bottom)`, from the top of the column down, which ends with the
//! first run whose bottom is [`MAXZDIM`] or more. What follows that run
//! is room to grow.
use vstd::prelude::*;

verus! {

/// Height of a column in voxels.
pub const MAXZDIM: i32 = 256;

/// Index of the run that ends the list, searched from run `k` on.
pub open spec fn last_run(b: Seq<i32>, k: int) -> int
    decreases b.len() - 2 * k,
{
    if k < 0 || 2 * k + 1 >= b.len() {
        k
    } else if b[2 * k + 1] >= MAXZDIM {
        k
    } else {
        last_run(b, k + 1)
    }
}

/// The runs of the list, the last included.
pub open spec fn runs_of(b: Seq<i32>) -> Seq<(i32, i32)> {
    Seq::new((last_run(b, 0) + 1) as nat, |j: int| (b[2 * j], b[2 * j + 1]))
}

/// Whether runs are in order: none is empty but the last, air lies
/// between any two, and only the last reaches the bottom of the column.
pub open spec fn ordered(p: Seq<(i32, i32)>) -> bool {
    &&& p.len() > 0
    &&& forall|j: int| 0 <= j < p.len() - 1 ==> (#[trigger] p[j]).0 < p[j].1 < MAXZDIM
    &&& p[p.len() - 1].0 <= MAXZDIM <= p[p.len() - 1].1
    &&& forall|i: int, j: int| 0 <= i < j < p.len() ==> (#[trigger] p[i]).1 < (#[trigger] p[j]).0
}

/// Whether the list is complete and in order.
pub open spec fn well_formed(b: Seq<i32>) -> bool {
    2 * last_run(b, 0) + 1 < b.len() && ordered(runs_of(b))
}

/// Whether one more run would fit.
pub open spec fn has_room(b: Seq<i32>) -> bool {
    2 * last_run(b, 0) + 4 <= b.len()
}

/// Whether height `z` lies in run `j`.
pub open spec fn in_run(p: Seq<(i32, i32)>, j: int, z: int) -> bool {
    p[j].0 <= z < p[j].1
}

/// Whether height `z` lies in one of the runs.
pub open spec fn in_runs(p: Seq<(i32, i32)>, z: int) -> bool {
    exists|j: int| 0 <= j < p.len() && #[trigger] in_run(p, j, z)
}

/// Whether the column is solid at height `z`.
pub open spec fn solid(b: Seq<i32>, z: int) -> bool {
    in_runs(runs_of(b), z)
}

/// Whether `c` is the column `b` with the heights `[y0, y1)` carved to
/// air, but for the voxel at the bottom.
pub open spec fn is_carved(b: Seq<i32>, c: Seq<i32>, y0: i32, y1: i32) -> bool {
    forall|z: int| #[trigger]
        solid(c, z) <==> solid(b, z) && !(y0 <= z < y1 && z < MAXZDIM - 1)
}

/// Whether `c` is the column `b` with the heights `[y0, y1)` filled.
pub open spec fn is_filled(b: Seq<i32>, c: Seq<i32>, y0: i32, y1: i32) -> bool {
    forall|z: int| #[trigger] solid(c, z) <==> solid(b, z) || y0 <= z < y1
}

/// Whether the list begins with the runs `p`.
spec fn lists(b: Seq<i32>, p: Seq<(i32, i32)>) -> bool {
    &&& 2 * p.len() <= b.len()
    &&& forall|j: int| 0 <= j < p.len() ==> (#[trigger] p[j]).0 == b[2 * j] && p[j].1 == b[2 * j + 1]
}

proof fn lemma_last_run_bound(b: Seq<i32>, k: int)
    requires
        0 <= k,
    ensures
        k <= last_run(b, k),
    decreases b.len() - 2 * k,
{
    if 2 * k + 1 < b.len() && b[2 * k + 1] < MAXZDIM {
        lemma_last_run_bound(b, k + 1);
    }
}

proof fn lemma_last_run(b: Seq<i32>, p: Seq<(i32, i32)>, k: int)
    requires
        lists(b, p),
        ordered(p),
        0 <= k < p.len(),
    ensures
        last_run(b, k) == p.len() - 1,
    decreases p.len() - k,
{
    assert(p[k].1 == b[2 * k + 1]);
    if k < p.len() - 1 {
        lemma_last_run(b, p, k + 1);
    }
}

/// The runs of a list are the runs that it was found to begin with.
proof fn lemma_runs_of(b: Seq<i32>, p: Seq<(i32, i32)>)
    requires
        lists(b, p),
        ordered(p),
    ensures
        runs_of(b) == p,
        well_formed(b),
{
    lemma_last_run(b, p, 0);
    assert forall|j: int| 0 <= j < p.len() implies runs_of(b)[j] == #[trigger] p[j] by {}
    assert(runs_of(b) =~= p);
}

/// What is left of a run that the carve splits.
proof fn lemma_split(p: Seq<(i32, i32)>, k: int, y0: i32, y1: i32)
    requires
        ordered(p),
        0 <= k < p.len(),
        p[k].0 < y0 < y1 < p[k].1,
        y1 < MAXZDIM,
    ensures
        ({
            let q = p.take(k) + seq![(p[k].0, y0), (y1, p[k].1)] + p.skip(k + 1);
            &&& ordered(q)
            &&& forall|z: int| in_runs(q, z) <==> in_runs(p, z) && !(y0 <= z < y1)
        }),
{
    let q = p.take(k) + seq![(p[k].0, y0), (y1, p[k].1)] + p.skip(k + 1);
    assert forall|j: int| 0 <= j < q.len() implies #[trigger] q[j] == if j < k {
        p[j]
    } else if j == k {
        (p[k].0, y0)
    } else if j == k + 1 {
        (y1, p[k].1)
    } else {
        p[j - 1]
    } by {}
    assert forall|z: int| in_runs(q, z) <==> in_runs(p, z) && !(y0 <= z < y1) by {
        if in_runs(q, z) {
            let j = choose|j: int| 0 <= j < q.len() && #[trigger] in_run(q, j, z);
            let i = if j <= k {
                j
            } else {
                j - 1
            };
            assert(in_run(p, i, z));
            assert(p[i].1 < p[k].0 || i == k || p[k].1 < p[i].0);
        }
        if in_runs(p, z) && !(y0 <= z < y1) {
            let j = choose|j: int| 0 <= j < p.len() && #[trigger] in_run(p, j, z);
            let i = if j < k || (j == k && z < y0) {
                j
            } else {
                j + 1
            };
            assert(in_run(q, i, z));
        }
    }
}

/// What is left when the carve spans whole runs: run `k` is cut at `y0`
/// where `cut` says so, the runs from `lo` up to `hi` are gone, and run
/// `hi` begins at `y1` at the earliest.
spec fn spanned(p: Seq<(i32, i32)>, k: int, cut: bool, hi: int, y0: i32, y1: i32) -> Seq<
    (i32, i32),
> {
    let r = if cut {
        p.update(k, (p[k].0, y0))
    } else {
        p
    };
    let lo = if cut {
        k + 1
    } else {
        k
    };
    let s = r.take(lo) + r.skip(hi);
    if y1 > s[lo].0 {
        s.update(lo, (y1, s[lo].1))
    } else {
        s
    }
}

/// Run `j` of what is left.
spec fn spanned_run(
    p: Seq<(i32, i32)>,
    k: int,
    cut: bool,
    hi: int,
    y0: i32,
    y1: i32,
    j: int,
) -> (i32, i32) {
    let lo = if cut {
        k + 1
    } else {
        k
    };
    if j < k {
        p[j]
    } else if j < lo {
        (p[k].0, y0)
    } else if j == lo && y1 > p[hi].0 {
        (y1, p[hi].1)
    } else {
        p[j + hi - lo]
    }
}

proof fn lemma_spanned_run(p: Seq<(i32, i32)>, k: int, cut: bool, hi: int, y0: i32, y1: i32)
    requires
        0 <= k <= hi < p.len(),
        cut ==> k < hi,
    ensures
        spanned(p, k, cut, hi, y0, y1).len() == p.len() - hi + (if cut {
            k + 1
        } else {
            k
        }),
        forall|j: int|
            0 <= j < spanned(p, k, cut, hi, y0, y1).len() ==> #[trigger] spanned(
                p,
                k,
                cut,
                hi,
                y0,
                y1,
            )[j] == spanned_run(p, k, cut, hi, y0, y1, j),
{
}

proof fn lemma_spanned_ordered(p: Seq<(i32, i32)>, k: int, cut: bool, hi: int, y0: i32, y1: i32)
    requires
        ordered(p),
        0 <= k < p.len(),
        y0 < y1 < MAXZDIM,
        y0 < p[k].1,
        k > 0 ==> p[k - 1].1 <= y0,
        cut == (p[k].0 < y0),
        cut ==> p[k].1 <= y1 && k + 1 <= hi,
        k <= hi < p.len(),
        y1 < p[hi].1,
        forall|j: int| (if cut {
            k + 1
        } else {
            k
        }) <= j < hi ==> (#[trigger] p[j]).1 <= y1,
    ensures
        ordered(spanned(p, k, cut, hi, y0, y1)),
{
    let q = spanned(p, k, cut, hi, y0, y1);
    let lo = if cut {
        k + 1
    } else {
        k
    };
    let d = hi - lo;
    lemma_spanned_run(p, k, cut, hi, y0, y1);
    assert forall|i: int, j: int| 0 <= i < j < q.len() implies (#[trigger] q[i]).1
        < (#[trigger] q[j]).0 by {
        let ip = if i < lo {
            i
        } else {
            i + d
        };
        let jp = if j < lo {
            j
        } else {
            j + d
        };
        assert(p[ip].1 < p[jp].0);
        assert(q[i].1 <= p[ip].1);
        assert(q[j].0 >= p[jp].0);
    }
    assert forall|j: int| 0 <= j < q.len() - 1 implies (#[trigger] q[j]).0 < q[j].1 < MAXZDIM by {
        let jp = if j < lo {
            j
        } else {
            j + d
        };
        assert(jp < p.len() - 1);
        assert(p[jp].0 < p[jp].1 < MAXZDIM);
    }
}

proof fn lemma_spanned_within(
    p: Seq<(i32, i32)>,
    k: int,
    cut: bool,
    hi: int,
    y0: i32,
    y1: i32,
    j: int,
    z: int,
)
    requires
        ordered(p),
        0 <= k < p.len(),
        y0 < y1 < MAXZDIM,
        y0 < p[k].1,
        k > 0 ==> p[k - 1].1 <= y0,
        cut == (p[k].0 < y0),
        cut ==> p[k].1 <= y1 && k + 1 <= hi,
        k <= hi < p.len(),
        y1 < p[hi].1,
        forall|j: int| (if cut {
            k + 1
        } else {
            k
        }) <= j < hi ==> (#[trigger] p[j]).1 <= y1,
        0 <= j < spanned(p, k, cut, hi, y0, y1).len(),
        in_run(spanned(p, k, cut, hi, y0, y1), j, z),
    ensures
        in_runs(p, z),
        !(y0 <= z < y1),
{
    let lo = if cut {
        k + 1
    } else {
        k
    };
    let d = hi - lo;
    lemma_spanned_run(p, k, cut, hi, y0, y1);
    let run = spanned(p, k, cut, hi, y0, y1)[j];
    assert(run == spanned_run(p, k, cut, hi, y0, y1, j));
    let i = if j < lo {
        j
    } else {
        j + d
    };
    assert(run.0 >= p[i].0 && run.1 <= p[i].1);
    assert(in_run(p, i, z));
    if j < k - 1 {
        assert(p[j].1 < p[k - 1].0);
        assert(p[k - 1].0 < p[k - 1].1);
    }
    if j > lo {
        assert(p[hi].1 < p[i].0);
    }
}

proof fn lemma_spanned_keeps(
    p: Seq<(i32, i32)>,
    k: int,
    cut: bool,
    hi: int,
    y0: i32,
    y1: i32,
    j: int,
    z: int,
)
    requires
        ordered(p),
        0 <= k < p.len(),
        y0 < y1 < MAXZDIM,
        y0 < p[k].1,
        k > 0 ==> p[k - 1].1 <= y0,
        cut == (p[k].0 < y0),
        cut ==> p[k].1 <= y1 && k + 1 <= hi,
        k <= hi < p.len(),
        y1 < p[hi].1,
        forall|j: int| (if cut {
            k + 1
        } else {
            k
        }) <= j < hi ==> (#[trigger] p[j]).1 <= y1,
        0 <= j < p.len(),
        in_run(p, j, z),
        !(y0 <= z < y1),
    ensures
        in_runs(spanned(p, k, cut, hi, y0, y1), z),
{
    let lo = if cut {
        k + 1
    } else {
        k
    };
    let d = hi - lo;
    lemma_spanned_run(p, k, cut, hi, y0, y1);
    let q = spanned(p, k, cut, hi, y0, y1);
    if j > k {
        assert(p[k].1 < p[j].0);
    }
    if j < lo {
        assert(q[j] == spanned_run(p, k, cut, hi, y0, y1, j));
        assert(in_run(q, j, z));
    } else if j < hi {
        assert(p[j].1 <= y1);
        assert(false);
    } else {
        assert(q[j - d] == spanned_run(p, k, cut, hi, y0, y1, j - d));
        assert(in_run(q, j - d, z));
    }
}

/// What is left is what was there without the heights that the carve
/// takes.
proof fn lemma_spanned(p: Seq<(i32, i32)>, k: int, cut: bool, hi: int, y0: i32, y1: i32)
    requires
        ordered(p),
        0 <= k < p.len(),
        y0 < y1 < MAXZDIM,
        y0 < p[k].1,
        k > 0 ==> p[k - 1].1 <= y0,
        cut == (p[k].0 < y0),
        cut ==> p[k].1 <= y1 && k + 1 <= hi,
        k <= hi < p.len(),
        y1 < p[hi].1,
        forall|j: int| (if cut {
            k + 1
        } else {
            k
        }) <= j < hi ==> (#[trigger] p[j]).1 <= y1,
    ensures
        ordered(spanned(p, k, cut, hi, y0, y1)),
        forall|z: int|
            in_runs(spanned(p, k, cut, hi, y0, y1), z) <==> in_runs(p, z) && !(y0 <= z < y1),
{
    let q = spanned(p, k, cut, hi, y0, y1);
    lemma_spanned_ordered(p, k, cut, hi, y0, y1);
    assert forall|z: int| in_runs(q, z) <==> in_runs(p, z) && !(y0 <= z < y1) by {
        if in_runs(q, z) {
            let j = choose|j: int| 0 <= j < q.len() && #[trigger] in_run(q, j, z);
            lemma_spanned_within(p, k, cut, hi, y0, y1, j, z);
        }
        if in_runs(p, z) && !(y0 <= z < y1) {
            let j = choose|j: int| 0 <= j < p.len() && #[trigger] in_run(p, j, z);
            lemma_spanned_keeps(p, k, cut, hi, y0, y1, j, z);
        }
    }
}

/// The first run from `from` on that ends at `y` or below.
fn first_reaching(b: &[i32], from: usize, y: i32, p: Ghost<Seq<(i32, i32)>>) -> (k: usize)
    requires
        lists(b@, p@),
        ordered(p@),
        from < p@.len(),
        y <= p@[p@.len() - 1].1,
    ensures
        from <= k < p@.len(),
        y <= p@[k as int].1,
        forall|j: int| from <= j < k ==> (#[trigger] p@[j]).1 < y,
{
    let ghost p = p@;
    let n: usize = b.len();
    let mut k: usize = from;
    assert(2 * p.len() <= n);
    assert(p[k as int].1 == b@[2 * k + 1]);
    while b[2 * k + 1] < y
        invariant
            lists(b@, p),
            ordered(p),
            n == b@.len(),
            2 * p.len() <= n,
            y <= p[p.len() - 1].1,
            from <= k < p.len(),
            p[k as int].1 == b@[2 * k + 1],
            forall|j: int| from <= j < k ==> (#[trigger] p[j]).1 < y,
        decreases p.len() - k,
    {
        k += 1;
        assert(p[k as int].1 == b@[2 * k + 1]);
    }
    k
}

/// Moves the runs from `hi` on down to position `lo`.
fn close_up(b: &mut [i32], lo: usize, hi: usize, p: Ghost<Seq<(i32, i32)>>)
    requires
        lists(old(b)@, p@),
        ordered(p@),
        lo <= hi < p@.len(),
    ensures
        final(b)@.len() == old(b)@.len(),
        lists(final(b)@, p@.take(lo as int) + p@.skip(hi as int)),
{
    let ghost p = p@;
    let ghost out = p.take(lo as int) + p.skip(hi as int);
    let ghost d = hi - lo;
    let n: usize = b.len();
    assert(2 * p.len() <= b@.len());
    if lo == hi {
        assert(out =~= p);
        return;
    }
    let mut i: usize = 2 * hi;
    let delta: usize = 2 * (hi - lo);
    let ghost mut t: int = hi as int;
    assert(p[t] == (b@[2 * t], b@[2 * t + 1]));
    b[2 * lo] = b[i];
    b[2 * lo + 1] = b[i + 1];
    assert forall|j: int| 0 <= j < lo || hi <= j < p.len() implies (#[trigger] p[j]).0
        == b@[2 * j] && p[j].1 == b@[2 * j + 1] by {}
    loop
        invariant_except_break
            hi <= t < p.len(),
            i == 2 * t,
            forall|j: int|
                0 <= j < lo || t <= j < p.len() ==> (#[trigger] p[j]).0 == b@[2 * j] && p[j].1
                    == b@[2 * j + 1],
            forall|j: int|
                hi <= j <= t ==> (#[trigger] p[j]).0 == b@[2 * (j - d)] && p[j].1 == b@[2 * (j - d)
                    + 1],
        invariant
            lo < hi < p.len(),
            d == hi - lo,
            delta == 2 * d,
            b@.len() == n,
            2 * p.len() <= n,
            ordered(p),
        ensures
            forall|j: int| 0 <= j < lo ==> (#[trigger] p[j]).0 == b@[2 * j] && p[j].1 == b@[2 * j + 1],
            forall|j: int|
                hi <= j < p.len() ==> (#[trigger] p[j]).0 == b@[2 * (j - d)] && p[j].1 == b@[2 * (j
                    - d) + 1],
        decreases p.len() - t,
    {
        assert(p[t].1 == b@[2 * t + 1]);
        if b[i + 1] >= MAXZDIM {
            assert(t == p.len() - 1);
            break;
        }
        assert(t < p.len() - 1);
        let ghost b0 = b@;
        i += 2;
        proof {
            t = t + 1;
            assert(p[t].0 == b0[2 * t] && p[t].1 == b0[2 * t + 1]);
        }
        b[i - delta] = b[i];
        b[i - delta + 1] = b[i + 1];
    }
    assert forall|j: int| 0 <= j < out.len() implies (#[trigger] out[j]).0 == b@[2 * j] && out[j].1
        == b@[2 * j + 1] by {
        if j < lo {
            assert(out[j] == p[j]);
        } else {
            assert(out[j] == p[j + d]);
        }
    }
}

/// Moves the runs from `at` on up by one position; what is at `at` stays
/// there too.
fn make_room(b: &mut [i32], at: usize, p: Ghost<Seq<(i32, i32)>>)
    requires
        lists(old(b)@, p@),
        ordered(p@),
        at < p@.len(),
        2 * p@.len() + 2 <= old(b)@.len(),
    ensures
        final(b)@.len() == old(b)@.len(),
        lists(final(b)@, p@.take(at + 1) + p@.skip(at as int)),
{
    let ghost p = p@;
    let n: usize = b.len();
    let mut i: usize = 2 * at;
    let ghost mut t: int = at as int;
    loop
        invariant_except_break
            at <= t < p.len(),
            i == 2 * t,
        invariant
            lists(b@, p),
            ordered(p),
            b@.len() == n,
            2 * p.len() + 2 <= n,
        ensures
            i == 2 * (p.len() - 1),
        decreases p.len() - t,
    {
        assert(p[t].1 == b@[2 * t + 1]);
        if b[i + 1] >= MAXZDIM {
            assert(t == p.len() - 1);
            break;
        }
        i += 2;
        proof {
            t = t + 1;
        }
    }
    proof {
        t = p.len() - 1;
    }
    let start: usize = 2 * at;
    loop
        invariant_except_break
            at <= t < p.len(),
            i == 2 * t,
            start == 2 * at,
            forall|j: int| 0 <= j <= t ==> (#[trigger] p[j]).0 == b@[2 * j] && p[j].1 == b@[2 * j + 1],
            forall|j: int|
                t < j < p.len() ==> (#[trigger] p[j]).0 == b@[2 * (j + 1)] && p[j].1 == b@[2 * (j
                    + 1) + 1],
        invariant
            b@.len() == n,
            2 * p.len() + 2 <= n,
            at < p.len(),
        ensures
            forall|j: int| 0 <= j <= at ==> (#[trigger] p[j]).0 == b@[2 * j] && p[j].1 == b@[2 * j + 1],
            forall|j: int|
                at <= j < p.len() ==> (#[trigger] p[j]).0 == b@[2 * (j + 1)] && p[j].1 == b@[2 * (j
                    + 1) + 1],
        decreases t,
    {
        assert(p[t].0 == b@[2 * t] && p[t].1 == b@[2 * t + 1]);
        b[i + 3] = b[i + 1];
        b[i + 2] = b[i];
        if i == start {
            break;
        }
        i -= 2;
        proof {
            t = t - 1;
        }
    }
    proof {
        let out = p.take(at + 1) + p.skip(at as int);
        assert forall|j: int| 0 <= j < out.len() implies (#[trigger] out[j]).0 == b@[2 * j]
            && out[j].1 == b@[2 * j + 1] by {
            if j <= at {
                assert(out[j] == p[j]);
            } else {
                assert(out[j] == p[j - 1]);
            }
        }
    }
}

/// A run that is cut short leaves the list in order.
proof fn lemma_cut(b0: Seq<i32>, b: Seq<i32>, p: Seq<(i32, i32)>, k: int, cut: bool, y0: i32)
    requires
        lists(b0, p),
        ordered(p),
        0 <= k < p.len(),
        y0 < p[k].1,
        cut == (p[k].0 < y0),
        cut ==> k < p.len() - 1,
        b == (if cut {
            b0.update(2 * k + 1, y0)
        } else {
            b0
        }),
    ensures
        ({
            let r = if cut {
                p.update(k, (p[k].0, y0))
            } else {
                p
            };
            lists(b, r) && ordered(r)
        }),
{
    let r = if cut {
        p.update(k, (p[k].0, y0))
    } else {
        p
    };
    assert forall|j: int| 0 <= j < r.len() implies (#[trigger] r[j]).0 == b[2 * j] && r[j].1
        == b[2 * j + 1] by {
        assert(p[j].0 == b0[2 * j] && p[j].1 == b0[2 * j + 1]);
    }
    assert forall|i: int, j: int| 0 <= i < j < r.len() implies (#[trigger] r[i]).1
        < (#[trigger] r[j]).0 by {
        assert(p[i].1 < p[j].0);
    }
    assert forall|j: int| 0 <= j < r.len() - 1 implies (#[trigger] r[j]).0 < r[j].1 < MAXZDIM by {
        assert(p[j].0 < p[j].1 < MAXZDIM);
    }
}

proof fn lemma_spanned_list(
    b1: Seq<i32>,
    b: Seq<i32>,
    p: Seq<(i32, i32)>,
    k: int,
    cut: bool,
    hi: int,
    y0: i32,
    y1: i32,
)
    requires
        0 <= k <= hi < p.len(),
        cut ==> k < hi,
        ({
            let r = if cut {
                p.update(k, (p[k].0, y0))
            } else {
                p
            };
            let lo = if cut {
                k + 1
            } else {
                k
            };
            &&& lists(b1, r.take(lo) + r.skip(hi))
            &&& b == if y1 > b1[2 * lo] {
                b1.update(2 * lo, y1)
            } else {
                b1
            }
        }),
    ensures
        lists(b, spanned(p, k, cut, hi, y0, y1)),
{
    let r = if cut {
        p.update(k, (p[k].0, y0))
    } else {
        p
    };
    let lo = if cut {
        k + 1
    } else {
        k
    };
    let s = r.take(lo) + r.skip(hi);
    let q = spanned(p, k, cut, hi, y0, y1);
    assert(s[lo].0 == b1[2 * lo]);
    assert forall|j: int| 0 <= j < q.len() implies (#[trigger] q[j]).0 == b[2 * j] && q[j].1 == b[2
        * j + 1] by {
        assert(s[j].0 == b1[2 * j] && s[j].1 == b1[2 * j + 1]);
    }
}

/// Carves `[y0, y1)` out of the middle of a run.
fn split_run(b2: &mut [i32], run: usize, y0: i32, y1: i32, p: Ghost<Seq<(i32, i32)>>)
    requires
        lists(old(b2)@, p@),
        ordered(p@),
        2 * p@.len() + 2 <= old(b2)@.len(),
        run < p@.len(),
        p@[run as int].0 < y0 < y1 < p@[run as int].1,
        y1 < MAXZDIM,
    ensures
        final(b2)@.len() == old(b2)@.len(),
        well_formed(final(b2)@),
        forall|h: int| #[trigger] solid(final(b2)@, h) <==> in_runs(p@, h) && !(y0 <= h < y1),
{
    let ghost p = p@;
    let ghost k = run as int;
    let n: usize = b2.len();
    let z: usize = 2 * run;
    make_room(b2, run, Ghost(p));
    let ghost r = p.take(k + 1) + p.skip(k);
    assert(r[k] == p[k] && r[k + 1] == p[k]);
    let ghost b1 = b2@;
    b2[z + 1] = y0;
    b2[z + 2] = y1;
    proof {
        let q = p.take(k) + seq![(p[k].0, y0), (y1, p[k].1)] + p.skip(k + 1);
        assert forall|j: int| 0 <= j < q.len() implies (#[trigger] q[j]).0 == b2@[2 * j]
            && q[j].1 == b2@[2 * j + 1] by {
            assert(r[j].0 == b1[2 * j] && r[j].1 == b1[2 * j + 1]);
        }
        assert(lists(b2@, q));
        lemma_split(p, k, y0, y1);
        lemma_runs_of(b2@, q);
    }
}

/// Carves `[y0, y1)` where it takes the end of the run, or begins at its
/// top or above.
#[verifier::spinoff_prover]
#[verifier::rlimit(40)]
fn span_runs(b2: &mut [i32], run: usize, y0: i32, y1: i32, p: Ghost<Seq<(i32, i32)>>)
    requires
        lists(old(b2)@, p@),
        ordered(p@),
        run < p@.len(),
        y0 < y1 < MAXZDIM,
        y0 < p@[run as int].1,
        run > 0 ==> p@[run - 1].1 <= y0,
        p@[run as int].0 < y0 ==> p@[run as int].1 <= y1,
    ensures
        final(b2)@.len() == old(b2)@.len(),
        well_formed(final(b2)@),
        forall|h: int| #[trigger] solid(final(b2)@, h) <==> in_runs(p@, h) && !(y0 <= h < y1),
{
    let ghost p = p@;
    let ghost k = run as int;
    let ghost b0 = b2@;
    let n: usize = b2.len();
    let z: usize = 2 * run;
    assert(2 * p.len() <= n);
    assert(p[k].0 == b2@[2 * k] && p[k].1 == b2@[2 * k + 1]);
    let cut: bool = y0 > b2[z];
    let mut lo: usize = run;
    if cut {
        b2[z + 1] = y0;
        lo = run + 1;
    }
    let ghost r = if cut {
        p.update(k, (p[k].0, y0))
    } else {
        p
    };
    proof {
        lemma_cut(b0, b2@, p, k, cut, y0);
    }
    let hi: usize = first_reaching(b2, lo, y1 + 1, Ghost(r));
    close_up(b2, lo, hi, Ghost(r));
    let ghost b1 = b2@;
    assert(r[hi as int] == (r.take(lo as int) + r.skip(hi as int))[lo as int]);
    if y1 > b2[2 * lo] {
        b2[2 * lo] = y1;
    }
    proof {
        lemma_spanned_list(b1, b2@, p, k, cut, hi as int, y0, y1);
        assert forall|j: int| lo <= j < hi implies (#[trigger] p[j]).1 <= y1 by {
            assert(r[j].1 <= y1);
        }
        lemma_spanned(p, k, cut, hi as int, y0, y1);
        let q = spanned(p, k, cut, hi as int, y0, y1);
        lemma_runs_of(b2@, q);
        assert forall|h: int| #[trigger] solid(b2@, h) <==> in_runs(p, h) && !(y0 <= h < y1) by {
            assert(in_runs(q, h) <==> in_runs(p, h) && !(y0 <= h < y1));
        }
    }
}

/// Carves the heights `[y0, y1)` to air. The voxel at the bottom of the
/// column stays: `y1` is taken to be at most [`MAXZDIM`]` - 1`.
pub fn delslab(b2: &mut [i32], y0: i32, y1: i32)
    requires
        old(b2)@.len() > 0 && y0 < y1 && y0 < MAXZDIM - 1 ==> well_formed(old(b2)@) && has_room(
            old(b2)@,
        ),
    ensures
        final(b2)@.len() == old(b2)@.len(),
        old(b2)@.len() == 0 || y0 >= y1 || y0 >= MAXZDIM - 1 ==> final(b2)@ == old(b2)@,
        old(b2)@.len() > 0 && y0 < y1 && y0 < MAXZDIM - 1 ==> well_formed(final(b2)@) && (forall|
            z: int,
        |
            #[trigger] solid(final(b2)@, z) <==> solid(old(b2)@, z) && !(y0 <= z < y1 && z < MAXZDIM - 1)),
        old(b2)@.len() > 0 && y0 < y1 && y0 < MAXZDIM - 1 ==> is_carved(
            old(b2)@,
            final(b2)@,
            y0,
            y1,
        ),
{
    let y1: i32 = if y1 >= MAXZDIM {
        MAXZDIM - 1
    } else {
        y1
    };
    let n: usize = b2.len();
    if y0 >= y1 || n == 0 {
        return;
    }
    let ghost b0 = b2@;
    let ghost p = runs_of(b0);
    let ghost m = p.len() as int;
    proof {
        lemma_last_run_bound(b0, 0);
    }
    assert(lists(b0, p));
    let run: usize = first_reaching(b2, 0, y0 + 1, Ghost(p));
    let ghost k = run as int;
    let z: usize = 2 * run;
    assert(p[k].0 == b2@[2 * k] && p[k].1 == b2@[2 * k + 1]);
    if y0 > b2[z] && y1 < b2[z + 1] {
        split_run(b2, run, y0, y1, Ghost(p));
    } else {
        proof {
            if k > 0 {
                assert(p[k - 1].1 <= y0);
            }
        }
        span_runs(b2, run, y0, y1, Ghost(p));
    }
    assert forall|h: int| #[trigger] solid(b2@, h) <==> solid(old(b2)@, h) && !(y0 <= h < y1) by {
        assert(solid(old(b2)@, h) == in_runs(p, h));
    }
}

/// The list with `[y0, y1)` in place of the runs from `k` to `hi`, all
/// of which it touches.
spec fn merged(p: Seq<(i32, i32)>, k: int, hi: int, y0: i32, y1: i32) -> Seq<(i32, i32)> {
    let top = if y0 < p[k].0 {
        y0
    } else {
        p[k].0
    };
    let bottom = if y1 > p[hi].1 {
        y1
    } else {
        p[hi].1
    };
    p.take(k) + seq![(top, bottom)] + p.skip(hi + 1)
}

/// Run `j` of the merged list.
spec fn merged_run(p: Seq<(i32, i32)>, k: int, hi: int, y0: i32, y1: i32, j: int) -> (i32, i32) {
    if j < k {
        p[j]
    } else if j == k {
        (
            if y0 < p[k].0 {
                y0
            } else {
                p[k].0
            },
            if y1 > p[hi].1 {
                y1
            } else {
                p[hi].1
            },
        )
    } else {
        p[j + hi - k]
    }
}

proof fn lemma_merged_run(p: Seq<(i32, i32)>, k: int, hi: int, y0: i32, y1: i32)
    requires
        0 <= k <= hi < p.len(),
    ensures
        merged(p, k, hi, y0, y1).len() == p.len() - (hi - k),
        forall|j: int|
            0 <= j < merged(p, k, hi, y0, y1).len() ==> #[trigger] merged(p, k, hi, y0, y1)[j]
                == merged_run(p, k, hi, y0, y1, j),
{
}

/// Whether `[y0, y1)` touches the runs from `k` to `hi` and no others.
spec fn touches(p: Seq<(i32, i32)>, k: int, hi: int, y0: i32, y1: i32) -> bool {
    &&& y0 < y1
    &&& 0 <= k <= hi < p.len()
    &&& k > 0 ==> p[k - 1].1 < y0
    &&& y0 <= p[k].1
    &&& p[k].0 <= y1
    &&& p[hi].0 <= y1
    &&& hi + 1 < p.len() ==> y1 < p[hi + 1].0
}

proof fn lemma_merged_ordered(p: Seq<(i32, i32)>, k: int, hi: int, y0: i32, y1: i32)
    requires
        ordered(p),
        touches(p, k, hi, y0, y1),
    ensures
        ordered(merged(p, k, hi, y0, y1)),
{
    let q = merged(p, k, hi, y0, y1);
    lemma_merged_run(p, k, hi, y0, y1);
    assert forall|i: int, j: int| 0 <= i < j < q.len() implies (#[trigger] q[i]).1
        < (#[trigger] q[j]).0 by {
        let ip = if i < k {
            i
        } else {
            i + hi - k
        };
        let jp = if j <= k {
            j
        } else {
            j + hi - k
        };
        assert(p[ip].1 < p[jp].0);
        if i < k - 1 {
            assert(p[i].1 < p[k - 1].0);
            assert(p[k - 1].0 < p[k - 1].1);
        }
        if jp > hi + 1 {
            assert(p[hi + 1].1 < p[jp].0);
            assert(p[hi + 1].0 < p[hi + 1].1);
        }
    }
    assert forall|j: int| 0 <= j < q.len() - 1 implies (#[trigger] q[j]).0 < q[j].1 < MAXZDIM by {
        let jp = if j < k {
            j
        } else {
            j + hi - k
        };
        assert(p[jp].0 < p[jp].1 < MAXZDIM);
        if j == k {
            assert(p[hi + 1].0 <= MAXZDIM);
        }
    }
    if hi == p.len() - 1 {
        assert(p[k].0 <= MAXZDIM);
    }
}

proof fn lemma_merged(p: Seq<(i32, i32)>, k: int, hi: int, y0: i32, y1: i32, z: int)
    requires
        ordered(p),
        touches(p, k, hi, y0, y1),
    ensures
        in_runs(merged(p, k, hi, y0, y1), z) <==> in_runs(p, z) || y0 <= z < y1,
{
    let q = merged(p, k, hi, y0, y1);
    lemma_merged_run(p, k, hi, y0, y1);
    assert(q[k] == merged_run(p, k, hi, y0, y1, k));
    if in_runs(q, z) {
        let j = choose|j: int| 0 <= j < q.len() && #[trigger] in_run(q, j, z);
        assert(q[j] == merged_run(p, k, hi, y0, y1, j));
        if j < k {
            assert(in_run(p, j, z));
        } else if j > k {
            assert(in_run(p, j + hi - k, z));
        } else if z < y0 {
            assert(in_run(p, k, z));
        } else if z >= y1 {
            assert(in_run(p, hi, z));
        }
    }
    if y0 <= z < y1 {
        assert(in_run(q, k, z));
    }
    if in_runs(p, z) {
        let j = choose|j: int| 0 <= j < p.len() && #[trigger] in_run(p, j, z);
        if j < k {
            assert(q[j] == merged_run(p, k, hi, y0, y1, j));
            assert(in_run(q, j, z));
        } else if j > hi {
            assert(q[j - (hi - k)] == merged_run(p, k, hi, y0, y1, j - (hi - k)));
            assert(in_run(q, j - (hi - k), z));
        } else {
            if j > k {
                assert(p[k].1 < p[j].0);
            }
            if j < hi {
                assert(p[j].1 < p[hi].0);
            }
            assert(in_run(q, k, z));
        }
    }
}

/// The list with `[y0, y1)` as a run of its own before run `k`.
proof fn lemma_inserted(p: Seq<(i32, i32)>, k: int, y0: i32, y1: i32)
    requires
        ordered(p),
        0 <= k < p.len(),
        k > 0 ==> p[k - 1].1 < y0,
        y0 < y1 < p[k].0,
    ensures
        ordered(p.insert(k, (y0, y1))),
        forall|z: int|
            #[trigger] in_runs(p.insert(k, (y0, y1)), z) <==> in_runs(p, z) || y0 <= z < y1,
{
    let q = p.insert(k, (y0, y1));
    assert(p[k].0 <= MAXZDIM) by {
        if k < p.len() - 1 {
            assert(p[k].0 < p[k].1 < MAXZDIM);
        }
    }
    assert forall|i: int, j: int| 0 <= i < j < q.len() implies (#[trigger] q[i]).1
        < (#[trigger] q[j]).0 by {
        if i < k - 1 {
            assert(p[i].1 < p[k - 1].0);
            assert(p[k - 1].0 < p[k - 1].1);
        }
        if j > k + 1 {
            assert(p[k].1 < p[j - 1].0);
            assert(p[k].0 < p[k].1);
        }
        if i < k && j > k {
            assert(p[i].1 < p[j - 1].0);
        } else if i < k && j < k {
            assert(p[i].1 < p[j].0);
        } else if i > k {
            assert(p[i - 1].1 < p[j - 1].0);
        }
    }
    assert forall|j: int| 0 <= j < q.len() - 1 implies (#[trigger] q[j]).0 < q[j].1 < MAXZDIM by {
        if j < k {
            assert(p[j].0 < p[j].1);
        } else if j > k {
            assert(p[j - 1].0 < p[j - 1].1);
        }
    }
    assert forall|z: int| #[trigger] in_runs(q, z) <==> in_runs(p, z) || y0 <= z < y1 by {
        if in_runs(q, z) {
            let j = choose|j: int| 0 <= j < q.len() && #[trigger] in_run(q, j, z);
            if j < k {
                assert(in_run(p, j, z));
            } else if j > k {
                assert(in_run(p, j - 1, z));
            }
        }
        if y0 <= z < y1 {
            assert(in_run(q, k, z));
        }
        if in_runs(p, z) {
            let j = choose|j: int| 0 <= j < p.len() && #[trigger] in_run(p, j, z);
            if j < k {
                assert(in_run(q, j, z));
            } else {
                assert(in_run(q, j + 1, z));
            }
        }
    }
}

/// Makes `[y0, y1)` a run of its own before run `run`.
fn insert_run(b2: &mut [i32], run: usize, y0: i32, y1: i32, p: Ghost<Seq<(i32, i32)>>)
    requires
        lists(old(b2)@, p@),
        ordered(p@),
        2 * p@.len() + 2 <= old(b2)@.len(),
        run < p@.len(),
        run > 0 ==> p@[run - 1].1 < y0,
        y0 < y1 < p@[run as int].0,
    ensures
        final(b2)@.len() == old(b2)@.len(),
        well_formed(final(b2)@),
        forall|h: int| #[trigger] solid(final(b2)@, h) <==> in_runs(p@, h) || y0 <= h < y1,
{
    let ghost p = p@;
    let n: usize = b2.len();
    make_room(b2, run, Ghost(p));
    let ghost b1 = b2@;
    b2[2 * run + 1] = y1;
    b2[2 * run] = y0;
    proof {
        let k = run as int;
        let r = p.take(k + 1) + p.skip(k);
        let q = p.insert(k, (y0, y1));
        assert forall|j: int| 0 <= j < q.len() implies (#[trigger] q[j]).0 == b2@[2 * j] && q[j].1
            == b2@[2 * j + 1] by {
            assert(r[j].0 == b1[2 * j] && r[j].1 == b1[2 * j + 1]);
        }
        lemma_inserted(p, k, y0, y1);
        lemma_runs_of(b2@, q);
    }
}

/// Joins `[y0, y1)` with the runs from `run` on that it touches.
#[verifier::spinoff_prover]
#[verifier::rlimit(40)]
fn merge_runs(b2: &mut [i32], run: usize, y0: i32, y1: i32, p: Ghost<Seq<(i32, i32)>>)
    requires
        lists(old(b2)@, p@),
        ordered(p@),
        2 * p@.len() + 2 <= old(b2)@.len(),
        y0 < y1,
        run < p@.len(),
        run > 0 ==> p@[run - 1].1 < y0,
        y0 <= p@[run as int].1,
        p@[run as int].0 <= y1,
    ensures
        final(b2)@.len() == old(b2)@.len(),
        well_formed(final(b2)@),
        forall|h: int| #[trigger] solid(final(b2)@, h) <==> in_runs(p@, h) || y0 <= h < y1,
{
    let ghost p = p@;
    let ghost k = run as int;
    let n: usize = b2.len();
    assert(p[k].0 == b2@[2 * k] && p[k].1 == b2@[2 * k + 1]);
    let mut hi: usize = run;
    while b2[2 * hi + 1] < MAXZDIM && y1 >= b2[2 * hi + 2]
        invariant
            lists(b2@, p),
            ordered(p),
            n == b2@.len(),
            2 * p.len() + 2 <= n,
            k == run,
            run <= hi < p.len(),
            p[k].0 <= y1,
            p[hi as int].0 <= y1,
            p[hi as int].1 == b2@[2 * hi + 1],
        ensures
            hi + 1 < p.len() ==> y1 < p[hi + 1].0,
        decreases p.len() - hi,
    {
        assert(hi < p.len() - 1);
        assert(p[hi + 1].0 == b2@[2 * (hi + 1)] && p[hi + 1].1 == b2@[2 * (hi + 1) + 1]);
        hi += 1;
    }
    proof {
        if hi + 1 < p.len() {
            assert(p[hi + 1].0 == b2@[2 * (hi + 1)]);
        }
    }
    let top: i32 = b2[2 * run];
    close_up(b2, run, hi, Ghost(p));
    let ghost b1 = b2@;
    let ghost r = p.take(k) + p.skip(hi as int);
    assert(r[k] == p[hi as int]);
    assert(r[k].0 == b2@[2 * k] && r[k].1 == b2@[2 * k + 1]);
    b2[2 * run] = if y0 < top {
        y0
    } else {
        top
    };
    if y1 > b2[2 * run + 1] {
        b2[2 * run + 1] = y1;
    }
    proof {
        let q = merged(p, k, hi as int, y0, y1);
        assert forall|j: int| 0 <= j < q.len() implies (#[trigger] q[j]).0 == b2@[2 * j] && q[j].1
            == b2@[2 * j + 1] by {
            assert(r[j].0 == b1[2 * j] && r[j].1 == b1[2 * j + 1]);
        }
        lemma_merged_ordered(p, k, hi as int, y0, y1);
        lemma_runs_of(b2@, q);
        assert forall|h: int| #[trigger] solid(b2@, h) <==> in_runs(p, h) || y0 <= h < y1 by {
            lemma_merged(p, k, hi as int, y0, y1, h);
        }
    }
}

/// Fills the heights `[y0, y1)`.
pub fn insslab(b2: &mut [i32], y0: i32, y1: i32)
    requires
        old(b2)@.len() > 0 && y0 < y1 ==> {
            &&& well_formed(old(b2)@)
            &&& has_room(old(b2)@)
            &&& y0 <= runs_of(old(b2)@).last().1
        },
    ensures
        final(b2)@.len() == old(b2)@.len(),
        old(b2)@.len() == 0 || y0 >= y1 ==> final(b2)@ == old(b2)@,
        old(b2)@.len() > 0 && y0 < y1 ==> well_formed(final(b2)@) && (forall|z: int| #[trigger]
            solid(final(b2)@, z) <==> solid(old(b2)@, z) || y0 <= z < y1),
        old(b2)@.len() > 0 && y0 < y1 ==> is_filled(old(b2)@, final(b2)@, y0, y1),
{
    let n: usize = b2.len();
    if y0 >= y1 || n == 0 {
        return;
    }
    let ghost p = runs_of(b2@);
    proof {
        lemma_last_run_bound(b2@, 0);
    }
    assert(lists(b2@, p));
    let run: usize = first_reaching(b2, 0, y0, Ghost(p));
    let ghost k = run as int;
    assert(p[k].0 == b2@[2 * k]);
    proof {
        if k > 0 {
            assert(p[k - 1].1 < y0);
        }
    }
    if y1 < b2[2 * run] {
        insert_run(b2, run, y0, y1, Ghost(p));
    } else {
        merge_runs(b2, run, y0, y1, Ghost(p));
    }
    assert forall|h: int| #[trigger] solid(b2@, h) <==> solid(old(b2)@, h) || y0 <= h < y1 by {
        assert(solid(old(b2)@, h) == in_runs(p, h));
    }
}

/// Runs in order are told by the heights that lie in them: no two lists
/// stand for the same column.
pub proof fn lemma_runs_unique(p: Seq<(i32, i32)>, q: Seq<(i32, i32)>)
    requires
        ordered(p),
        ordered(q),
        forall|z: int| in_runs(p, z) == in_runs(q, z),
    ensures
        p == q,
    decreases p.len(),
{
    lemma_first_run(p);
    lemma_first_run(q);
    if p[0].0 < p[0].1 {
        assert(in_run(p, 0, p[0].0 as int));
        assert(in_runs(p, p[0].0 as int));
        assert(in_runs(q, p[0].0 as int));
    }
    if q[0].0 < q[0].1 {
        assert(in_run(q, 0, q[0].0 as int));
        assert(in_runs(q, q[0].0 as int));
        assert(in_runs(p, q[0].0 as int));
    }
    assert(p[0].0 == q[0].0);
    assert(in_runs(p, q[0].1 as int) == in_runs(q, q[0].1 as int));
    assert(in_runs(p, p[0].1 as int) == in_runs(q, p[0].1 as int));
    if p[0].1 < q[0].1 {
        assert(in_run(q, 0, p[0].1 as int));
        assert(false);
    }
    if q[0].1 < p[0].1 {
        assert(in_run(p, 0, q[0].1 as int));
        assert(false);
    }
    assert(p[0] == q[0]);
    if p.len() > 1 {
        assert(q.len() > 1);
        lemma_tail_ordered(p);
        lemma_tail_ordered(q);
        assert forall|z: int| in_runs(p.skip(1), z) == in_runs(q.skip(1), z) by {
            assert(in_runs(p, z) == in_runs(q, z));
            lemma_tail(p, z);
            lemma_tail(q, z);
        }
        lemma_runs_unique(p.skip(1), q.skip(1));
        assert(p =~= seq![p[0]] + p.skip(1));
        assert(q =~= seq![q[0]] + q.skip(1));
    } else {
        assert(q.len() == 1);
        assert(p =~= q);
    }
}

/// Nothing lies above the first run, and its end is not solid.
proof fn lemma_first_run(p: Seq<(i32, i32)>)
    requires
        ordered(p),
    ensures
        forall|z: int| in_runs(p, z) ==> p[0].0 <= z,
        !in_runs(p, p[0].1 as int),
        p[0].0 == p[0].1 ==> p.len() == 1 && p[0].0 == MAXZDIM,
        p.len() > 1 <==> p[0].1 < MAXZDIM,
{
    assert forall|z: int| in_runs(p, z) implies p[0].0 <= z by {
        let j = choose|j: int| 0 <= j < p.len() && #[trigger] in_run(p, j, z);
        if j > 0 {
            assert(p[0].1 < p[j].0);
            assert(p[0].0 < p[0].1);
        }
    }
    if in_runs(p, p[0].1 as int) {
        let j = choose|j: int| 0 <= j < p.len() && #[trigger] in_run(p, j, p[0].1 as int);
        if j > 0 {
            assert(p[0].1 < p[j].0);
        }
    }
    if p.len() > 1 {
        assert(p[0].0 < p[0].1 < MAXZDIM);
    }
}

proof fn lemma_tail_ordered(p: Seq<(i32, i32)>)
    requires
        ordered(p),
        p.len() > 1,
    ensures
        ordered(p.skip(1)),
{
    let t = p.skip(1);
    assert forall|j: int| 0 <= j < t.len() implies #[trigger] t[j] == p[j + 1] by {}
}

proof fn lemma_tail(p: Seq<(i32, i32)>, z: int)
    requires
        ordered(p),
        p.len() > 1,
    ensures
        in_runs(p.skip(1), z) <==> in_runs(p, z) && !(p[0].0 <= z < p[0].1),
{
    let t = p.skip(1);
    if in_runs(t, z) {
        let j = choose|j: int| 0 <= j < t.len() && #[trigger] in_run(t, j, z);
        assert(t[j] == p[j + 1]);
        assert(in_run(p, j + 1, z));
        assert(p[0].1 < p[j + 1].0);
    }
    if in_runs(p, z) && !(p[0].0 <= z < p[0].1) {
        let j = choose|j: int| 0 <= j < p.len() && #[trigger] in_run(p, j, z);
        assert(j > 0);
        assert(t[j - 1] == p[j]);
        assert(in_run(t, j - 1, z));
    }
}

/// Filling what was carved out of solid ground gives back the runs that
/// were there: `b` is carved to `c`, and `c` filled to `d`, as by
/// [`delslab`] and [`insslab`].
pub proof fn lemma_fill_undoes_carve(b: Seq<i32>, c: Seq<i32>, d: Seq<i32>, y0: i32, y1: i32)
    requires
        well_formed(b),
        well_formed(d),
        y1 < MAXZDIM,
        forall|z: int| y0 <= z < y1 ==> #[trigger] solid(b, z),
        forall|z: int| #[trigger] solid(c, z) <==> solid(b, z) && !(y0 <= z < y1),
        forall|z: int| #[trigger] solid(d, z) <==> solid(c, z) || y0 <= z < y1,
    ensures
        runs_of(d) == runs_of(b),
{
    assert forall|z: int| in_runs(runs_of(d), z) == in_runs(runs_of(b), z) by {
        assert(solid(d, z) == solid(b, z));
    }
    lemma_runs_unique(runs_of(d), runs_of(b));
}

/// Carving what was filled into air gives back the runs that were there:
/// `b` is filled to `c`, and `c` carved to `d`, as by [`insslab`] and
/// [`delslab`].
pub proof fn lemma_carve_undoes_fill(b: Seq<i32>, c: Seq<i32>, d: Seq<i32>, y0: i32, y1: i32)
    requires
        well_formed(b),
        well_formed(d),
        y1 < MAXZDIM,
        forall|z: int| y0 <= z < y1 ==> !#[trigger] solid(b, z),
        forall|z: int| #[trigger] solid(c, z) <==> solid(b, z) || y0 <= z < y1,
        forall|z: int| #[trigger] solid(d, z) <==> solid(c, z) && !(y0 <= z < y1),
    ensures
        runs_of(d) == runs_of(b),
{
    assert forall|z: int| in_runs(runs_of(d), z) == in_runs(runs_of(b), z) by {
        assert(solid(d, z) == solid(b, z));
    }
    lemma_runs_unique(runs_of(d), runs_of(b));
}

/// A column is solid at the heights between the two numbers of a pair of
/// its list, the pairs up to the first that ends at the bottom. The
/// numbers after that pair do not count.
pub proof fn lemma_solid_between_pairs(b: Seq<i32>, n: int, z: int)
    requires
        0 <= n,
        2 * n + 1 < b.len(),
        b[2 * n + 1] >= MAXZDIM,
        forall|j: int| #![trigger b[2 * j + 1]] 0 <= j < n ==> b[2 * j + 1] < MAXZDIM,
    ensures
        solid(b, z) <==> exists|j: int|
            0 <= j <= n && #[trigger] in_run(runs_of(b), j, z) && b[2 * j] <= z < b[2 * j + 1],
        forall|j: int| #![trigger b[2 * j]] 0 <= j <= n && b[2 * j] <= z < b[2 * j + 1] ==> solid(
            b,
            z,
        ),
{
    lemma_last_run_found(b, 0, n);
    assert forall|j: int| #![trigger b[2 * j]] 0 <= j <= n && b[2 * j] <= z < b[2 * j
        + 1] implies solid(b, z) by {
        assert(in_run(runs_of(b), j, z));
    }
}

proof fn lemma_last_run_found(b: Seq<i32>, k: int, n: int)
    requires
        0 <= k <= n,
        2 * n + 1 < b.len(),
        b[2 * n + 1] >= MAXZDIM,
        forall|j: int| #![trigger b[2 * j + 1]] 0 <= j < n ==> b[2 * j + 1] < MAXZDIM,
    ensures
        last_run(b, k) == n,
    decreases n - k,
{
    if k < n {
        assert(b[2 * k + 1] < MAXZDIM);
        lemma_last_run_found(b, k + 1, n);
    }
}

/// A carved column is air at the heights that were carved, but for the
/// bottom, and as it was elsewhere; filling what was carved out of solid
/// ground gives back the runs that were there.
pub proof fn lemma_carve_and_fill(b: Seq<i32>, c: Seq<i32>, d: Seq<i32>, y0: i32, y1: i32, z: int)
    requires
        is_carved(b, c, y0, y1),
        is_filled(c, d, y0, y1),
    ensures
        y0 <= z < y1 && z < 255 ==> !solid(c, z),
        z < y0 || z >= y1 || z >= 255 ==> (solid(c, z) <==> solid(b, z)),
        y0 <= z < y1 ==> solid(d, z),
        z < y0 || z >= y1 ==> (solid(d, z) <==> solid(b, z)),
        well_formed(b) && well_formed(d) && (forall|h: int|
            y0 <= h < y1 ==> #[trigger] solid(b, h)) ==> runs_of(d) == runs_of(b),
{
    if well_formed(b) && well_formed(d) && (forall|h: int| y0 <= h < y1 ==> #[trigger] solid(b, h)) {
        assert forall|h: int| in_runs(runs_of(d), h) == in_runs(runs_of(b), h) by {
            assert(solid(d, h) == solid(b, h));
        }
        lemma_runs_unique(runs_of(d), runs_of(b));
    }
}

/// Carving what was filled into air gives back the runs that were there.
pub proof fn lemma_fill_and_carve(b: Seq<i32>, c: Seq<i32>, d: Seq<i32>, y0: i32, y1: i32)
    requires
        well_formed(b),
        well_formed(d),
        y1 < MAXZDIM,
        forall|z: int| y0 <= z < y1 ==> !#[trigger] solid(b, z),
        is_filled(b, c, y0, y1),
        is_carved(c, d, y0, y1),
    ensures
        runs_of(d) == runs_of(b),
{
    assert forall|z: int| in_runs(runs_of(d), z) == in_runs(runs_of(b), z) by {
        assert(solid(d, z) == solid(b, z));
    }
    lemma_runs_unique(runs_of(d), runs_of(b));
}

/// Carving twice carves what either carves, in either order.
pub proof fn lemma_carves_add_up(
    b: Seq<i32>,
    c: Seq<i32>,
    d: Seq<i32>,
    e: Seq<i32>,
    y0: i32,
    y1: i32,
    y2: i32,
)
    requires
        y0 <= y1 <= y2,
        is_carved(b, c, y0, y1),
        is_carved(c, d, y1, y2),
        is_carved(b, e, y0, y2),
        well_formed(d),
        well_formed(e),
    ensures
        runs_of(d) == runs_of(e),
{
    assert forall|z: int| in_runs(runs_of(d), z) == in_runs(runs_of(e), z) by {
        assert(solid(d, z) == solid(e, z));
    }
    lemma_runs_unique(runs_of(d), runs_of(e));
}

} // verus!
