//! How a ray goes over the grid of columns: which way it steps, and how
//! far apart the grid lines are along it.
use crate::grouscan::empty;
use vstd::prelude::*;

verus! {

/// Steps of the column index along x and along y.
pub open spec fn steps(x_back: bool, y_back: bool, vsid: u32) -> Seq<i32> {
    seq![
        if x_back {
            -1i32
        } else {
            1i32
        },
        if y_back {
            (-(vsid as i32)) as i32
        } else {
            vsid as i32
        },
    ]
}

/// Steps of the column index along x and along y, for a ray that goes
/// back along an axis or not.
#[must_use]
pub fn column_steps(x_back: bool, y_back: bool, vsid: u32) -> (r: [i32; 2])
    requires
        vsid as i32 != i32::MIN,
    ensures
        r@ == steps(x_back, y_back, vsid),
{
    let side: i32 = vsid as i32;
    let r: [i32; 2] = [
        if x_back {
            -1
        } else {
            1
        },
        if y_back {
            -side
        } else {
            side
        },
    ];
    assert(r@ =~= steps(x_back, y_back, vsid));
    r
}

/// The next grid line along one axis and the distance between two.
pub open spec fn lines(first: i32, gap: i32) -> (i32, i32) {
    if gap <= 0 {
        (i32::MAX, 0)
    } else {
        (first, gap)
    }
}

/// Grid lines along one axis, `gap` apart from `first` on. Where the gap is
/// not a positive number the ray runs along the axis, and no line is in
/// reach.
#[must_use]
pub fn grid_lines(first: i32, gap: i32) -> (r: (i32, i32))
    ensures
        r.0 == if gap <= 0 {
            i32::MAX
        } else {
            first
        },
        r.1 == if gap <= 0 {
            0
        } else {
            gap
        },
        r == lines(first, gap),
{
    if gap <= 0 {
        (i32::MAX, 0)
    } else {
        (first, gap)
    }
}

/// The grid lines of every ray get farther, or are out of reach: what a
/// scan needs to come to its end.
pub proof fn lemma_lines_recede(first: i32, gap: i32)
    ensures
        gap <= 0 ==> empty::recedes(i32::MAX, 0),
        gap > 0 ==> empty::recedes(first, gap),
{
}

/// A step along x goes to the next column of a row and a step along y to
/// the next row; a ray that goes back steps the other way, so that a step
/// and a step back cancel out.
pub proof fn lemma_steps_cancel(x_back: bool, y_back: bool, vsid: u32)
    requires
        vsid <= i32::MAX,
    ensures
        steps(x_back, y_back, vsid).len() == 2,
        steps(x_back, y_back, vsid)[0] + steps(!x_back, y_back, vsid)[0] == 0,
        steps(x_back, y_back, vsid)[1] + steps(x_back, !y_back, vsid)[1] == 0,
        steps(x_back, y_back, vsid)[0] == steps(x_back, !y_back, vsid)[0],
        steps(x_back, y_back, vsid)[1] == steps(!x_back, y_back, vsid)[1],
        steps(false, y_back, vsid)[0] == 1,
        steps(x_back, false, vsid)[1] == vsid,
{
}

/// A ray meets the lines of an axis from the first on, the given gap
/// apart; without a gap it never meets one. Either way they get farther.
pub proof fn lemma_lines_as_given(first: i32, gap: i32)
    ensures
        gap > 0 ==> lines(first, gap).0 == first && lines(first, gap).1 == gap,
        gap <= 0 ==> lines(first, gap).0 == i32::MAX && lines(first, gap).1 == 0,
        empty::recedes(lines(first, gap).0, lines(first, gap).1),
{
}

} // verus!
