//! Laws of cutting a sphere: which voxels it holds, what they weigh, and
//! how they come into the sprite.
use crate::color;
use crate::grid_view::GridView;
use crate::kv6::Voxel;
use crate::meltsphere;
use crate::meltsphere::{Sphere, Weight};
use crate::world_query;
use crate::world_query::Cube;
use vstd::prelude::*;

verus! {

// ---------------------------------------------------------------------
// What is in the sphere.

/// The box of a sphere holds what is in the map and no farther from the
/// centre than the radius, along each axis; there is none where that is
/// nothing.
pub proof fn lemma_box_holds_the_sphere(vsid: u32, hit: [i32; 3], hitrad: i32, x: int, y: int, z: int)
    requires
        meltsphere::box_fits(vsid, hit, hitrad),
        vsid <= i32::MAX,
    ensures
        ({
            let inside = {
                &&& 0 <= x < vsid && hit[0] - hitrad <= x <= hit[0] + hitrad
                &&& 0 <= y < vsid && hit[1] - hitrad <= y <= hit[1] + hitrad
                &&& 0 <= z < 256 && hit[2] - hitrad <= z <= hit[2] + hitrad
            };
            match meltsphere::box_of(vsid, hit, hitrad) {
                Some(b) => inside == (b.xs <= x <= b.xe && b.ys <= y <= b.ye && b.zs <= z <= b.ze),
                None => !inside,
            }
        }),
{
    assert(i32::MIN <= hit[0] - hitrad && hit[0] + hitrad <= i32::MAX);
    assert(i32::MIN <= hit[1] - hitrad && hit[1] + hitrad <= i32::MAX);
    assert(i32::MIN <= hit[2] - hitrad && hit[2] + hitrad <= i32::MAX);
}

/// Whether the sphere holds a voxel: its column is in the box, and it is no
/// farther above or below the centre than the sphere reaches there. The
/// lowest height of the box is left out.
pub open spec fn holds(s: Sphere, x: int, y: int, z: int) -> bool {
    let reach = s.reach[(x - s.bounds.xs) * (s.bounds.ye - s.bounds.ys + 1) + (y - s.bounds.ys)];
    &&& s.bounds.xs <= x <= s.bounds.xe && s.bounds.ys <= y <= s.bounds.ye
    &&& s.bounds.zs <= z < s.bounds.ze
    &&& s.hit[2] - reach <= z <= s.hit[2] + reach
}

/// The heights of a column that are looked at are those that the sphere
/// holds.
pub proof fn lemma_column_range(s: Sphere, x: int, y: int, z: int)
    requires
        s.bounds.has(x, y),
    ensures
        (s.top(x, y) <= z < s.end(x, y)) == holds(s, x, y, z),
{
}

// ---------------------------------------------------------------------
// What the voxels weigh.

/// Whether two maps agree on all voxels of a column but one.
spec fn same_column(g: GridView<'_>, h: GridView<'_>, x: int, y: int, but: int) -> bool {
    forall|z: int|
        z != but ==> #[trigger] world_query::cube_at(g, x, y, z) == world_query::cube_at(h, x, y, z)
}

proof fn lemma_column_without(s: Sphere, g: GridView<'_>, h: GridView<'_>, x: int, y: int, z: int, but: int)
    requires
        same_column(g, h, x, y, but),
        but < s.top(x, y) || z <= but,
    ensures
        s.column_solid(h, x, y, z) == s.column_solid(g, x, y, z),
        s.column_heights(h, x, y, z) == s.column_heights(g, x, y, z),
        s.column_voxels(h, x, y, z) == s.column_voxels(g, x, y, z),
    decreases z - s.top(x, y),
{
    if z > s.top(x, y) {
        lemma_column_without(s, g, h, x, y, z - 1, but);
        assert(world_query::cube_at(g, x, y, z - 1) == world_query::cube_at(h, x, y, z - 1));
    }
}

proof fn lemma_column_with(s: Sphere, g: GridView<'_>, h: GridView<'_>, x: int, y: int, z: int, at: int)
    requires
        same_column(g, h, x, y, at),
        world_query::cube_at(g, x, y, at) == Cube::Air,
        world_query::cube_at(h, x, y, at) != Cube::Air,
        s.top(x, y) <= at < z,
    ensures
        s.column_solid(h, x, y, z) == s.column_solid(g, x, y, z) + 1,
        s.column_heights(h, x, y, z) == s.column_heights(g, x, y, z) + (at - s.hit[2]),
    decreases z - s.top(x, y),
{
    if z - 1 == at {
        lemma_column_without(s, g, h, x, y, z - 1, at);
    } else {
        lemma_column_with(s, g, h, x, y, z - 1, at);
        assert(world_query::cube_at(g, x, y, z - 1) == world_query::cube_at(h, x, y, z - 1));
    }
}

/// Two maps that agree on all voxels but one.
pub open spec fn same_but(g: GridView<'_>, h: GridView<'_>, x: int, y: int, z: int) -> bool {
    forall|i: int, j: int, k: int|
        !(i == x && j == y && k == z) ==> #[trigger] world_query::cube_at(g, i, j, k)
            == world_query::cube_at(h, i, j, k)
}

/// What one voxel more weighs.
pub open spec fn one_more(w: (int, int, int, int), dx: int, dy: int, dz: int) -> (int, int, int, int) {
    (w.0 + dx, w.1 + dy, w.2 + dz, w.3 + 1)
}

proof fn lemma_slice_more(s: Sphere, g: GridView<'_>, h: GridView<'_>, i: int, j: int, x: int, y: int, z: int)
    requires
        same_but(g, h, x, y, z),
        world_query::cube_at(g, x, y, z) == Cube::Air,
        world_query::cube_at(h, x, y, z) != Cube::Air,
        s.bounds.xs <= i <= s.bounds.xe,
        j <= s.bounds.ye + 1,
    ensures
        s.slice_weight(h, i, j) == if holds(s, x, y, z) && i == x && y < j {
            one_more(s.slice_weight(g, i, j), x - s.hit[0], y - s.hit[1], z - s.hit[2])
        } else {
            s.slice_weight(g, i, j)
        },
    decreases j - s.bounds.ys,
{
    if j > s.bounds.ys {
        lemma_slice_more(s, g, h, i, j - 1, x, y, z);
        let end = s.end(i, j - 1);
        lemma_column_range(s, i, j - 1, z);
        if i == x && j - 1 == y {
            assert(same_column(g, h, i, j - 1, z));
            let n = s.column_solid(g, i, j - 1, end);
            if holds(s, x, y, z) {
                lemma_column_with(s, g, h, i, j - 1, end, z);
            } else {
                lemma_column_without(s, g, h, i, j - 1, end, z);
            }
            assert((x - s.hit[0]) * (n + 1) == (x - s.hit[0]) * n + (x - s.hit[0]))
                by (nonlinear_arith);
            assert((y - s.hit[1]) * (n + 1) == (y - s.hit[1]) * n + (y - s.hit[1]))
                by (nonlinear_arith);
        } else {
            assert forall|k: int| #[trigger]
                world_query::cube_at(g, i, j - 1, k) == world_query::cube_at(h, i, j - 1, k) by {}
            assert(same_column(g, h, i, j - 1, s.top(i, j - 1) - 1));
            lemma_column_without(s, g, h, i, j - 1, end, s.top(i, j - 1) - 1);
        }
    }
}

proof fn lemma_weight_more(s: Sphere, g: GridView<'_>, h: GridView<'_>, i: int, x: int, y: int, z: int)
    requires
        same_but(g, h, x, y, z),
        world_query::cube_at(g, x, y, z) == Cube::Air,
        world_query::cube_at(h, x, y, z) != Cube::Air,
        i <= s.bounds.xe + 1,
    ensures
        s.weight(h, i) == if holds(s, x, y, z) && x < i {
            one_more(s.weight(g, i), x - s.hit[0], y - s.hit[1], z - s.hit[2])
        } else {
            s.weight(g, i)
        },
    decreases i - s.bounds.xs,
{
    if i > s.bounds.xs {
        lemma_weight_more(s, g, h, i - 1, x, y, z);
        lemma_slice_more(s, g, h, i - 1, s.bounds.ye + 1, x, y, z);
    }
}

/// Each solid voxel of the sphere adds its own position, counted from the
/// centre, to the sums, and one to their number: of two maps that agree on
/// all voxels but one, which is air in the first and solid in the second,
/// the sphere weighs so much more in the second where it holds that voxel,
/// and the same where it does not.
pub proof fn lemma_voxel_adds_its_position(
    s: Sphere,
    g: GridView<'_>,
    h: GridView<'_>,
    x: int,
    y: int,
    z: int,
)
    requires
        same_but(g, h, x, y, z),
        world_query::cube_at(g, x, y, z) == Cube::Air,
        world_query::cube_at(h, x, y, z) != Cube::Air,
    ensures
        ({
            let a = s.weight(g, s.bounds.xe + 1);
            let b = s.weight(h, s.bounds.xe + 1);
            if holds(s, x, y, z) {
                &&& b.0 == a.0 + (x - s.hit[0])
                &&& b.1 == a.1 + (y - s.hit[1])
                &&& b.2 == a.2 + (z - s.hit[2])
                &&& b.3 == a.3 + 1
            } else {
                a == b
            }
        }),
{
    lemma_weight_more(s, g, h, s.bounds.xe + 1, x, y, z);
}

/// Whether all solid voxels of the sphere lie in a box.
pub open spec fn solid_within(s: Sphere, g: GridView<'_>, lo: [int; 3], hi: [int; 3]) -> bool {
    forall|x: int, y: int, z: int|
        holds(s, x, y, z) && #[trigger] world_query::cube_at(g, x, y, z) != Cube::Air ==> {
            &&& lo[0] <= x <= hi[0]
            &&& lo[1] <= y <= hi[1]
            &&& lo[2] <= z <= hi[2]
        }
}

proof fn lemma_column_within(s: Sphere, g: GridView<'_>, x: int, y: int, z: int, lo: [int; 3], hi: [int; 3])
    requires
        solid_within(s, g, lo, hi),
        s.bounds.has(x, y),
        z <= s.end(x, y),
    ensures
        ({
            let n = s.column_solid(g, x, y, z);
            &&& n >= 0
            &&& n * (lo[2] - s.hit[2]) <= s.column_heights(g, x, y, z) <= n * (hi[2] - s.hit[2])
            &&& n > 0 ==> lo[0] <= x <= hi[0] && lo[1] <= y <= hi[1]
        }),
    decreases z - s.top(x, y),
{
    let (a, b) = (lo[2] - s.hit[2], hi[2] - s.hit[2]);
    assert(0 * a == 0 && 0 * b == 0);
    if z > s.top(x, y) {
        lemma_column_within(s, g, x, y, z - 1, lo, hi);
        lemma_column_range(s, x, y, z - 1);
        let n = s.column_solid(g, x, y, z - 1);
        assert((n + 1) * a == n * a + a) by (nonlinear_arith);
        assert((n + 1) * b == n * b + b) by (nonlinear_arith);
        if world_query::cube_at(g, x, y, z - 1) != Cube::Air {
            assert(holds(s, x, y, z - 1));
        }
    }
}

/// Whether a weight is that of voxels in a box.
pub open spec fn mean_within(s: Sphere, w: (int, int, int, int), lo: [int; 3], hi: [int; 3]) -> bool {
    &&& w.3 >= 0
    &&& w.3 * (lo[0] - s.hit[0]) <= w.0 <= w.3 * (hi[0] - s.hit[0])
    &&& w.3 * (lo[1] - s.hit[1]) <= w.1 <= w.3 * (hi[1] - s.hit[1])
    &&& w.3 * (lo[2] - s.hit[2]) <= w.2 <= w.3 * (hi[2] - s.hit[2])
}

proof fn lemma_within_add(
    s: Sphere,
    v: (int, int, int, int),
    w: (int, int, int, int),
    lo: [int; 3],
    hi: [int; 3],
)
    requires
        mean_within(s, v, lo, hi),
        mean_within(s, w, lo, hi),
    ensures
        mean_within(s, (v.0 + w.0, v.1 + w.1, v.2 + w.2, v.3 + w.3), lo, hi),
{
    let (n, m) = (v.3, w.3);
    assert((n + m) * (lo[0] - s.hit[0]) == n * (lo[0] - s.hit[0]) + m * (lo[0] - s.hit[0]))
        by (nonlinear_arith);
    assert((n + m) * (hi[0] - s.hit[0]) == n * (hi[0] - s.hit[0]) + m * (hi[0] - s.hit[0]))
        by (nonlinear_arith);
    assert((n + m) * (lo[1] - s.hit[1]) == n * (lo[1] - s.hit[1]) + m * (lo[1] - s.hit[1]))
        by (nonlinear_arith);
    assert((n + m) * (hi[1] - s.hit[1]) == n * (hi[1] - s.hit[1]) + m * (hi[1] - s.hit[1]))
        by (nonlinear_arith);
    assert((n + m) * (lo[2] - s.hit[2]) == n * (lo[2] - s.hit[2]) + m * (lo[2] - s.hit[2]))
        by (nonlinear_arith);
    assert((n + m) * (hi[2] - s.hit[2]) == n * (hi[2] - s.hit[2]) + m * (hi[2] - s.hit[2]))
        by (nonlinear_arith);
}

proof fn lemma_slice_within(s: Sphere, g: GridView<'_>, x: int, y: int, lo: [int; 3], hi: [int; 3])
    requires
        solid_within(s, g, lo, hi),
        s.bounds.xs <= x <= s.bounds.xe,
        y <= s.bounds.ye + 1,
    ensures
        mean_within(s, s.slice_weight(g, x, y), lo, hi),
    decreases y - s.bounds.ys,
{
    if y > s.bounds.ys {
        lemma_slice_within(s, g, x, y - 1, lo, hi);
        let end = s.end(x, y - 1);
        lemma_column_within(s, g, x, y - 1, end, lo, hi);
        let n = s.column_solid(g, x, y - 1, end);
        let c = (
            (x - s.hit[0]) * n,
            (y - 1 - s.hit[1]) * n,
            s.column_heights(g, x, y - 1, end),
            n,
        );
        lemma_times(n, lo[0] - s.hit[0], x - s.hit[0], hi[0] - s.hit[0]);
        lemma_times(n, lo[1] - s.hit[1], y - 1 - s.hit[1], hi[1] - s.hit[1]);
        lemma_within_add(s, s.slice_weight(g, x, y - 1), c, lo, hi);
    } else {
        lemma_nothing_within(s, lo, hi);
    }
}

proof fn lemma_nothing_within(s: Sphere, lo: [int; 3], hi: [int; 3])
    ensures
        mean_within(s, (0, 0, 0, 0), lo, hi),
{
}

proof fn lemma_times(n: int, a: int, b: int, c: int)
    requires
        n >= 0,
        n > 0 ==> a <= b <= c,
    ensures
        n * a <= b * n <= n * c,
{
    assert(n * a <= b * n <= n * c) by (nonlinear_arith)
        requires
            n >= 0,
            n > 0 ==> a <= b <= c,
    ;
}

proof fn lemma_weight_within(s: Sphere, g: GridView<'_>, x: int, lo: [int; 3], hi: [int; 3])
    requires
        solid_within(s, g, lo, hi),
        x <= s.bounds.xe + 1,
    ensures
        mean_within(s, s.weight(g, x), lo, hi),
    decreases x - s.bounds.xs,
{
    if x > s.bounds.xs {
        lemma_weight_within(s, g, x - 1, lo, hi);
        lemma_slice_within(s, g, x - 1, s.bounds.ye + 1, lo, hi);
        lemma_within_add(
            s,
            s.weight(g, x - 1),
            s.slice_weight(g, x - 1, s.bounds.ye + 1),
            lo,
            hi,
        );
    } else {
        lemma_nothing_within(s, lo, hi);
    }
}

/// The mean position of the solid voxels lies in every box that holds all
/// of them: each sum, counted from the centre, is between so many times the
/// nearest and so many times the farthest position as there are voxels.
/// Where they all lie at one height the sum is that height's, so many
/// times.
pub proof fn lemma_mean_lies_among_voxels(s: Sphere, g: GridView<'_>, lo: [int; 3], hi: [int; 3])
    requires
        solid_within(s, g, lo, hi),
    ensures
        ({
            let w = s.weight(g, s.bounds.xe + 1);
            &&& w.3 >= 0
            &&& w.3 * (lo[0] - s.hit[0]) <= w.0 <= w.3 * (hi[0] - s.hit[0])
            &&& w.3 * (lo[1] - s.hit[1]) <= w.1 <= w.3 * (hi[1] - s.hit[1])
            &&& w.3 * (lo[2] - s.hit[2]) <= w.2 <= w.3 * (hi[2] - s.hit[2])
            &&& lo[2] == hi[2] ==> w.2 == w.3 * (lo[2] - s.hit[2])
        }),
{
    lemma_weight_within(s, g, s.bounds.xe + 1, lo, hi);
}

// ---------------------------------------------------------------------
// What comes into the sprite.

/// Whether a voxel of the sprite is that of height `z` of a column.
pub open spec fn cut_from(s: Sphere, g: GridView<'_>, x: int, y: int, z: int, v: Voxel) -> bool {
    world_query::cube_at(g, x, y, z) matches Cube::Color(c) && v.col == meltsphere::lit(c) && v.z
        == (z - s.bounds.zs) as u16 && v.vis == 63 && v.dir == 0
}

/// A column of the sprite has one voxel for each coloured one of the map
/// that the sphere holds there, with its colour at full brightness and its
/// height counted from the top of the box; the higher ones come first.
pub proof fn lemma_column_is_cut(s: Sphere, g: GridView<'_>, x: int, y: int, end: int)
    requires
        s.bounds.has(x, y),
        0 <= s.bounds.zs,
        s.bounds.ze <= 255,
        end <= s.end(x, y),
    ensures
        forall|i: int|
            0 <= i < s.column_voxels(g, x, y, end).len() ==> {
                let v = #[trigger] s.column_voxels(g, x, y, end)[i];
                let z = v.z + s.bounds.zs;
                &&& holds(s, x, y, z) && z < end
                &&& cut_from(s, g, x, y, z, v)
            },
        forall|i: int, j: int|
            0 <= i < j < s.column_voxels(g, x, y, end).len() ==> (#[trigger] s.column_voxels(
                g,
                x,
                y,
                end,
            )[i]).z < (#[trigger] s.column_voxels(g, x, y, end)[j]).z,
        forall|z: int|
            holds(s, x, y, z) && z < end && (#[trigger] world_query::cube_at(g, x, y, z)) is Color
                ==> exists|i: int|
                0 <= i < s.column_voxels(g, x, y, end).len() && (#[trigger] s.column_voxels(
                    g,
                    x,
                    y,
                    end,
                )[i]).z == z - s.bounds.zs,
    decreases end - s.top(x, y),
{
    if end > s.top(x, y) {
        lemma_column_is_cut(s, g, x, y, end - 1);
        lemma_column_range(s, x, y, end - 1);
        let above = s.column_voxels(g, x, y, end - 1);
        let all = s.column_voxels(g, x, y, end);
        assert(holds(s, x, y, end - 1));
        assert forall|i: int| 0 <= i < above.len() implies all[i] == #[trigger] above[i] by {}
        assert forall|z: int|
            holds(s, x, y, z) && z < end && (#[trigger] world_query::cube_at(
                g,
                x,
                y,
                z,
            )) is Color implies exists|i: int|
            0 <= i < all.len() && (#[trigger] all[i]).z == z - s.bounds.zs by {
            if z < end - 1 {
                let i = choose|i: int|
                    0 <= i < above.len() && (#[trigger] above[i]).z == z - s.bounds.zs;
                assert(all[i] == above[i]);
            } else {
                assert(all[all.len() - 1].z == z - s.bounds.zs);
            }
        }
    } else {
        assert forall|z: int| holds(s, x, y, z) && z < end implies false by {
            lemma_column_range(s, x, y, z);
        }
    }
}

/// The columns of a sprite come along y in a slice, and the slices along
/// x: the voxels of column `(x, y)` follow those of the slices before `x`
/// and of the columns of its slice before `y`.
pub proof fn lemma_columns_in_order(s: Sphere, g: GridView<'_>, x: int, y: int, i: int)
    requires
        s.bounds.has(x, y),
        0 <= i < s.column(g, x, y).len(),
    ensures
        ({
            let all = s.voxels(g, s.bounds.xe + 1);
            let at = s.voxels(g, x).len() + s.slice_voxels(g, x, y).len() + i;
            &&& at < all.len()
            &&& all[at] == s.column(g, x, y)[i]
        }),
{
    lemma_in_slice(s, g, x, y, s.bounds.ye + 1, i);
    lemma_in_sprite(s, g, x, s.bounds.xe + 1, s.slice_voxels(g, x, y).len() + i);
}

proof fn lemma_in_slice(s: Sphere, g: GridView<'_>, x: int, y: int, end: int, i: int)
    requires
        s.bounds.ys <= y < end,
        0 <= i < s.column(g, x, y).len(),
    ensures
        s.slice_voxels(g, x, y).len() + i < s.slice_voxels(g, x, end).len(),
        s.slice_voxels(g, x, end)[s.slice_voxels(g, x, y).len() + i] == s.column(g, x, y)[i],
    decreases end - y,
{
    if y + 1 < end {
        lemma_in_slice(s, g, x, y, end - 1, i);
    }
}

proof fn lemma_in_sprite(s: Sphere, g: GridView<'_>, x: int, end: int, i: int)
    requires
        s.bounds.xs <= x < end,
        0 <= i < s.slice(g, x).len(),
    ensures
        s.voxels(g, x).len() + i < s.voxels(g, end).len(),
        s.voxels(g, end)[s.voxels(g, x).len() + i] == s.slice(g, x)[i],
    decreases end - x,
{
    if x + 1 < end {
        lemma_in_sprite(s, g, x, end - 1, i);
    }
}

/// A weight keeps the three sums and the number of voxels, each in its
/// own place.
pub proof fn lemma_weight_keeps_sums(s: Weight, w: (int, int, int, int))
    requires
        s.is(w),
        i32::MIN <= w.0 <= i32::MAX,
        i32::MIN <= w.1 <= i32::MAX,
        i32::MIN <= w.2 <= i32::MAX,
    ensures
        s.cx == w.0,
        s.cy == w.1,
        s.cz == w.2,
        s.cw == w.3,
{
}

// ---------------------------------------------------------------------
// Colours.

/// A voxel's colour is scaled by its brightness, 128 for whole, rounded
/// down and cut to a byte; the brightness byte is cleared.
pub proof fn lemma_lit_scales(c: u32, i: int)
    requires
        0 <= i < 3,
    ensures
        ({
            let (x, a) = (color::byte_of(c, i), color::byte_of(c, 3));
            let r = color::byte_of(meltsphere::lit(c), i);
            &&& color::byte_of(meltsphere::lit(c), 3) == 0
            &&& r < 255 ==> 128 * r <= x * a < 128 * r + 128
            &&& r == 255 ==> x * a >= 128 * 255
        }),
{
    let a = color::byte_of(c, 3);
    lemma_nonnegative(color::byte_of(c, 0), a);
    lemma_nonnegative(color::byte_of(c, 1), a);
    lemma_nonnegative(color::byte_of(c, 2), a);
    color::lemma_bytes_of_packed(
        meltsphere::lit_channel(c, 0),
        meltsphere::lit_channel(c, 1),
        meltsphere::lit_channel(c, 2),
        0,
    );
}

proof fn lemma_nonnegative(x: int, a: int)
    requires
        0 <= x,
        0 <= a,
    ensures
        0 <= x * a,
{
    assert(0 <= x * a) by (nonlinear_arith)
        requires
            0 <= x,
            0 <= a,
    ;
}

} // verus!
