//! Cutting a sphere of voxels out of the map as a sprite.
use crate::arith;
use crate::color;
use crate::color::{bytes_of, pack};
use crate::dda::sound::can_paint;
use crate::edit::MAXZDIM;
use crate::grid_view::GridView;
use crate::kv6;
use crate::kv6::{Kv6, Voxel};
use crate::world_query;
use crate::world_query::{getcube, Cube};
use vstd::prelude::*;

pub use crate::powers::{PowerTables, SETSPHMAXRAD};

pub mod laws;

verus! {

/// A colour channel scaled by a brightness of 128 for neutral.
pub open spec fn lit_channel(i: u32, k: int) -> int {
    arith::min_int(color::byte_of(i, k) * color::byte_of(i, 3) / 0x80, 255)
}

/// The colour with its brightness byte applied to the others and cleared.
pub open spec fn lit(i: u32) -> u32 {
    color::packed(lit_channel(i, 0), lit_channel(i, 1), lit_channel(i, 2), 0)
}

fn scaled(c: u32, b: u32) -> (r: u32)
    requires
        c < 0x100,
        b < 0x100,
    ensures
        r == arith::min_int(c * b / 0x80, 255),
        r < 0x100,
{
    assert(c * b <= 0xffff) by (nonlinear_arith)
        requires
            c < 0x100,
            b < 0x100,
    ;
    let v: u32 = c * b / 0x80;
    if v > 255 {
        255
    } else {
        v
    }
}

/// Applies the brightness byte to the other channels and clears it.
#[must_use]
pub fn lightvox(i: u32) -> (r: u32)
    ensures
        r == lit(i),
{
    let b: [u32; 4] = bytes_of(i);
    assert(b[0] < 0x100 && b[1] < 0x100 && b[2] < 0x100 && b[3] < 0x100);
    pack([scaled(b[0], b[3]), scaled(b[1], b[3]), scaled(b[2], b[3]), 0])
}

/// Neutral brightness keeps a colour.
pub proof fn lemma_neutral_brightness(i: u32)
    requires
        color::byte_of(i, 3) == 0x80,
    ensures
        lit(i) == i - 0x8000_0000,
{
}

/// No brightness gives black.
pub proof fn lemma_no_brightness(i: u32)
    requires
        color::byte_of(i, 3) == 0,
    ensures
        lit(i) == 0,
{
}

/// The part of the map that a sphere can touch, both ends included.
#[derive(Debug, Clone, Copy, PartialEq, Eq, Structural)]
pub struct SphereBox {
    pub xs: i32,
    pub xe: i32,
    pub ys: i32,
    pub ye: i32,
    pub zs: i32,
    pub ze: i32,
}

impl SphereBox {
    /// Number of slices.
    pub open spec fn width(self) -> int {
        self.xe - self.xs + 1
    }

    /// Number of columns in a slice.
    pub open spec fn depth(self) -> int {
        self.ye - self.ys + 1
    }

    /// Whether the box holds the column.
    pub open spec fn has(self, x: int, y: int) -> bool {
        self.xs <= x <= self.xe && self.ys <= y <= self.ye
    }

    /// Position of the column among the columns of the box.
    pub open spec fn index(self, x: int, y: int) -> int {
        (x - self.xs) * self.depth() + (y - self.ys)
    }
}

/// The box of a sphere in a map of side `vsid`; `None` where it misses
/// the map.
pub open spec fn box_of(vsid: u32, hit: [i32; 3], hitrad: i32) -> Option<SphereBox> {
    let b = SphereBox {
        xs: arith::max_int(hit[0] - hitrad, 0) as i32,
        xe: arith::min_int(hit[0] + hitrad, vsid as i32 - 1) as i32,
        ys: arith::max_int(hit[1] - hitrad, 0) as i32,
        ye: arith::min_int(hit[1] + hitrad, vsid as i32 - 1) as i32,
        zs: arith::max_int(hit[2] - hitrad, 0) as i32,
        ze: arith::min_int(hit[2] + hitrad, MAXZDIM - 1) as i32,
    };
    if b.xs > b.xe || b.ys > b.ye || b.zs > b.ze {
        None
    } else {
        Some(b)
    }
}

/// Whether the corners of the box stay in range.
pub open spec fn box_fits(vsid: u32, hit: [i32; 3], hitrad: i32) -> bool {
    &&& vsid as i32 != i32::MIN
    &&& forall|k: int|
        0 <= k < 3 ==> i32::MIN <= (#[trigger] hit[k]) - hitrad <= i32::MAX && i32::MIN <= hit[k]
            + hitrad <= i32::MAX
}

fn clip_low(v: i32) -> (r: i32)
    ensures
        r == arith::max_int(v as int, 0),
{
    if v > 0 {
        v
    } else {
        0
    }
}

fn clip_high(v: i32, high: i32) -> (r: i32)
    ensures
        r == arith::min_int(v as int, high as int),
{
    if v < high {
        v
    } else {
        high
    }
}

/// The box of a sphere in a map of side `vsid`; `None` where it misses
/// the map.
#[must_use]
pub fn sphere_box(vsid: u32, hit: [i32; 3], hitrad: i32) -> (r: Option<SphereBox>)
    requires
        box_fits(vsid, hit, hitrad),
    ensures
        r == box_of(vsid, hit, hitrad),
{
    let side: i32 = vsid as i32;
    let b: SphereBox = SphereBox {
        xs: clip_low(hit[0] - hitrad),
        xe: clip_high(hit[0] + hitrad, side - 1),
        ys: clip_low(hit[1] - hitrad),
        ye: clip_high(hit[1] + hitrad, side - 1),
        zs: clip_low(hit[2] - hitrad),
        ze: clip_high(hit[2] + hitrad, MAXZDIM - 1),
    };
    if b.xs > b.xe || b.ys > b.ye || b.zs > b.ze {
        None
    } else {
        Some(b)
    }
}

/// Tells whether the corners of the box stay in range.
fn box_is_in_range(vsid: u32, hit: [i32; 3], hitrad: i32) -> (r: bool)
    ensures
        r == box_fits(vsid, hit, hitrad),
{
    if vsid as i32 == i32::MIN {
        return false;
    }
    let mut k: usize = 0;
    while k < 3
        invariant
            k <= 3,
            forall|j: int|
                0 <= j < k ==> i32::MIN <= (#[trigger] hit[j]) - hitrad <= i32::MAX && i32::MIN
                    <= hit[j] + hitrad <= i32::MAX,
        decreases 3 - k,
    {
        let (h, d) = (hit[k] as i64, hitrad as i64);
        let (lo, hi) = (i32::MIN as i64, i32::MAX as i64);
        if h - d < lo || h - d > hi || h + d < lo || h + d > hi {
            assert(!(i32::MIN <= hit[k as int] - hitrad <= i32::MAX && i32::MIN <= hit[k as int]
                + hitrad <= i32::MAX));
            return false;
        }
        k += 1;
    }
    true
}

/// A sphere to cut: its box, its centre, and for each column of the box
/// how far the sphere reaches above and below the centre there, or a
/// negative number where it does not.
pub struct Sphere {
    pub bounds: SphereBox,
    pub hit: [i32; 3],
    pub reach: Seq<i32>,
}

impl Sphere {
    /// The first height of the sphere in a column.
    pub open spec fn top(self, x: int, y: int) -> int {
        let r = self.reach[self.bounds.index(x, y)];
        if r < 0 {
            0
        } else {
            arith::max_int(self.hit[2] - r, self.bounds.zs as int)
        }
    }

    /// The end of the sphere in a column. The lowest height of the box is
    /// left out.
    pub open spec fn end(self, x: int, y: int) -> int {
        let r = self.reach[self.bounds.index(x, y)];
        if r < 0 {
            0
        } else {
            arith::min_int(self.hit[2] + r + 1, self.bounds.ze as int)
        }
    }

    /// The coloured voxels of a column above `z`, top to bottom.
    pub open spec fn column_voxels(self, grid: GridView<'_>, x: int, y: int, z: int) -> Seq<Voxel>
        decreases z - self.top(x, y),
    {
        if z <= self.top(x, y) {
            Seq::empty()
        } else {
            let above = self.column_voxels(grid, x, y, z - 1);
            match world_query::cube_at(grid, x, y, z - 1) {
                Cube::Color(c) => above.push(
                    Voxel { col: lit(c), z: (z - 1 - self.bounds.zs) as u16, vis: 63, dir: 0 },
                ),
                _ => above,
            }
        }
    }

    /// The coloured voxels of a whole column.
    pub open spec fn column(self, grid: GridView<'_>, x: int, y: int) -> Seq<Voxel> {
        self.column_voxels(grid, x, y, self.end(x, y))
    }

    /// The coloured voxels of the columns of slice `x` before `y`.
    pub open spec fn slice_voxels(self, grid: GridView<'_>, x: int, y: int) -> Seq<Voxel>
        decreases y - self.bounds.ys,
    {
        if y <= self.bounds.ys {
            Seq::empty()
        } else {
            self.slice_voxels(grid, x, y - 1) + self.column(grid, x, y - 1)
        }
    }

    /// The coloured voxels of a whole slice.
    pub open spec fn slice(self, grid: GridView<'_>, x: int) -> Seq<Voxel> {
        self.slice_voxels(grid, x, self.bounds.ye + 1)
    }

    /// The coloured voxels of the slices before `x`.
    pub open spec fn voxels(self, grid: GridView<'_>, x: int) -> Seq<Voxel>
        decreases x - self.bounds.xs,
    {
        if x <= self.bounds.xs {
            Seq::empty()
        } else {
            self.voxels(grid, x - 1) + self.slice(grid, x - 1)
        }
    }

    /// Number of solid voxels of a column above `z`.
    pub open spec fn column_solid(self, grid: GridView<'_>, x: int, y: int, z: int) -> int
        decreases z - self.top(x, y),
    {
        if z <= self.top(x, y) {
            0
        } else {
            self.column_solid(grid, x, y, z - 1) + if world_query::cube_at(grid, x, y, z - 1)
                == Cube::Air {
                0int
            } else {
                1int
            }
        }
    }

    /// Sum of the heights of the solid voxels of a column above `z`,
    /// counted from the centre.
    pub open spec fn column_heights(self, grid: GridView<'_>, x: int, y: int, z: int) -> int
        decreases z - self.top(x, y),
    {
        if z <= self.top(x, y) {
            0
        } else {
            self.column_heights(grid, x, y, z - 1) + if world_query::cube_at(grid, x, y, z - 1)
                == Cube::Air {
                0int
            } else {
                z - 1 - self.hit[2]
            }
        }
    }

    /// Number of solid voxels, and sums of their positions counted from
    /// the centre, over the columns of slice `x` before `y`.
    pub open spec fn slice_weight(self, grid: GridView<'_>, x: int, y: int) -> (int, int, int, int)
        decreases y - self.bounds.ys,
    {
        if y <= self.bounds.ys {
            (0, 0, 0, 0)
        } else {
            let w = self.slice_weight(grid, x, y - 1);
            let n = self.column_solid(grid, x, y - 1, self.end(x, y - 1));
            (
                w.0 + (x - self.hit[0]) * n,
                w.1 + (y - 1 - self.hit[1]) * n,
                w.2 + self.column_heights(grid, x, y - 1, self.end(x, y - 1)),
                w.3 + n,
            )
        }
    }

    /// The same over the slices before `x`.
    pub open spec fn weight(self, grid: GridView<'_>, x: int) -> (int, int, int, int)
        decreases x - self.bounds.xs,
    {
        if x <= self.bounds.xs {
            (0, 0, 0, 0)
        } else {
            let w = self.weight(grid, x - 1);
            let s = self.slice_weight(grid, x - 1, self.bounds.ye + 1);
            (w.0 + s.0, w.1 + s.1, w.2 + s.2, w.3 + s.3)
        }
    }
}

/// What was found in a sphere so far: the sums of the positions of its
/// solid voxels counted from the centre, and their number.
#[derive(Debug, Clone, Copy, PartialEq, Eq, Structural)]
pub struct Weight {
    pub cx: i32,
    pub cy: i32,
    pub cz: i32,
    pub cw: u32,
}

impl Weight {
    /// Whether this is `w`, with sums that wrap.
    pub open spec fn is(self, w: (int, int, int, int)) -> bool {
        &&& self.cx == arith::wrap32(w.0)
        &&& self.cy == arith::wrap32(w.1)
        &&& self.cz == arith::wrap32(w.2)
        &&& self.cw == w.3
    }
}

/// Adds to a sum that wraps.
fn add_wrapped(a: i32, d: i32, t: Ghost<int>) -> (r: i32)
    requires
        a == arith::wrap32(t@),
    ensures
        r == arith::wrap32(t@ + d),
{
    proof {
        arith::lemma_wrapping(a, d);
        arith::lemma_wrap_twice(t@, d as int);
    }
    a.wrapping_add(d)
}

/// A column has no more voxels than heights.
proof fn lemma_column_bounds(s: Sphere, grid: GridView<'_>, x: int, y: int, z: int)
    requires
        s.top(x, y) <= z,
    ensures
        s.column_voxels(grid, x, y, z).len() <= z - s.top(x, y),
        0 <= s.column_solid(grid, x, y, z) <= z - s.top(x, y),
    decreases z - s.top(x, y),
{
    if z > s.top(x, y) {
        lemma_column_bounds(s, grid, x, y, z - 1);
    }
}

proof fn lemma_column_small(s: Sphere, grid: GridView<'_>, x: int, y: int)
    requires
        0 <= s.bounds.zs,
        s.bounds.ze <= 255,
    ensures
        s.column(grid, x, y).len() <= 256,
        0 <= s.column_solid(grid, x, y, s.end(x, y)) <= 256,
{
    if s.end(x, y) >= s.top(x, y) {
        lemma_column_bounds(s, grid, x, y, s.end(x, y));
    }
}

/// Whether a sphere can be cut out of the map.
pub open spec fn cuttable(s: Sphere, grid: GridView<'_>) -> bool {
    let b = s.bounds;
    &&& 0 <= b.xs <= b.xe
    &&& 0 <= b.ys <= b.ye
    &&& 0 <= b.zs <= b.ze <= 255
    &&& s.hit[0] - b.xs <= 255 && b.xe - s.hit[0] <= 255
    &&& s.hit[1] - b.ys <= 255 && b.ye - s.hit[1] <= 255
    &&& s.reach.len() == b.width() * b.depth()
    &&& forall|i: int| 0 <= i < s.reach.len() ==> #[trigger] s.reach[i] <= 255
    &&& forall|x: int, y: int|
        b.has(x, y) && touches_column(s, x, y) ==> #[trigger] grid.paintable(x, y, 0)
}

/// The position of a column of the box is within the columns.
proof fn lemma_column_index(b: SphereBox, x: int, y: int)
    requires
        b.has(x, y),
    ensures
        0 <= b.index(x, y) < b.width() * b.depth(),
{
    assert(0 <= (x - b.xs) * b.depth() && (x - b.xs) * b.depth() + b.depth() <= b.width()
        * b.depth()) by (nonlinear_arith)
        requires
            0 <= x - b.xs,
            x - b.xs + 1 <= b.width(),
            b.depth() > 0,
    ;
}

/// Takes the voxels of one column.
fn melt_column(
    grid: &GridView<'_>,
    b: &SphereBox,
    hit: [i32; 3],
    r: i32,
    x: i32,
    y: i32,
    voxels: &mut Vec<Voxel>,
    w: &mut Weight,
    s: Ghost<Sphere>,
    t: Ghost<(int, int, int, int)>,
)
    requires
        cuttable(s@, *grid),
        i32::MIN + 256 <= hit[2] <= i32::MAX - 256,
        s@.bounds == *b,
        s@.hit == hit,
        b.has(x as int, y as int),
        r == s@.reach[b.index(x as int, y as int)],
        old(w).is(t@),
        0 <= t@.3 <= 0x7fff_ff00,
    ensures
        final(voxels)@ == old(voxels)@ + s@.column(*grid, x as int, y as int),
        ({
            let n = s@.column_solid(*grid, x as int, y as int, s@.end(x as int, y as int));
            final(w).is(
                (
                    t@.0 + (x - hit[0]) * n,
                    t@.1 + (y - hit[1]) * n,
                    t@.2 + s@.column_heights(
                        *grid,
                        x as int,
                        y as int,
                        s@.end(x as int, y as int),
                    ),
                    t@.3 + n,
                ),
            )
        }),
{
    let ghost s = s@;
    let ghost t = t@;
    let ghost gx = x as int;
    let ghost gy = y as int;
    let ghost before = voxels@;
    proof {
        lemma_column_index(*b, gx, gy);
        assert(r <= 255);
        assert((x - hit[0]) * 0 == 0 && (y - hit[1]) * 0 == 0);
    }
    if r < 0 {
        assert(voxels@ =~= before + s.column(*grid, gx, gy));
        return;
    }
    let z0: i32 = if hit[2] - r > b.zs {
        hit[2] - r
    } else {
        b.zs
    };
    let z1: i32 = if hit[2] + r + 1 < b.ze {
        hit[2] + r + 1
    } else {
        b.ze
    };
    assert(z0 == s.top(gx, gy) && z1 == s.end(gx, gy));
    let mut z: i32 = z0;
    assert(voxels@ =~= before + s.column_voxels(*grid, gx, gy, z as int));
    while z < z1
        invariant
            cuttable(s, *grid),
            i32::MIN + 256 <= hit[2] <= i32::MAX - 256,
            s.bounds == *b,
            s.hit == hit,
            b.has(gx, gy),
            gx == x,
            gy == y,
            z0 == s.top(gx, gy),
            z1 == s.end(gx, gy),
            b.zs <= z0,
            z1 <= b.ze,
            z0 <= z,
            z <= z1 || z == z0,
            0 <= t.3 <= 0x7fff_ff00,
            voxels@ == before + s.column_voxels(*grid, gx, gy, z as int),
            w.is(
                (
                    t.0 + (x - hit[0]) * s.column_solid(*grid, gx, gy, z as int),
                    t.1 + (y - hit[1]) * s.column_solid(*grid, gx, gy, z as int),
                    t.2 + s.column_heights(*grid, gx, gy, z as int),
                    t.3 + s.column_solid(*grid, gx, gy, z as int),
                ),
            ),
        decreases z1 - z,
    {
        let ghost n = s.column_solid(*grid, gx, gy, z as int);
        proof {
            assert(grid.paintable(gx, gy, 0));
            lemma_column_bounds(s, *grid, gx, gy, z as int);
            assert((x - hit[0]) * (n + 1) == (x - hit[0]) * n + (x - hit[0])) by (nonlinear_arith);
            assert((y - hit[1]) * (n + 1) == (y - hit[1]) * n + (y - hit[1])) by (nonlinear_arith);
        }
        let c: Cube = getcube(grid, x as u32, y as u32, z as u32);
        let ghost above = voxels@;
        match c {
            Cube::Color(col) => {
                voxels.push(Voxel { col: lightvox(col), z: (z - b.zs) as u16, vis: 63, dir: 0 });
            },
            _ => {},
        }
        if c != Cube::Air {
            w.cx = add_wrapped(w.cx, x - hit[0], Ghost(t.0 + (x - hit[0]) * n));
            w.cy = add_wrapped(w.cy, y - hit[1], Ghost(t.1 + (y - hit[1]) * n));
            w.cz = add_wrapped(
                w.cz,
                z - hit[2],
                Ghost(t.2 + s.column_heights(*grid, gx, gy, z as int)),
            );
            w.cw = w.cw + 1;
        }
        z += 1;
        assert(voxels@ =~= before + s.column_voxels(*grid, gx, gy, z as int));
    }
    proof {
        if z > z1 {
            assert(s.column_voxels(*grid, gx, gy, z1 as int) =~= Seq::<Voxel>::empty());
        }
    }
}

/// A slice has no more voxels than its columns can hold.
proof fn lemma_slice_bounds(s: Sphere, grid: GridView<'_>, x: int, y: int)
    requires
        cuttable(s, grid),
        s.bounds.ys <= y <= s.bounds.ye + 1,
    ensures
        s.slice_voxels(grid, x, y).len() <= 256 * (y - s.bounds.ys),
        0 <= s.slice_weight(grid, x, y).3 <= 256 * (y - s.bounds.ys),
    decreases y - s.bounds.ys,
{
    if y > s.bounds.ys {
        lemma_slice_bounds(s, grid, x, y - 1);
        lemma_column_small(s, grid, x, y - 1);
    }
}

proof fn lemma_weight_bounds(s: Sphere, grid: GridView<'_>, x: int)
    requires
        cuttable(s, grid),
        s.bounds.xs <= x <= s.bounds.xe + 1,
    ensures
        0 <= s.weight(grid, x).3 <= 130_816 * (x - s.bounds.xs),
    decreases x - s.bounds.xs,
{
    if x > s.bounds.xs {
        lemma_weight_bounds(s, grid, x - 1);
        lemma_slice_bounds(s, grid, x - 1, s.bounds.ye + 1);
        assert(s.bounds.depth() <= 511);
        assert(s.slice_weight(grid, x - 1, s.bounds.ye + 1).3 <= 130_816);
    }
}

proof fn lemma_columns_sum(a: Seq<u16>, b: Seq<u16>, n: int)
    requires
        n <= a.len(),
        n <= b.len(),
        forall|i: int| 0 <= i < n ==> a[i] == b[i],
    ensures
        kv6::columns_sum(a, n) == kv6::columns_sum(b, n),
    decreases n,
{
    if n > 0 {
        lemma_columns_sum(a, b, n - 1);
    }
}

proof fn lemma_slices_sum(a: Seq<u32>, b: Seq<u32>, n: int)
    requires
        n <= a.len(),
        n <= b.len(),
        forall|i: int| 0 <= i < n ==> a[i] == b[i],
    ensures
        kv6::slices_sum(a, n) == kv6::slices_sum(b, n),
    decreases n,
{
    if n > 0 {
        lemma_slices_sum(a, b, n - 1);
    }
}

/// Takes the voxels of one slice, and returns how many each of its
/// columns has.
fn melt_slice(
    grid: &GridView<'_>,
    b: &SphereBox,
    hit: [i32; 3],
    reach: &[i32],
    x: i32,
    voxels: &mut Vec<Voxel>,
    w: &mut Weight,
    s: Ghost<Sphere>,
    t: Ghost<(int, int, int, int)>,
) -> (ylen: Vec<u16>)
    requires
        cuttable(s@, *grid),
        i32::MIN + 256 <= hit[2] <= i32::MAX - 256,
        b.ye < i32::MAX,
        s@ == (Sphere { bounds: *b, hit, reach: reach@ }),
        b.xs <= x <= b.xe,
        old(w).is(t@),
        0 <= t@.3 <= 0x7fff_0000 - 130_816,
    ensures
        final(voxels)@ == old(voxels)@ + s@.slice(*grid, x as int),
        ({
            let d = s@.slice_weight(*grid, x as int, b.ye + 1);
            final(w).is((t@.0 + d.0, t@.1 + d.1, t@.2 + d.2, t@.3 + d.3))
        }),
        ylen@.len() == b.depth(),
        forall|j: int|
            0 <= j < b.depth() ==> #[trigger] ylen@[j] == s@.column(*grid, x as int, b.ys + j).len(),
        kv6::columns_sum(ylen@, b.depth()) == s@.slice(*grid, x as int).len(),
{
    let ghost s = s@;
    let ghost t = t@;
    let ghost gx = x as int;
    let ghost before = voxels@;
    let total: usize = reach.len();
    let depth: usize = (b.ye - b.ys) as usize + 1;
    let mut ylen: Vec<u16> = Vec::new();
    let mut y: i32 = b.ys;
    proof {
        lemma_column_index(*b, gx, b.ys as int);
    }
    let ghost row = (x - b.xs) * b.depth();
    let mut at: usize = (x - b.xs) as usize * depth;
    assert(voxels@ =~= before + s.slice_voxels(*grid, gx, y as int));
    while y <= b.ye
        invariant
            cuttable(s, *grid),
            i32::MIN + 256 <= hit[2] <= i32::MAX - 256,
            b.ye < i32::MAX,
            s == (Sphere { bounds: *b, hit, reach: reach@ }),
            gx == x,
            b.xs <= x <= b.xe,
            b.ys <= y <= b.ye + 1,
            total == reach@.len(),
            at == b.index(gx, y as int),
            ylen@.len() == y - b.ys,
            0 <= t.3 <= 0x7fff_0000 - 130_816,
            voxels@ == before + s.slice_voxels(*grid, gx, y as int),
            ({
                let d = s.slice_weight(*grid, gx, y as int);
                w.is((t.0 + d.0, t.1 + d.1, t.2 + d.2, t.3 + d.3))
            }),
            forall|j: int|
                0 <= j < y - b.ys ==> #[trigger] ylen@[j] == s.column(*grid, gx, b.ys + j).len(),
            kv6::columns_sum(ylen@, y - b.ys) == s.slice_voxels(*grid, gx, y as int).len(),
        decreases b.ye + 1 - y,
    {
        proof {
            lemma_column_index(*b, gx, y as int);
            lemma_slice_bounds(s, *grid, gx, y as int);
            lemma_column_small(s, *grid, gx, y as int);
        }
        let ghost d = s.slice_weight(*grid, gx, y as int);
        let ghost above = voxels@;
        let ghost lens = ylen@;
        let start: usize = voxels.len();
        melt_column(
            grid,
            b,
            hit,
            reach[at],
            x,
            y,
            voxels,
            w,
            Ghost(s),
            Ghost((t.0 + d.0, t.1 + d.1, t.2 + d.2, t.3 + d.3)),
        );
        let count: usize = voxels.len() - start;
        ylen.push(count as u16);
        proof {
            assert(s.slice_voxels(*grid, gx, y + 1) =~= s.slice_voxels(*grid, gx, y as int)
                + s.column(*grid, gx, y as int));
            assert(voxels@ =~= before + s.slice_voxels(*grid, gx, y + 1));
            lemma_columns_sum(lens, ylen@, y - b.ys);
        }
        y += 1;
        at += 1;
    }
    ylen
}

/// A sphere that was cut out of the map.
#[derive(Debug, Clone)]
pub struct MeltsphereOutput {
    /// Its coloured voxels.
    pub kv6: Kv6,
    /// Sums of the positions of its solid voxels counted from the centre,
    /// and their number.
    pub weight: Weight,
}

/// Whether the columns of slice `x` that the sphere touches can be read.
fn slice_is_readable(grid: &GridView<'_>, b: &SphereBox, hit: [i32; 3], reach: &[i32], x: i32) -> (r:
    bool)
    requires
        0 <= b.xs <= x <= b.xe,
        0 <= b.ys <= b.ye < i32::MAX,
        0 <= b.zs <= b.ze <= 255,
        x - b.xs <= 510,
        b.ye - b.ys <= 510,
        reach@.len() == b.width() * b.depth(),
    ensures
        r == forall|y: int|
            b.ys <= y <= b.ye && touches_column(
                (Sphere { bounds: *b, hit, reach: reach@ }),
                x as int,
                y,
            ) ==> #[trigger] grid.paintable(x as int, y, 0),
{
    let ghost s = Sphere { bounds: *b, hit, reach: reach@ };
    let depth: usize = (b.ye - b.ys) as usize + 1;
    let mut y: i32 = b.ys;
    while y <= b.ye
        invariant
            0 <= b.xs <= x <= b.xe,
            0 <= b.ys <= b.ye < i32::MAX,
            0 <= b.zs <= b.ze <= 255,
            x - b.xs <= 510,
            b.ye - b.ys <= 510,
            reach@.len() == b.width() * b.depth(),
            depth == b.depth(),
            s == (Sphere { bounds: *b, hit, reach: reach@ }),
            b.ys <= y <= b.ye + 1,
            forall|k: int|
                b.ys <= k < y && touches_column(s, x as int, k) ==> #[trigger] grid.paintable(
                    x as int,
                    k,
                    0,
                ),
        decreases b.ye + 1 - y,
    {
        proof {
            lemma_column_index(*b, x as int, y as int);
            assert(0 <= (x - b.xs) * depth <= 510 * 511) by (nonlinear_arith)
                requires
                    0 <= x - b.xs <= 510,
                    0 <= depth <= 511,
            ;
        }
        let r: i64 = reach[(x - b.xs) as usize * depth + (y - b.ys) as usize] as i64;
        let h: i64 = hit[2] as i64;
        let top: i64 = if h - r > b.zs as i64 {
            h - r
        } else {
            b.zs as i64
        };
        let end: i64 = if h + r + 1 < b.ze as i64 {
            h + r + 1
        } else {
            b.ze as i64
        };
        assert((r >= 0 && top < end) == touches_column(s, x as int, y as int));
        if r >= 0 && top < end && !can_paint(grid, x as u32, y as u32, 0) {
            assert(!grid.paintable(x as int, y as int, 0));
            return false;
        }
        y += 1;
    }
    true
}

/// Whether the sphere holds any height of a column.
pub open spec fn touches_column(s: Sphere, x: int, y: int) -> bool {
    s.top(x, y) < s.end(x, y)
}

/// Tells whether a sphere can be cut out of the map.
#[must_use]
pub fn can_cut(grid: &GridView<'_>, hit: [i32; 3], hitrad: i32, reach: &[i32]) -> (r: bool)
    ensures
        r == (box_fits(grid.vsid, hit, hitrad) && (box_of(grid.vsid, hit, hitrad) matches Some(b)
            ==> cuttable((Sphere { bounds: b, hit, reach: reach@ }), *grid))),
{
    if !box_is_in_range(grid.vsid, hit, hitrad) {
        return false;
    }
    let b: SphereBox = match sphere_box(grid.vsid, hit, hitrad) {
        Some(b) => b,
        None => return true,
    };
    let ghost s = Sphere { bounds: b, hit, reach: reach@ };
    let (x, y): (i64, i64) = (hit[0] as i64, hit[1] as i64);
    if x - b.xs as i64 > 255 || b.xe as i64 - x > 255 || y - b.ys as i64 > 255 || b.ye as i64 - y
        > 255 {
        return false;
    }
    let (width, depth) = ((b.xe - b.xs) as usize + 1, (b.ye - b.ys) as usize + 1);
    assert(0 <= width * depth <= 511 * 511) by (nonlinear_arith)
        requires
            0 <= width <= 511,
            0 <= depth <= 511,
    ;
    if reach.len() != width * depth {
        return false;
    }
    let mut i: usize = 0;
    while i < reach.len()
        invariant
            i <= reach@.len(),
            box_of(grid.vsid, hit, hitrad) == Some(b),
            forall|j: int| 0 <= j < i ==> #[trigger] reach@[j] <= 255,
        decreases reach@.len() - i,
    {
        if reach[i] > 255 {
            assert(reach@[i as int] > 255);
            return false;
        }
        i += 1;
    }
    let mut at: i32 = b.xs;
    while at <= b.xe
        invariant
            0 <= b.xs <= b.xe,
            0 <= b.ys <= b.ye < i32::MAX,
            0 <= b.zs <= b.ze <= 255,
            b.xe - b.xs <= 510,
            b.ye - b.ys <= 510,
            b.xe < i32::MAX,
            box_of(grid.vsid, hit, hitrad) == Some(b),
            reach@.len() == b.width() * b.depth(),
            s == (Sphere { bounds: b, hit, reach: reach@ }),
            b.xs <= at <= b.xe + 1,
            forall|k: int, y: int|
                b.xs <= k < at && b.ys <= y <= b.ye && touches_column(s, k, y)
                    ==> #[trigger] grid.paintable(k, y, 0),
        decreases b.xe + 1 - at,
    {
        if !slice_is_readable(grid, &b, hit, reach, at) {
            proof {
                let y = choose|y: int|
                    b.ys <= y <= b.ye && touches_column(s, at as int, y)
                        && !#[trigger] grid.paintable(at as int, y, 0);
                assert(b.has(at as int, y));
            }
            return false;
        }
        at += 1;
    }
    true
}

/// Cuts a sphere out of the map: `reach` says for each column of
/// [`sphere_box`] how far the sphere reaches above and below its centre
/// there, and is negative where it does not. `None` where the sphere
/// misses the map or has no coloured voxel.
#[must_use]
pub fn meltsphere(grid: &GridView<'_>, hit: [i32; 3], hitrad: i32, reach: &[i32]) -> (r: Option<
    MeltsphereOutput,
>)
    requires
        box_fits(grid.vsid, hit, hitrad),
        box_of(grid.vsid, hit, hitrad) matches Some(b) ==> cuttable(
            (Sphere { bounds: b, hit, reach: reach@ }),
            *grid,
        ),
    ensures
        match box_of(grid.vsid, hit, hitrad) {
            None => r is None,
            Some(b) => {
                let s = Sphere { bounds: b, hit, reach: reach@ };
                let all = s.voxels(*grid, b.xe + 1);
                match r {
                    None => all.len() == 0,
                    Some(out) => {
                        &&& all.len() > 0
                        &&& out.kv6.voxels@ == all
                        &&& out.kv6.xsiz == b.width()
                        &&& out.kv6.ysiz == b.depth()
                        &&& out.kv6.zsiz == b.ze - b.zs + 1
                        &&& out.kv6.shared_out()
                        &&& forall|i: int|
                            0 <= i < b.width() ==> #[trigger] out.kv6.xlen@[i] == s.slice(
                                *grid,
                                b.xs + i,
                            ).len()
                        &&& forall|i: int, j: int|
                            0 <= i < b.width() && 0 <= j < b.depth()
                                ==> #[trigger] out.kv6.ylen@[i]@[j] == s.column(
                                *grid,
                                b.xs + i,
                                b.ys + j,
                            ).len()
                        &&& out.weight.is(s.weight(*grid, b.xe + 1))
                    },
                }
            },
        },
{
    let b: SphereBox = match sphere_box(grid.vsid, hit, hitrad) {
        Some(b) => b,
        None => {
            return None;
        },
    };
    let ghost s = Sphere { bounds: b, hit, reach: reach@ };
    proof {
        assert(i32::MIN <= hit[2] - hitrad && hit[2] + hitrad <= i32::MAX);
        assert(i32::MIN + 256 <= hit[2] <= i32::MAX - 256);
    }
    let mut voxels: Vec<Voxel> = Vec::new();
    let mut xlen: Vec<u32> = Vec::new();
    let mut ylen: Vec<Vec<u16>> = Vec::new();
    let mut w: Weight = Weight { cx: 0, cy: 0, cz: 0, cw: 0 };
    let mut x: i32 = b.xs;
    while x <= b.xe
        invariant
            cuttable(s, *grid),
            i32::MIN + 256 <= hit[2] <= i32::MAX - 256,
            b.xe < i32::MAX,
            b.ye < i32::MAX,
            s == (Sphere { bounds: b, hit, reach: reach@ }),
            b.xs <= x <= b.xe + 1,
            voxels@ == s.voxels(*grid, x as int),
            w.is(s.weight(*grid, x as int)),
            xlen@.len() == x - b.xs,
            ylen@.len() == x - b.xs,
            kv6::slices_sum(xlen@, x - b.xs) == voxels@.len(),
            forall|i: int|
                0 <= i < x - b.xs ==> #[trigger] xlen@[i] == s.slice(*grid, b.xs + i).len(),
            forall|i: int|
                0 <= i < x - b.xs ==> (#[trigger] ylen@[i])@.len() == b.depth()
                    && kv6::columns_sum(ylen@[i]@, b.depth()) == xlen@[i],
            forall|i: int, j: int|
                0 <= i < x - b.xs && 0 <= j < b.depth() ==> #[trigger] ylen@[i]@[j] == s.column(
                    *grid,
                    b.xs + i,
                    b.ys + j,
                ).len(),
        decreases b.xe + 1 - x,
    {
        let ghost t = s.weight(*grid, x as int);
        let ghost lens = xlen@;
        proof {
            lemma_weight_bounds(s, *grid, x as int);
            assert(x - b.xs <= 511);
            assert(t.3 <= 66_846_976);
            lemma_slice_bounds(s, *grid, x as int, b.ye + 1);
        }
        let start: usize = voxels.len();
        let row: Vec<u16> = melt_slice(
            grid,
            &b,
            hit,
            reach,
            x,
            &mut voxels,
            &mut w,
            Ghost(s),
            Ghost(t),
        );
        let count: usize = voxels.len() - start;
        xlen.push(count as u32);
        ylen.push(row);
        proof {
            lemma_slices_sum(lens, xlen@, x - b.xs);
        }
        x += 1;
    }
    if voxels.len() == 0 {
        return None;
    }
    Some(
        MeltsphereOutput {
            kv6: Kv6 {
                xsiz: (b.xe - b.xs) as u32 + 1,
                ysiz: (b.ye - b.ys) as u32 + 1,
                zsiz: (b.ze - b.zs) as u32 + 1,
                voxels,
                xlen,
                ylen,
            },
            weight: w,
        },
    )
}

} // verus!
