//! Which blocks of a chunk hold anything solid, at two scales.
use crate::arith;
use crate::grid_view;
use crate::grid_view::{GridView, CHUNK_SIZE_Z};
use crate::slab;
use vstd::prelude::*;

verus! {

/// Edge of a brick in cells, and of a super-brick in bricks.
pub const BRICK: i32 = 8;

/// Edge of a super-brick in cells.
pub const SUPER: i32 = 64;

/// Bit `i` of a bit list.
pub open spec fn bit_at(bits: Seq<u64>, i: int) -> bool {
    (bits[i / 64] >> ((i % 64) as u64)) & 1 != 0
}

/// A box of cells, each marked or not.
#[derive(Debug)]
pub struct Occupancy {
    /// Number of cells along each axis.
    pub n: [i32; 3],
    /// One bit for each cell.
    pub bits: Vec<u64>,
}

impl Occupancy {
    /// Whether the box holds the cell.
    pub open spec fn in_range(self, x: int, y: int, z: int) -> bool {
        0 <= x < self.n[0] && 0 <= y < self.n[1] && 0 <= z < self.n[2]
    }

    /// Position of the cell's bit.
    pub open spec fn index(self, x: int, y: int, z: int) -> int {
        (z * self.n[1] + y) * self.n[0] + x
    }

    /// Number of cells.
    pub open spec fn volume(self) -> int {
        self.n[0] * self.n[1] * self.n[2]
    }

    /// Whether there is a bit for each cell.
    pub open spec fn well_formed(self) -> bool {
        &&& self.n[0] >= 0 && self.n[1] >= 0 && self.n[2] >= 0
        &&& self.n[0] * self.n[1] <= i32::MAX
        &&& self.volume() <= i32::MAX
        &&& self.volume() <= self.bits@.len() * 64
    }

    /// Whether the cell is in the box and marked.
    pub open spec fn has(self, x: int, y: int, z: int) -> bool {
        self.in_range(x, y, z) && bit_at(self.bits@, self.index(x, y, z))
    }

    /// The position of a cell lies within the cells.
    proof fn lemma_index(self, x: int, y: int, z: int)
        requires
            self.well_formed(),
            self.in_range(x, y, z),
        ensures
            0 <= self.index(x, y, z) < self.volume(),
            0 <= z * self.n[1],
            z * self.n[1] + y <= i32::MAX,
            0 <= (z * self.n[1] + y) * self.n[0] <= self.index(x, y, z),
    {
        let (a, b, c) = (self.n[0] as int, self.n[1] as int, self.n[2] as int);
        assert(0 <= z * b && z * b + y < c * b) by (nonlinear_arith)
            requires
                0 <= z < c,
                0 <= y < b,
        ;
        let r = z * b + y;
        assert(0 <= r * a && r * a + x < (c * b) * a) by (nonlinear_arith)
            requires
                0 <= r < c * b,
                0 <= x < a,
        ;
        assert((c * b) * a == a * b * c) by (nonlinear_arith);
        assert(r <= r * a) by (nonlinear_arith)
            requires
                0 <= r,
                1 <= a,
        ;
    }

    /// Cells of the box have different positions.
    proof fn lemma_index_apart(self, x: int, y: int, z: int, x2: int, y2: int, z2: int)
        requires
            self.in_range(x, y, z),
            self.in_range(x2, y2, z2),
            self.index(x, y, z) == self.index(x2, y2, z2),
        ensures
            x == x2 && y == y2 && z == z2,
    {
        let (a, b) = (self.n[0] as int, self.n[1] as int);
        lemma_same_digit(a, z * b + y, x, z2 * b + y2, x2);
        lemma_same_digit(b, z, y, z2, y2);
    }

    /// A box with no cell marked.
    pub fn new(n: [i32; 3]) -> (r: Occupancy)
        requires
            n[0] >= 0 && n[1] >= 0 && n[2] >= 0,
            n[0] * n[1] <= i32::MAX,
            n[0] * n[1] * n[2] <= i32::MAX,
        ensures
            r.well_formed(),
            r.n == n,
            forall|x: int, y: int, z: int| !#[trigger] r.has(x, y, z),
    {
        proof {
            assert(0 <= n[0] * n[1]) by (nonlinear_arith)
                requires
                    n[0] >= 0,
                    n[1] >= 0,
            ;
            assert(0 <= n[0] * n[1] * n[2]) by (nonlinear_arith)
                requires
                    0 <= n[0] * n[1],
                    n[2] >= 0,
            ;
        }
        let count: usize = (n[0] * n[1] * n[2]) as usize;
        let words: usize = (count + 63) / 64;
        let bits: Vec<u64> = vec![0u64; words];
        let r: Occupancy = Occupancy { n, bits };
        proof {
            assert forall|x: int, y: int, z: int| !#[trigger] r.has(x, y, z) by {
                if r.in_range(x, y, z) {
                    r.lemma_index(x, y, z);
                    let i = r.index(x, y, z);
                    assert(r.bits@[i / 64] == 0);
                    let k = (i % 64) as u64;
                    assert((0u64 >> k) & 1 == 0) by (bit_vector);
                }
            }
        }
        r
    }

    /// Marks a cell of the box.
    pub fn mark(&mut self, x: i32, y: i32, z: i32)
        requires
            old(self).well_formed(),
            old(self).in_range(x as int, y as int, z as int),
        ensures
            final(self).well_formed(),
            final(self).n == old(self).n,
            forall|x2: int, y2: int, z2: int|
                #[trigger] final(self).has(x2, y2, z2) == (old(self).has(x2, y2, z2) || (x2 == x
                    && y2 == y && z2 == z)),
    {
        proof {
            self.lemma_index(x as int, y as int, z as int);
        }
        let ghost before = *self;
        let i: usize = ((z * self.n[1] + y) * self.n[0] + x) as usize;
        let word: u64 = self.bits[i / 64];
        let k: u64 = (i % 64) as u64;
        let marked: u64 = word | (1u64 << k);
        self.bits[i / 64] = marked;
        proof {
            assert(self.index(x as int, y as int, z as int) == i);
            assert forall|x2: int, y2: int, z2: int| #[trigger]
                self.has(x2, y2, z2) == (before.has(x2, y2, z2) || (x2 == x && y2 == y && z2
                    == z)) by {
                if before.in_range(x2, y2, z2) {
                    before.lemma_index(x2, y2, z2);
                    let j = before.index(x2, y2, z2);
                    assert(self.index(x2, y2, z2) == j);
                    let kj = (j % 64) as u64;
                    lemma_set_bit(word, k, kj);
                    if j == i {
                        before.lemma_index_apart(x as int, y as int, z as int, x2, y2, z2);
                    } else if j / 64 == i / 64 {
                        assert(kj != k);
                    }
                }
            }
        }
    }

    /// Whether the cell is in the box and marked.
    pub fn get(&self, x: i32, y: i32, z: i32) -> (r: bool)
        requires
            self.well_formed(),
        ensures
            r == self.has(x as int, y as int, z as int),
    {
        if x < 0 || x >= self.n[0] || y < 0 || y >= self.n[1] || z < 0 || z >= self.n[2] {
            return false;
        }
        proof {
            self.lemma_index(x as int, y as int, z as int);
        }
        let i: usize = ((z * self.n[1] + y) * self.n[0] + x) as usize;
        let k: u64 = (i % 64) as u64;
        (self.bits[i / 64] >> k) & 1 != 0
    }
}

/// Two numbers to the base `a` that are equal have equal digits.
proof fn lemma_same_digit(a: int, q: int, x: int, q2: int, x2: int)
    requires
        0 <= x < a,
        0 <= x2 < a,
        q * a + x == q2 * a + x2,
    ensures
        x == x2 && q == q2,
{
    assert(q * a == a * q && q2 * a == a * q2) by (nonlinear_arith);
    vstd::arithmetic::div_mod::lemma_fundamental_div_mod_converse(q * a + x, a, q, x);
    vstd::arithmetic::div_mod::lemma_fundamental_div_mod_converse(q2 * a + x2, a, q2, x2);
}

/// Setting a bit leaves the others.
proof fn lemma_set_bit(w: u64, j: u64, k: u64)
    requires
        j < 64,
        k < 64,
    ensures
        ((w | (1u64 << j)) >> k) & 1 != 0 <==> (j == k || (w >> k) & 1 != 0),
{
    assert(((w | (1u64 << j)) >> k) & 1 != 0 <==> (j == k || (w >> k) & 1 != 0)) by (bit_vector)
        requires
            j < 64,
            k < 64,
    ;
}

/// Number of blocks of [`BRICK`] that cover `n`.
pub open spec fn blocks(n: int) -> int {
    (n + 7) / 8
}

/// The lowest brick that a run which ends at `bottom` touches.
pub open spec fn last_brick(bottom: int) -> int {
    if bottom > 0 {
        (bottom - 1) / 8
    } else {
        0
    }
}

/// Whether one of the runs touches brick layer `bz`.
pub open spec fn touched(runs: Seq<(i32, i32)>, bz: int) -> bool {
    exists|k: int| 0 <= k < runs.len() && touches(#[trigger] runs[k], bz)
}

/// Whether a run touches brick layer `bz`. An empty run touches none.
pub open spec fn touches(run: (i32, i32), bz: int) -> bool {
    run.0 < run.1 && run.0 as int / 8 <= bz <= last_brick(run.1 as int)
}

/// Height of a chunk in cells at level `mip`.
pub open spec fn height_at(mip: u32) -> int {
    if CHUNK_SIZE_Z >> mip == 0 {
        1
    } else {
        (CHUNK_SIZE_Z >> mip) as int
    }
}

/// Whether column `(x, y)` touches brick layer `bz`.
pub open spec fn column_touches(grid: GridView<'_>, mip: u32, x: int, y: int, bz: int) -> bool {
    0 <= x < grid.side(mip) && 0 <= y < grid.side(mip) && touched(grid.runs(x, y, mip), bz)
}

/// Whether a column of the brick touches it.
pub open spec fn brick_touched(grid: GridView<'_>, mip: u32, bx: int, by: int, bz: int) -> bool {
    exists|x: int, y: int|
        x / 8 == bx && y / 8 == by && #[trigger] column_touches(grid, mip, x, y, bz)
}

/// Whether a column of the super-brick touches one of its bricks.
pub open spec fn super_touched(grid: GridView<'_>, mip: u32, sx: int, sy: int, sz: int) -> bool {
    exists|x: int, y: int, bz: int|
        x / 8 / 8 == sx && y / 8 / 8 == sy && bz / 8 == sz && 0 <= bz < blocks(height_at(mip))
            && #[trigger] column_touches(grid, mip, x, y, bz)
}

/// Whether bricks can be laid over the chunk at level `mip`.
pub open spec fn brickable(grid: GridView<'_>, mip: u32) -> bool {
    let nb = blocks(grid.side(mip));
    &&& mip < 32
    &&& grid.side(mip) + 8 <= i32::MAX
    &&& nb * nb * blocks(height_at(mip)) <= i32::MAX
    &&& forall|x: int, y: int|
        0 <= x < grid.side(mip) && 0 <= y < grid.side(mip) ==> {
            &&& #[trigger] grid.readable(x, y, mip)
            &&& runs_fit(grid.runs(x, y, mip), height_at(mip))
        }
}

/// Whether runs lie within a column of height `depth`.
pub open spec fn runs_fit(runs: Seq<(i32, i32)>, depth: int) -> bool {
    forall|k: int|
        0 <= k < runs.len() ==> 0 <= (#[trigger] runs[k]).0 && 0 <= runs[k].1 <= depth
}

/// Which bricks and super-bricks of a chunk hold anything solid.
#[derive(Debug)]
pub struct BrickMap {
    pub bricks: Occupancy,
    pub supers: Occupancy,
}

impl BrickMap {
    pub open spec fn well_formed(self) -> bool {
        self.bricks.well_formed() && self.supers.well_formed()
    }

    /// Whether this is the map of the chunk at level `mip`.
    pub open spec fn built_from(self, grid: GridView<'_>, mip: u32) -> bool {
        let nb = blocks(grid.side(mip));
        let nz = blocks(height_at(mip));
        &&& self.well_formed()
        &&& self.bricks.n@ =~= seq![nb as i32, nb as i32, nz as i32]
        &&& self.supers.n@ =~= seq![blocks(nb) as i32, blocks(nb) as i32, blocks(nz) as i32]
        &&& forall|x: int, y: int, z: int| #[trigger]
            self.bricks.has(x, y, z) == (self.bricks.in_range(x, y, z) && brick_touched(
                grid,
                mip,
                x,
                y,
                z,
            ))
        &&& forall|x: int, y: int, z: int| #[trigger]
            self.supers.has(x, y, z) == (self.supers.in_range(x, y, z) && super_touched(
                grid,
                mip,
                x,
                y,
                z,
            ))
    }
}

/// Whether column `(a, b)` comes before column `(x, y)`.
spec fn before(a: int, b: int, x: int, y: int) -> bool {
    b < y || (b == y && a < x)
}

spec fn brick_so_far(
    grid: GridView<'_>,
    mip: u32,
    bx: int,
    by: int,
    bz: int,
    x: int,
    y: int,
) -> bool {
    exists|a: int, b: int|
        a / 8 == bx && b / 8 == by && before(a, b, x, y) && #[trigger] column_touches(
            grid,
            mip,
            a,
            b,
            bz,
        )
}

spec fn super_so_far(
    grid: GridView<'_>,
    mip: u32,
    sx: int,
    sy: int,
    sz: int,
    x: int,
    y: int,
) -> bool {
    exists|a: int, b: int, bz: int|
        a / 8 / 8 == sx && b / 8 / 8 == sy && bz / 8 == sz && 0 <= bz < blocks(height_at(mip))
            && before(a, b, x, y) && #[trigger] column_touches(grid, mip, a, b, bz)
}

/// Marks the bricks from `first` to `last` above one brick of the floor.
fn mark_run(bm: &mut BrickMap, bx: i32, by: i32, first: i32, last: i32)
    requires
        old(bm).well_formed(),
        0 <= first,
        last < old(bm).bricks.n[2],
        0 <= bx < old(bm).bricks.n[0],
        0 <= by < old(bm).bricks.n[1],
        forall|k: int|
            0 <= k < 3 ==> (#[trigger] old(bm).supers.n[k]) == blocks(old(bm).bricks.n[k] as int),
    ensures
        final(bm).well_formed(),
        final(bm).bricks.n == old(bm).bricks.n,
        final(bm).supers.n == old(bm).supers.n,
        forall|x: int, y: int, z: int| #[trigger]
            final(bm).bricks.has(x, y, z) == (old(bm).bricks.has(x, y, z) || (x == bx && y == by
                && first <= z <= last)),
        forall|x: int, y: int, z: int| #[trigger]
            final(bm).supers.has(x, y, z) == (old(bm).supers.has(x, y, z) || (x == bx as int / 8
                && y == by as int / 8 && first <= last && first as int / 8 <= z <= last as int
                / 8)),
{
    let ghost start = *bm;
    let mut bz: i32 = first;
    while bz <= last
        invariant
            bm.well_formed(),
            bm.bricks.n == start.bricks.n,
            bm.supers.n == start.supers.n,
            0 <= first <= bz,
            bz <= last + 1 || bz == first,
            last < start.bricks.n[2],
            0 <= bx < start.bricks.n[0],
            0 <= by < start.bricks.n[1],
            forall|k: int|
                0 <= k < 3 ==> (#[trigger] start.supers.n[k]) == blocks(start.bricks.n[k] as int),
            forall|x: int, y: int, z: int| #[trigger]
                bm.bricks.has(x, y, z) == (start.bricks.has(x, y, z) || (x == bx && y == by
                    && first <= z < bz)),
            forall|x: int, y: int, z: int| #[trigger]
                bm.supers.has(x, y, z) == (start.supers.has(x, y, z) || (x == bx as int / 8 && y
                    == by as int / 8 && first < bz && first as int / 8 <= z <= (bz - 1) / 8)),
        decreases last + 1 - bz,
    {
        assert(bm.supers.n[0] == blocks(start.bricks.n[0] as int) && bm.supers.n[1] == blocks(
            start.bricks.n[1] as int,
        ) && bm.supers.n[2] == blocks(start.bricks.n[2] as int));
        bm.bricks.mark(bx, by, bz);
        bm.supers.mark(bx / 8, by / 8, bz / 8);
        bz += 1;
    }
}

/// Whether one of the runs touches a brick of super-brick layer `sz`.
spec fn super_layer(runs: Seq<(i32, i32)>, sz: int) -> bool {
    exists|bz: int| #[trigger] touched(runs, bz) && bz / 8 == sz
}

/// One more run touches what the runs before it did, and what it does.
proof fn lemma_touched_push(runs: Seq<(i32, i32)>, n: int, bz: int)
    requires
        0 <= n < runs.len(),
    ensures
        touched(runs.take(n + 1), bz) <==> touched(runs.take(n), bz) || touches(runs[n], bz),
{
    let a = runs.take(n);
    let b = runs.take(n + 1);
    if touched(b, bz) {
        let k = choose|k: int| 0 <= k < b.len() && touches(#[trigger] b[k], bz);
        if k < n {
            assert(touches(a[k], bz));
        }
    }
    if touched(a, bz) {
        let k = choose|k: int| 0 <= k < a.len() && touches(#[trigger] a[k], bz);
        assert(touches(b[k], bz));
    }
    if touches(runs[n], bz) {
        assert(touches(b[n], bz));
    }
}

proof fn lemma_super_layer_push(runs: Seq<(i32, i32)>, n: int, sz: int)
    requires
        0 <= n < runs.len(),
        0 <= runs[n].0,
    ensures
        super_layer(runs.take(n + 1), sz) <==> super_layer(runs.take(n), sz) || (runs[n].0
            < runs[n].1 && runs[n].0 as int / 8 / 8 <= sz <= last_brick(runs[n].1 as int) / 8),
{
    let first = runs[n].0 as int / 8;
    let last = last_brick(runs[n].1 as int);
    if super_layer(runs.take(n + 1), sz) {
        let bz = choose|bz: int| #[trigger] touched(runs.take(n + 1), bz) && bz / 8 == sz;
        lemma_touched_push(runs, n, bz);
        if touched(runs.take(n), bz) {
            assert(super_layer(runs.take(n), sz));
        }
    }
    if super_layer(runs.take(n), sz) {
        let bz = choose|bz: int| #[trigger] touched(runs.take(n), bz) && bz / 8 == sz;
        lemma_touched_push(runs, n, bz);
        assert(touched(runs.take(n + 1), bz));
    }
    if runs[n].0 < runs[n].1 && first / 8 <= sz <= last / 8 {
        let bz = arith::max_int(first, sz * 8);
        lemma_touched_push(runs, n, bz);
        assert(touched(runs.take(n + 1), bz) && bz / 8 == sz);
    }
}

/// Marks what the runs of one column touch.
fn mark_column(bm: &mut BrickMap, bx: i32, by: i32, runs: &Vec<(i32, i32)>)
    requires
        old(bm).well_formed(),
        0 <= bx < old(bm).bricks.n[0],
        0 <= by < old(bm).bricks.n[1],
        runs_fit(runs@, old(bm).bricks.n[2] * 8),
        old(bm).bricks.n[2] > 0,
        forall|k: int|
            0 <= k < 3 ==> (#[trigger] old(bm).supers.n[k]) == blocks(old(bm).bricks.n[k] as int),
    ensures
        final(bm).well_formed(),
        final(bm).bricks.n == old(bm).bricks.n,
        final(bm).supers.n == old(bm).supers.n,
        forall|x: int, y: int, z: int| #[trigger]
            final(bm).bricks.has(x, y, z) == (old(bm).bricks.has(x, y, z) || (x == bx && y == by
                && touched(runs@, z))),
        forall|x: int, y: int, z: int| #[trigger]
            final(bm).supers.has(x, y, z) == (old(bm).supers.has(x, y, z) || (x == bx as int / 8
                && y == by as int / 8 && super_layer(runs@, z))),
{
    let ghost start = *bm;
    let mut i: usize = 0;
    while i < runs.len()
        invariant
            i <= runs@.len(),
            bm.well_formed(),
            bm.bricks.n == start.bricks.n,
            bm.supers.n == start.supers.n,
            0 <= bx < start.bricks.n[0],
            0 <= by < start.bricks.n[1],
            runs_fit(runs@, start.bricks.n[2] * 8),
            start.bricks.n[2] > 0,
            forall|k: int|
                0 <= k < 3 ==> (#[trigger] start.supers.n[k]) == blocks(start.bricks.n[k] as int),
            forall|x: int, y: int, z: int| #[trigger]
                bm.bricks.has(x, y, z) == (start.bricks.has(x, y, z) || (x == bx && y == by
                    && touched(runs@.take(i as int), z))),
            forall|x: int, y: int, z: int| #[trigger]
                bm.supers.has(x, y, z) == (start.supers.has(x, y, z) || (x == bx as int / 8 && y
                    == by as int / 8 && super_layer(runs@.take(i as int), z))),
        decreases runs@.len() - i,
    {
        let run: (i32, i32) = runs[i];
        assert(0 <= runs@[i as int].0);
        let first: i32 = run.0 / 8;
        let last: i32 = if run.1 > 0 {
            (run.1 - 1) / 8
        } else {
            0
        };
        let ghost prior = *bm;
        assert forall|k: int| 0 <= k < 3 implies (#[trigger] bm.supers.n[k]) == blocks(
            bm.bricks.n[k] as int,
        ) by {
            assert(start.supers.n[k] == blocks(start.bricks.n[k] as int));
        }
        if run.0 < run.1 {
            mark_run(bm, bx, by, first, last);
        }
        proof {
            assert forall|x: int, y: int, z: int| #[trigger]
                bm.bricks.has(x, y, z) == (start.bricks.has(x, y, z) || (x == bx && y == by
                    && touched(runs@.take(i + 1), z))) by {
                assert(prior.bricks.has(x, y, z) == (start.bricks.has(x, y, z) || (x == bx && y
                    == by && touched(runs@.take(i as int), z))));
                lemma_touched_push(runs@, i as int, z);
            }
            assert forall|x: int, y: int, z: int| #[trigger]
                bm.supers.has(x, y, z) == (start.supers.has(x, y, z) || (x == bx as int / 8 && y
                    == by as int / 8 && super_layer(runs@.take(i + 1), z))) by {
                assert(prior.supers.has(x, y, z) == (start.supers.has(x, y, z) || (x == bx as int
                    / 8 && y == by as int / 8 && super_layer(runs@.take(i as int), z))));
                lemma_super_layer_push(runs@, i as int, z);
            }
        }
        i += 1;
    }
    assert(runs@.take(runs@.len() as int) =~= runs@);
}

/// One more column adds what it touches to the bricks.
proof fn lemma_brick_next(
    grid: GridView<'_>,
    mip: u32,
    bx: int,
    by: int,
    bz: int,
    x: int,
    y: int,
)
    requires
        0 <= x < grid.side(mip),
        0 <= y < grid.side(mip),
    ensures
        brick_so_far(grid, mip, bx, by, bz, x + 1, y) <==> brick_so_far(
            grid,
            mip,
            bx,
            by,
            bz,
            x,
            y,
        ) || (bx == x / 8 && by == y / 8 && touched(grid.runs(x, y, mip), bz)),
{
    if brick_so_far(grid, mip, bx, by, bz, x + 1, y) {
        let (a, b) = choose|a: int, b: int|
            a / 8 == bx && b / 8 == by && before(a, b, x + 1, y) && #[trigger] column_touches(
                grid,
                mip,
                a,
                b,
                bz,
            );
        if before(a, b, x, y) {
            assert(brick_so_far(grid, mip, bx, by, bz, x, y));
        }
    }
    if brick_so_far(grid, mip, bx, by, bz, x, y) {
        let (a, b) = choose|a: int, b: int|
            a / 8 == bx && b / 8 == by && before(a, b, x, y) && #[trigger] column_touches(
                grid,
                mip,
                a,
                b,
                bz,
            );
        assert(before(a, b, x + 1, y));
    }
    if bx == x / 8 && by == y / 8 && touched(grid.runs(x, y, mip), bz) {
        assert(column_touches(grid, mip, x, y, bz) && before(x, y, x + 1, y));
    }
}

proof fn lemma_super_next(
    grid: GridView<'_>,
    mip: u32,
    sx: int,
    sy: int,
    sz: int,
    x: int,
    y: int,
)
    requires
        0 <= x < grid.side(mip),
        0 <= y < grid.side(mip),
        runs_fit(grid.runs(x, y, mip), height_at(mip)),
        height_at(mip) > 0,
    ensures
        super_so_far(grid, mip, sx, sy, sz, x + 1, y) <==> super_so_far(
            grid,
            mip,
            sx,
            sy,
            sz,
            x,
            y,
        ) || (sx == x / 8 / 8 && sy == y / 8 / 8 && super_layer(grid.runs(x, y, mip), sz)),
{
    if super_so_far(grid, mip, sx, sy, sz, x + 1, y) {
        let (a, b, bz) = choose|a: int, b: int, bz: int|
            a / 8 / 8 == sx && b / 8 / 8 == sy && bz / 8 == sz && 0 <= bz < blocks(height_at(mip))
                && before(a, b, x + 1, y) && #[trigger] column_touches(grid, mip, a, b, bz);
        if before(a, b, x, y) {
            assert(super_so_far(grid, mip, sx, sy, sz, x, y));
        } else {
            assert(touched(grid.runs(x, y, mip), bz));
            assert(super_layer(grid.runs(x, y, mip), sz));
        }
    }
    if super_so_far(grid, mip, sx, sy, sz, x, y) {
        let (a, b, bz) = choose|a: int, b: int, bz: int|
            a / 8 / 8 == sx && b / 8 / 8 == sy && bz / 8 == sz && 0 <= bz < blocks(height_at(mip))
                && before(a, b, x, y) && #[trigger] column_touches(grid, mip, a, b, bz);
        assert(before(a, b, x + 1, y));
    }
    if sx == x / 8 / 8 && sy == y / 8 / 8 && super_layer(grid.runs(x, y, mip), sz) {
        let runs = grid.runs(x, y, mip);
        let bz = choose|bz: int| #[trigger] touched(runs, bz) && bz / 8 == sz;
        let k = choose|k: int| 0 <= k < runs.len() && touches(#[trigger] runs[k], bz);
        assert(0 <= runs[k].0 && runs[k].1 <= height_at(mip));
        assert(column_touches(grid, mip, x, y, bz) && before(x, y, x + 1, y));
    }
}

/// The columns before the first of a row are those up to the last of the
/// row above.
proof fn lemma_row_done(grid: GridView<'_>, mip: u32, y: int)
    ensures
        forall|bx: int, by: int, bz: int|
            brick_so_far(grid, mip, bx, by, bz, grid.side(mip), y) == #[trigger] brick_so_far(
                grid,
                mip,
                bx,
                by,
                bz,
                0,
                y + 1,
            ),
        forall|bx: int, by: int, bz: int|
            super_so_far(grid, mip, bx, by, bz, grid.side(mip), y) == #[trigger] super_so_far(
                grid,
                mip,
                bx,
                by,
                bz,
                0,
                y + 1,
            ),
{
    let n = grid.side(mip);
    assert forall|bx: int, by: int, bz: int|
        brick_so_far(grid, mip, bx, by, bz, n, y) == #[trigger] brick_so_far(
            grid,
            mip,
            bx,
            by,
            bz,
            0,
            y + 1,
        ) by {
        if brick_so_far(grid, mip, bx, by, bz, n, y) {
            let (a, b) = choose|a: int, b: int|
                a / 8 == bx && b / 8 == by && before(a, b, n, y) && #[trigger] column_touches(
                    grid,
                    mip,
                    a,
                    b,
                    bz,
                );
            assert(before(a, b, 0, y + 1));
        }
        if brick_so_far(grid, mip, bx, by, bz, 0, y + 1) {
            let (a, b) = choose|a: int, b: int|
                a / 8 == bx && b / 8 == by && before(a, b, 0, y + 1) && #[trigger] column_touches(
                    grid,
                    mip,
                    a,
                    b,
                    bz,
                );
            assert(before(a, b, n, y));
        }
    }
    assert forall|bx: int, by: int, bz: int|
        super_so_far(grid, mip, bx, by, bz, n, y) == #[trigger] super_so_far(
            grid,
            mip,
            bx,
            by,
            bz,
            0,
            y + 1,
        ) by {
        if super_so_far(grid, mip, bx, by, bz, n, y) {
            let (a, b, c) = choose|a: int, b: int, c: int|
                a / 8 / 8 == bx && b / 8 / 8 == by && c / 8 == bz && 0 <= c < blocks(height_at(mip))
                    && before(a, b, n, y) && #[trigger] column_touches(grid, mip, a, b, c);
            assert(before(a, b, 0, y + 1));
        }
        if super_so_far(grid, mip, bx, by, bz, 0, y + 1) {
            let (a, b, c) = choose|a: int, b: int, c: int|
                a / 8 / 8 == bx && b / 8 / 8 == by && c / 8 == bz && 0 <= c < blocks(height_at(mip))
                    && before(a, b, 0, y + 1) && #[trigger] column_touches(grid, mip, a, b, c);
            assert(before(a, b, n, y));
        }
    }
}

/// Whether the map marks what the columns before `(x, y)` touch.
spec fn marked_up_to(bm: BrickMap, grid: GridView<'_>, mip: u32, x: int, y: int) -> bool {
    &&& forall|a: int, b: int, c: int| #[trigger]
        bm.bricks.has(a, b, c) == (bm.bricks.in_range(a, b, c) && brick_so_far(
            grid,
            mip,
            a,
            b,
            c,
            x,
            y,
        ))
    &&& forall|a: int, b: int, c: int| #[trigger]
        bm.supers.has(a, b, c) == (bm.supers.in_range(a, b, c) && super_so_far(
            grid,
            mip,
            a,
            b,
            c,
            x,
            y,
        ))
}

/// Marks what column `(x, y)` touches.
fn mark_cell(bm: &mut BrickMap, grid: &GridView<'_>, mip: u32, x: i32, y: i32)
    requires
        brickable(*grid, mip),
        old(bm).well_formed(),
        old(bm).bricks.n@ =~= seq![
            blocks(grid.side(mip)) as i32,
            blocks(grid.side(mip)) as i32,
            blocks(height_at(mip)) as i32,
        ],
        forall|k: int|
            0 <= k < 3 ==> (#[trigger] old(bm).supers.n[k]) == blocks(old(bm).bricks.n[k] as int),
        0 <= x < grid.side(mip),
        0 <= y < grid.side(mip),
        0 < height_at(mip) <= 256,
        marked_up_to(*old(bm), *grid, mip, x as int, y as int),
    ensures
        final(bm).well_formed(),
        final(bm).bricks.n == old(bm).bricks.n,
        final(bm).supers.n == old(bm).supers.n,
        marked_up_to(*final(bm), *grid, mip, x + 1, y as int),
{
    let ghost prior = *bm;
    let ghost gx = x as int;
    let ghost gy = y as int;
    assert(grid.readable(gx, gy, mip));
    let runs: Vec<(i32, i32)> = grid.for_each_run_mip(x as u32, y as u32, mip);
    assert(bm.bricks.n@[0] == blocks(grid.side(mip)) as i32);
    assert(bm.bricks.n@[2] == blocks(height_at(mip)) as i32);
    assert(runs_fit(runs@, height_at(mip)));
    mark_column(bm, x / 8, y / 8, &runs);
    proof {
        assert forall|a: int, b: int, c: int| #[trigger]
            bm.bricks.has(a, b, c) == (bm.bricks.in_range(a, b, c) && brick_so_far(
                *grid,
                mip,
                a,
                b,
                c,
                gx + 1,
                gy,
            )) by {
            lemma_brick_next(*grid, mip, a, b, c, gx, gy);
            assert(prior.bricks.has(a, b, c) == (prior.bricks.in_range(a, b, c) && brick_so_far(
                *grid,
                mip,
                a,
                b,
                c,
                gx,
                gy,
            )));
            if a == gx / 8 && b == gy / 8 && touched(runs@, c) {
                assert(bm.bricks.has(a, b, c));
            }
        }
        assert forall|a: int, b: int, c: int| #[trigger]
            bm.supers.has(a, b, c) == (bm.supers.in_range(a, b, c) && super_so_far(
                *grid,
                mip,
                a,
                b,
                c,
                gx + 1,
                gy,
            )) by {
            lemma_super_next(*grid, mip, a, b, c, gx, gy);
            assert(prior.supers.has(a, b, c) == (prior.supers.in_range(a, b, c) && super_so_far(
                *grid,
                mip,
                a,
                b,
                c,
                gx,
                gy,
            )));
            if a == gx / 8 / 8 && b == gy / 8 / 8 && super_layer(runs@, c) {
                assert(bm.supers.has(a, b, c));
            }
        }
    }
}

impl BrickMap {
    /// The map of a chunk at level `mip`.
    pub fn build(grid: &GridView<'_>, mip: u32) -> (bm: BrickMap)
        requires
            brickable(*grid, mip),
        ensures
            bm.built_from(*grid, mip),
    {
        let shifted: u32 = grid.vsid >> mip;
        let side: i32 = if shifted == 0 {
            1
        } else {
            shifted as i32
        };
        let high: u32 = CHUNK_SIZE_Z >> mip;
        proof {
            assert(256u32 >> mip <= 256) by (bit_vector)
                requires
                    mip < 32,
            ;
        }
        let depth: i32 = if high == 0 {
            1
        } else {
            high as i32
        };
        let nb: i32 = (side + BRICK - 1) / BRICK;
        let nz: i32 = (depth + BRICK - 1) / BRICK;
        let ns: i32 = (nb + BRICK - 1) / BRICK;
        let nsz: i32 = (nz + BRICK - 1) / BRICK;
        proof {
            assert(nb * nb <= i32::MAX && 0 <= nb * nb) by (nonlinear_arith)
                requires
                    nb * nb * nz <= i32::MAX,
                    nz >= 1,
                    nb >= 0,
            ;
            assert(ns * ns <= i32::MAX && ns * ns * nsz <= i32::MAX) by (nonlinear_arith)
                requires
                    0 <= ns <= nb,
                    0 <= nsz <= nz,
                    nb * nb * nz <= i32::MAX,
                    nb * nb <= i32::MAX,
            ;
        }
        let mut bm: BrickMap = BrickMap {
            bricks: Occupancy::new([nb, nb, nz]),
            supers: Occupancy::new([ns, ns, nsz]),
        };
        let ghost start = bm;
        proof {
            assert(bm.bricks.n@ =~= seq![nb, nb, nz]);
            assert(bm.supers.n@ =~= seq![ns, ns, nsz]);
            assert forall|k: int| 0 <= k < 3 implies (#[trigger] bm.supers.n[k]) == blocks(
                bm.bricks.n[k] as int,
            ) by {}
            lemma_nothing_before(*grid, mip);
        }
        let mut y: i32 = 0;
        while y < side
            invariant
                brickable(*grid, mip),
                side == grid.side(mip),
                0 < height_at(mip) <= 256,
                0 <= y <= side,
                bm.well_formed(),
                bm.bricks.n == start.bricks.n,
                bm.supers.n == start.supers.n,
                start.bricks.n@ =~= seq![
                    blocks(grid.side(mip)) as i32,
                    blocks(grid.side(mip)) as i32,
                    blocks(height_at(mip)) as i32,
                ],
                forall|k: int|
                    0 <= k < 3 ==> (#[trigger] start.supers.n[k]) == blocks(
                        start.bricks.n[k] as int,
                    ),
                marked_up_to(bm, *grid, mip, 0, y as int),
            decreases side - y,
        {
            let mut x: i32 = 0;
            while x < side
                invariant
                    brickable(*grid, mip),
                    side == grid.side(mip),
                    0 < height_at(mip) <= 256,
                    0 <= y < side,
                    0 <= x <= side,
                    bm.well_formed(),
                    bm.bricks.n == start.bricks.n,
                    bm.supers.n == start.supers.n,
                    start.bricks.n@ =~= seq![
                        blocks(grid.side(mip)) as i32,
                        blocks(grid.side(mip)) as i32,
                        blocks(height_at(mip)) as i32,
                    ],
                    forall|k: int|
                        0 <= k < 3 ==> (#[trigger] start.supers.n[k]) == blocks(
                            start.bricks.n[k] as int,
                        ),
                    marked_up_to(bm, *grid, mip, x as int, y as int),
                decreases side - x,
            {
                assert forall|k: int| 0 <= k < 3 implies (#[trigger] bm.supers.n[k]) == blocks(
                    bm.bricks.n[k] as int,
                ) by {
                    assert(start.supers.n[k] == blocks(start.bricks.n[k] as int));
                }
                mark_cell(&mut bm, grid, mip, x, y);
                x += 1;
            }
            proof {
                lemma_row_done(*grid, mip, y as int);
                assert(marked_up_to(bm, *grid, mip, 0, y + 1));
            }
            y += 1;
        }
        proof {
            lemma_all_before(bm, *grid, mip);
            assert(start.supers.n[0] == blocks(start.bricks.n[0] as int));
            assert(start.supers.n[1] == blocks(start.bricks.n[1] as int));
            assert(start.supers.n[2] == blocks(start.bricks.n[2] as int));
        }
        bm
    }
}

/// No column comes before the first.
proof fn lemma_nothing_before(grid: GridView<'_>, mip: u32)
    ensures
        forall|a: int, b: int, c: int| !#[trigger] brick_so_far(grid, mip, a, b, c, 0, 0),
        forall|a: int, b: int, c: int| !#[trigger] super_so_far(grid, mip, a, b, c, 0, 0),
{
}

/// Every column comes before the end of the last row.
proof fn lemma_all_before(bm: BrickMap, grid: GridView<'_>, mip: u32)
    requires
        marked_up_to(bm, grid, mip, 0, grid.side(mip)),
    ensures
        forall|x: int, y: int, z: int| #[trigger]
            bm.bricks.has(x, y, z) == (bm.bricks.in_range(x, y, z) && brick_touched(
                grid,
                mip,
                x,
                y,
                z,
            )),
        forall|x: int, y: int, z: int| #[trigger]
            bm.supers.has(x, y, z) == (bm.supers.in_range(x, y, z) && super_touched(
                grid,
                mip,
                x,
                y,
                z,
            )),
{
    let n = grid.side(mip);
    assert forall|x: int, y: int, z: int|
        brick_so_far(grid, mip, x, y, z, 0, n) == #[trigger] brick_touched(grid, mip, x, y, z) by {
        if brick_touched(grid, mip, x, y, z) {
            let (a, b) = choose|a: int, b: int|
                a / 8 == x && b / 8 == y && #[trigger] column_touches(grid, mip, a, b, z);
            assert(before(a, b, 0, n));
        }
        if brick_so_far(grid, mip, x, y, z, 0, n) {
            let (a, b) = choose|a: int, b: int|
                a / 8 == x && b / 8 == y && before(a, b, 0, n) && #[trigger] column_touches(
                    grid,
                    mip,
                    a,
                    b,
                    z,
                );
            assert(brick_touched(grid, mip, x, y, z));
        }
    }
    assert forall|x: int, y: int, z: int|
        super_so_far(grid, mip, x, y, z, 0, n) == #[trigger] super_touched(grid, mip, x, y, z) by {
        if super_touched(grid, mip, x, y, z) {
            let (a, b, c) = choose|a: int, b: int, c: int|
                a / 8 / 8 == x && b / 8 / 8 == y && c / 8 == z && 0 <= c < blocks(height_at(mip))
                    && #[trigger] column_touches(grid, mip, a, b, c);
            assert(before(a, b, 0, n));
        }
        if super_so_far(grid, mip, x, y, z, 0, n) {
            let (a, b, c) = choose|a: int, b: int, c: int|
                a / 8 / 8 == x && b / 8 / 8 == y && c / 8 == z && 0 <= c < blocks(height_at(mip))
                    && before(a, b, 0, n) && #[trigger] column_touches(grid, mip, a, b, c);
            assert(super_touched(grid, mip, x, y, z));
        }
    }
}

impl BrickMap {
    /// Whether the brick is in the chunk and holds anything.
    pub fn occupied(&self, b: [i32; 3]) -> (r: bool)
        requires
            self.well_formed(),
        ensures
            r == self.bricks.has(b[0] as int, b[1] as int, b[2] as int),
    {
        self.bricks.get(b[0], b[1], b[2])
    }

    /// Whether the super-brick is in the chunk and holds anything.
    pub fn occupied_super(&self, s: [i32; 3]) -> (r: bool)
        requires
            self.well_formed(),
        ensures
            r == self.supers.has(s[0] as int, s[1] as int, s[2] as int),
    {
        self.supers.get(s[0], s[1], s[2])
    }
}

/// A solid cell touches its brick.
proof fn lemma_solid_touches(grid: GridView<'_>, mip: u32, x: int, y: int, z: int)
    requires
        mip < 32,
        0 <= x < grid.side(mip),
        0 <= y < grid.side(mip),
        0 <= z,
        grid.solid_top(x, y, z, mip) is Some,
    ensures
        column_touches(grid, mip, x, y, z / 8),
        z < height_at(mip),
{
    let runs = grid.runs(x, y, mip);
    let k = slab::lemma_run_top(runs, z);
    assert(touches(runs[k], z / 8));
    assert(256u32 >> mip <= 256) by (bit_vector)
        requires
            mip < 32,
    ;
    assert(z < grid_view::depth_at(mip));
}

/// An empty brick holds no solid cell.
pub proof fn lemma_empty_brick(bm: BrickMap, grid: GridView<'_>, mip: u32, x: int, y: int, z: int)
    requires
        brickable(grid, mip),
        bm.built_from(grid, mip),
        0 <= x < grid.side(mip),
        0 <= y < grid.side(mip),
        0 <= z,
        !bm.bricks.has(x / 8, y / 8, z / 8),
    ensures
        grid.solid_top(x, y, z, mip) is None,
{
    if grid.solid_top(x, y, z, mip) is Some {
        lemma_solid_touches(grid, mip, x, y, z);
        assert(brick_touched(grid, mip, x / 8, y / 8, z / 8));
        lemma_brick_counts(grid, mip);
        assert(bm.bricks.n@[0] == blocks(grid.side(mip)) && bm.bricks.n@[1] == blocks(
            grid.side(mip),
        ) && bm.bricks.n@[2] == blocks(height_at(mip)));
        assert(bm.bricks.in_range(x / 8, y / 8, z / 8));
    }
}

/// A marked brick holds a solid cell, where the level has at least one cell
/// along z.
pub proof fn lemma_marked_brick(
    bm: BrickMap,
    grid: GridView<'_>,
    mip: u32,
    bx: int,
    by: int,
    bz: int,
) -> (cell: (int, int, int))
    requires
        mip <= 8,
        brickable(grid, mip),
        bm.built_from(grid, mip),
        bm.bricks.has(bx, by, bz),
    ensures
        cell.0 / 8 == bx && cell.1 / 8 == by && cell.2 / 8 == bz,
        grid.solid_top(cell.0, cell.1, cell.2, mip) is Some,
{
    let (x, y) = choose|x: int, y: int|
        x / 8 == bx && y / 8 == by && #[trigger] column_touches(grid, mip, x, y, bz);
    let runs = grid.runs(x, y, mip);
    let k = choose|k: int| 0 <= k < runs.len() && touches(#[trigger] runs[k], bz);
    let z = arith::max_int(runs[k].0 as int, bz * 8);
    assert(grid.readable(x, y, mip));
    assert(runs_fit(runs, height_at(mip)));
    assert(256u32 >> mip >= 1 && 256u32 >> mip <= 256) by (bit_vector)
        requires
            mip <= 8,
    ;
    assert(runs[k].0 <= z < runs[k].1);
    lemma_some_run(runs, k, z);
    (x, y, z)
}

proof fn lemma_some_run(runs: Seq<(i32, i32)>, k: int, z: int)
    requires
        0 <= k < runs.len(),
        runs[k].0 <= z < runs[k].1,
    ensures
        slab::run_top(runs, z) is Some,
    decreases runs.len(),
{
    if !(runs[0].0 <= z < runs[0].1) {
        assert(runs.skip(1)[k - 1] == runs[k]);
        lemma_some_run(runs.skip(1), k - 1, z);
    }
}

/// An empty super-brick holds no solid cell.
pub proof fn lemma_empty_super(bm: BrickMap, grid: GridView<'_>, mip: u32, x: int, y: int, z: int)
    requires
        brickable(grid, mip),
        bm.built_from(grid, mip),
        0 <= x < grid.side(mip),
        0 <= y < grid.side(mip),
        0 <= z,
        !bm.supers.has(x / 64, y / 64, z / 64),
    ensures
        grid.solid_top(x, y, z, mip) is None,
{
    if grid.solid_top(x, y, z, mip) is Some {
        lemma_solid_touches(grid, mip, x, y, z);
        assert(x / 64 == x / 8 / 8 && y / 64 == y / 8 / 8 && z / 64 == z / 8 / 8);
        assert(super_touched(grid, mip, x / 64, y / 64, z / 64));
        lemma_brick_counts(grid, mip);
        assert(bm.supers.n@[0] == blocks(blocks(grid.side(mip))) && bm.supers.n@[1] == blocks(
            blocks(grid.side(mip)),
        ) && bm.supers.n@[2] == blocks(blocks(height_at(mip))));
        assert(bm.supers.in_range(x / 64, y / 64, z / 64));
    }
}

/// A marked super-brick has a marked brick.
pub proof fn lemma_marked_super(
    bm: BrickMap,
    grid: GridView<'_>,
    mip: u32,
    sx: int,
    sy: int,
    sz: int,
) -> (brick: (int, int, int))
    requires
        brickable(grid, mip),
        bm.built_from(grid, mip),
        bm.supers.has(sx, sy, sz),
    ensures
        brick.0 / 8 == sx && brick.1 / 8 == sy && brick.2 / 8 == sz,
        bm.bricks.has(brick.0, brick.1, brick.2),
{
    let (x, y, bz) = choose|x: int, y: int, bz: int|
        x / 8 / 8 == sx && y / 8 / 8 == sy && bz / 8 == sz && 0 <= bz < blocks(height_at(mip))
            && #[trigger] column_touches(grid, mip, x, y, bz);
    lemma_brick_counts(grid, mip);
    assert(bm.bricks.n@[0] == blocks(grid.side(mip)) && bm.bricks.n@[1] == blocks(grid.side(mip))
        && bm.bricks.n@[2] == blocks(height_at(mip)));
    assert(brick_touched(grid, mip, x / 8, y / 8, bz));
    assert(bm.bricks.in_range(x / 8, y / 8, bz));
    (x / 8, y / 8, bz)
}

/// A super-brick is marked where one of its bricks is.
pub proof fn lemma_super_of_brick(
    bm: BrickMap,
    grid: GridView<'_>,
    mip: u32,
    bx: int,
    by: int,
    bz: int,
)
    requires
        brickable(grid, mip),
        bm.built_from(grid, mip),
        bm.bricks.has(bx, by, bz),
    ensures
        bm.supers.has(bx / 8, by / 8, bz / 8),
{
    let (x, y) = choose|x: int, y: int|
        x / 8 == bx && y / 8 == by && #[trigger] column_touches(grid, mip, x, y, bz);
    lemma_brick_counts(grid, mip);
    assert(bm.bricks.n@[0] == blocks(grid.side(mip)) && bm.bricks.n@[1] == blocks(grid.side(mip))
        && bm.bricks.n@[2] == blocks(height_at(mip)));
    assert(bm.supers.n@[0] == blocks(blocks(grid.side(mip))) && bm.supers.n@[1] == blocks(
        blocks(grid.side(mip)),
    ) && bm.supers.n@[2] == blocks(blocks(height_at(mip))));
    assert(column_touches(grid, mip, x, y, bz));
    assert(super_touched(grid, mip, bx / 8, by / 8, bz / 8));
    assert(bm.supers.in_range(bx / 8, by / 8, bz / 8));
}

proof fn lemma_brick_counts(grid: GridView<'_>, mip: u32)
    requires
        brickable(grid, mip),
    ensures
        0 <= blocks(grid.side(mip)) <= i32::MAX,
        0 <= blocks(height_at(mip)) <= 32,
        0 < height_at(mip) <= 256,
{
    assert(256u32 >> mip <= 256) by (bit_vector)
        requires
            mip < 32,
    ;
}

/// A chunk index and a level.
pub type BrickKey = (i32, i32, i32, u32);

/// The map of one chunk at one level, and the version of the chunk that
/// it was built from.
#[derive(Debug)]
pub struct BrickEntry {
    pub key: BrickKey,
    pub version: u64,
    pub map: BrickMap,
}

/// The entries by their keys.
pub open spec fn map_of(entries: Seq<BrickEntry>) -> Map<BrickKey, (u64, BrickMap)>
    decreases entries.len(),
{
    if entries.len() == 0 {
        Map::empty()
    } else {
        map_of(entries.drop_last()).insert(
            entries.last().key,
            (entries.last().version, entries.last().map),
        )
    }
}

/// The brick maps that are kept from frame to frame.
#[derive(Debug)]
pub struct BrickCache {
    pub entries: Vec<BrickEntry>,
}

impl View for BrickCache {
    type V = Map<BrickKey, (u64, BrickMap)>;

    open spec fn view(&self) -> Map<BrickKey, (u64, BrickMap)> {
        map_of(self.entries@)
    }
}

/// The key has an entry where one of the entries has it.
proof fn lemma_map_of_contains(entries: Seq<BrickEntry>, key: BrickKey)
    ensures
        map_of(entries).contains_key(key) <==> exists|i: int|
            0 <= i < entries.len() && (#[trigger] entries[i]).key == key,
    decreases entries.len(),
{
    if entries.len() > 0 {
        let rest = entries.drop_last();
        lemma_map_of_contains(rest, key);
        if map_of(rest).contains_key(key) {
            let i = choose|i: int| 0 <= i < rest.len() && (#[trigger] rest[i]).key == key;
            assert(entries[i].key == key);
        }
        if exists|i: int| 0 <= i < entries.len() && (#[trigger] entries[i]).key == key {
            let i = choose|i: int| 0 <= i < entries.len() && (#[trigger] entries[i]).key == key;
            if i < rest.len() {
                assert(rest[i].key == key);
            }
        }
    }
}

/// Whether no two entries have the same key.
pub open spec fn keys_differ(entries: Seq<BrickEntry>) -> bool {
    forall|i: int, j: int|
        0 <= i < j < entries.len() ==> (#[trigger] entries[i]).key != (#[trigger] entries[j]).key
}

/// An entry is found under its key.
proof fn lemma_map_of_index(entries: Seq<BrickEntry>, i: int)
    requires
        keys_differ(entries),
        0 <= i < entries.len(),
    ensures
        map_of(entries).contains_key(entries[i].key),
        map_of(entries)[entries[i].key] == (entries[i].version, entries[i].map),
    decreases entries.len(),
{
    let rest = entries.drop_last();
    if i < rest.len() {
        assert(keys_differ(rest)) by {
            assert forall|a: int, b: int| 0 <= a < b < rest.len() implies (#[trigger] rest[a]).key
                != (#[trigger] rest[b]).key by {
                assert(entries[a].key != entries[b].key);
            }
        }
        lemma_map_of_index(rest, i);
        assert(rest[i] == entries[i]);
        assert(entries[i].key != entries[entries.len() - 1].key);
    }
}

/// Replacing an entry replaces what is found under its key.
proof fn lemma_map_of_update(entries: Seq<BrickEntry>, i: int, e: BrickEntry)
    requires
        keys_differ(entries),
        0 <= i < entries.len(),
        e.key == entries[i].key,
    ensures
        map_of(entries.update(i, e)) == map_of(entries).insert(e.key, (e.version, e.map)),
        keys_differ(entries.update(i, e)),
    decreases entries.len(),
{
    let rest = entries.drop_last();
    let new = entries.update(i, e);
    assert forall|a: int, b: int| 0 <= a < b < new.len() implies (#[trigger] new[a]).key
        != (#[trigger] new[b]).key by {
        assert(entries[a].key != entries[b].key);
    }
    if i == entries.len() - 1 {
        assert(new.drop_last() =~= rest);
        assert(map_of(new) =~= map_of(entries).insert(e.key, (e.version, e.map)));
    } else {
        assert(new.drop_last() =~= rest.update(i, e));
        assert(keys_differ(rest)) by {
            assert forall|a: int, b: int| 0 <= a < b < rest.len() implies (#[trigger] rest[a]).key
                != (#[trigger] rest[b]).key by {
                assert(entries[a].key != entries[b].key);
            }
        }
        lemma_map_of_update(rest, i, e);
        assert(entries[i].key != entries[entries.len() - 1].key);
        assert(map_of(new) =~= map_of(entries).insert(e.key, (e.version, e.map)));
    }
}

impl Default for BrickCache {
    fn default() -> (r: Self)
        ensures
            r.well_formed(),
            r@ == Map::<BrickKey, (u64, BrickMap)>::empty(),
    {
        BrickCache::new()
    }
}

impl BrickCache {
    /// Whether no two entries have the same key and all maps are whole.
    pub open spec fn well_formed(self) -> bool {
        &&& keys_differ(self.entries@)
        &&& forall|i: int|
            0 <= i < self.entries@.len() ==> (#[trigger] self.entries@[i]).map.well_formed()
    }

    /// A cache with no maps.
    #[must_use]
    pub fn new() -> (r: BrickCache)
        ensures
            r.well_formed(),
            r@ == Map::<BrickKey, (u64, BrickMap)>::empty(),
    {
        BrickCache { entries: Vec::new() }
    }

    /// Position of the entry for a chunk and level.
    fn position(&self, chunk: [i32; 3], mip: u32) -> (r: Option<usize>)
        ensures
            match r {
                Some(i) => i < self.entries@.len() && self.entries@[i as int].key == (
                    chunk[0],
                    chunk[1],
                    chunk[2],
                    mip,
                ),
                None => forall|i: int|
                    0 <= i < self.entries@.len() ==> (#[trigger] self.entries@[i]).key != (
                        chunk[0],
                        chunk[1],
                        chunk[2],
                        mip,
                    ),
            },
    {
        let mut i: usize = 0;
        while i < self.entries.len()
            invariant
                i <= self.entries@.len(),
                forall|j: int|
                    0 <= j < i ==> (#[trigger] self.entries@[j]).key != (
                        chunk[0],
                        chunk[1],
                        chunk[2],
                        mip,
                    ),
            decreases self.entries@.len() - i,
        {
            let key: BrickKey = self.entries[i].key;
            if key.0 == chunk[0] && key.1 == chunk[1] && key.2 == chunk[2] && key.3 == mip {
                return Some(i);
            }
            i += 1;
        }
        None
    }

    /// Makes sure that there is a map of this version of the chunk:
    /// builds one from `view` where there is none or one of another
    /// version.
    pub fn ensure(&mut self, chunk: [i32; 3], mip: u32, version: u64, view: &GridView<'_>)
        requires
            old(self).well_formed(),
            old(self).current(chunk, mip, version) || brickable(*view, mip),
        ensures
            final(self).well_formed(),
            ({
                let key = (chunk[0], chunk[1], chunk[2], mip);
                if old(self).current(chunk, mip, version) {
                    final(self)@ == old(self)@
                } else {
                    &&& final(self)@.contains_key(key)
                    &&& final(self)@[key].0 == version
                    &&& final(self)@[key].1.built_from(*view, mip)
                    &&& final(self)@ == old(self)@.insert(key, final(self)@[key])
                }
            }),
    {
        let ghost key = (chunk[0], chunk[1], chunk[2], mip);
        proof {
            lemma_map_of_contains(self.entries@, key);
        }
        match self.position(chunk, mip) {
            Some(i) => {
                proof {
                    lemma_map_of_index(self.entries@, i as int);
                }
                if self.entries[i].version != version {
                    let entry: BrickEntry = BrickEntry {
                        key: (chunk[0], chunk[1], chunk[2], mip),
                        version,
                        map: BrickMap::build(view, mip),
                    };
                    proof {
                        lemma_map_of_update(self.entries@, i as int, entry);
                    }
                    self.entries.set(i, entry);
                }
            },
            None => {
                let entry: BrickEntry = BrickEntry {
                    key: (chunk[0], chunk[1], chunk[2], mip),
                    version,
                    map: BrickMap::build(view, mip),
                };
                let ghost before = self.entries@;
                self.entries.push(entry);
                assert(self.entries@.drop_last() =~= before);
            },
        }
    }

    /// Whether there is a map of this version of the chunk.
    pub open spec fn current(self, chunk: [i32; 3], mip: u32, version: u64) -> bool {
        let key = (chunk[0], chunk[1], chunk[2], mip);
        self@.contains_key(key) && self@[key].0 == version
    }

    /// The map of a chunk at level `mip`.
    pub fn get(&self, chunk: [i32; 3], mip: u32) -> (r: Option<&BrickMap>)
        requires
            self.well_formed(),
        ensures
            ({
                let key = (chunk[0], chunk[1], chunk[2], mip);
                match r {
                    Some(m) => self@.contains_key(key) && *m == self@[key].1 && m.well_formed(),
                    None => !self@.contains_key(key),
                }
            }),
    {
        proof {
            lemma_map_of_contains(self.entries@, (chunk[0], chunk[1], chunk[2], mip));
        }
        match self.position(chunk, mip) {
            Some(i) => {
                proof {
                    lemma_map_of_index(self.entries@, i as int);
                }
                Some(&self.entries[i].map)
            },
            None => None,
        }
    }
}

/// The chunk of a key.
pub open spec fn chunk_of(key: BrickKey) -> [i32; 3] {
    [key.0, key.1, key.2]
}

impl BrickCache {
    /// Drops the maps of the chunks that `keep` does not keep.
    pub fn retain_chunks<F: Fn([i32; 3]) -> bool>(&mut self, keep: F)
        requires
            old(self).well_formed(),
            forall|chunk: [i32; 3]| #[trigger] call_requires(keep, (chunk,)),
        ensures
            final(self).well_formed(),
            forall|key: BrickKey| #[trigger]
                final(self)@.contains_key(key) ==> {
                    &&& old(self)@.contains_key(key)
                    &&& final(self)@[key] == old(self)@[key]
                    &&& call_ensures(keep, (chunk_of(key),), true)
                },
            forall|key: BrickKey| #[trigger]
                old(self)@.contains_key(key) && !final(self)@.contains_key(key) ==> call_ensures(
                    keep,
                    (chunk_of(key),),
                    false,
                ),
    {
        let ghost all = self.entries@;
        let mut kept: Vec<BrickEntry> = Vec::new();
        while self.entries.len() > 0
            invariant
                forall|chunk: [i32; 3]| #[trigger] call_requires(keep, (chunk,)),
                keys_differ(all),
                keys_differ(self.entries@),
                keys_differ(kept@),
                forall|i: int| 0 <= i < all.len() ==> (#[trigger] all[i]).map.well_formed(),
                self.entries@.len() <= all.len(),
                forall|i: int|
                    0 <= i < self.entries@.len() ==> #[trigger] self.entries@[i] == all[i],
                forall|i: int| 0 <= i < kept@.len() ==> (#[trigger] kept@[i]).map.well_formed(),
                forall|i: int|
                    0 <= i < kept@.len() ==> kept_from(all, self.entries@.len() as int, #[trigger]
                        kept@[i]) && call_ensures(keep, (chunk_of(kept@[i].key),), true),
                forall|j: int|
                    self.entries@.len() <= j < all.len() ==> has_entry(kept@, #[trigger] all[j])
                        || call_ensures(keep, (chunk_of(all[j].key),), false),
            decreases self.entries@.len(),
        {
            let ghost rest = self.entries@;
            let ghost before = kept@;
            match self.entries.pop() {
                Some(e) => {
                    let ghost n = rest.len() - 1;
                    let chunk: [i32; 3] = [e.key.0, e.key.1, e.key.2];
                    assert(rest[n] == all[n]);
                    assert(chunk =~= chunk_of(e.key));
                    assert forall|i: int| 0 <= i < before.len() implies before[i].key
                        != e.key by {
                        let j = choose|j: int|
                            rest.len() <= j < all.len() && #[trigger] all[j] == before[i];
                        assert(kept_from(all, rest.len() as int, before[i]));
                        assert(all[n].key != all[j].key);
                    }
                    if keep(chunk) {
                        kept.push(e);
                        proof {
                            assert(kept@[before.len() as int] == all[n]);
                            assert(has_entry(kept@, all[n]));
                        }
                    }
                    proof {
                        assert forall|i: int| 0 <= i < kept@.len() implies kept_from(
                            all,
                            n,
                            #[trigger] kept@[i],
                        ) && call_ensures(keep, (chunk_of(kept@[i].key),), true) by {
                            if i < before.len() {
                                assert(kept_from(all, rest.len() as int, before[i]));
                                let j = choose|j: int|
                                    rest.len() <= j < all.len() && #[trigger] all[j] == before[i];
                                assert(all[j] == kept@[i]);
                            } else {
                                assert(all[n] == kept@[i]);
                            }
                        }
                        assert forall|j: int| n <= j < all.len() implies has_entry(
                            kept@,
                            #[trigger] all[j],
                        ) || call_ensures(keep, (chunk_of(all[j].key),), false) by {
                            if j > n && has_entry(before, all[j]) {
                                let i = choose|i: int|
                                    0 <= i < before.len() && #[trigger] before[i] == all[j];
                                assert(kept@[i] == all[j]);
                            }
                        }
                    }
                },
                None => {},
            }
        }
        self.entries = kept;
        proof {
            assert forall|key: BrickKey| #[trigger] self@.contains_key(key) implies {
                &&& map_of(all).contains_key(key)
                &&& self@[key] == map_of(all)[key]
                &&& call_ensures(keep, (chunk_of(key),), true)
            } by {
                lemma_map_of_contains(kept@, key);
                let i = choose|i: int| 0 <= i < kept@.len() && (#[trigger] kept@[i]).key == key;
                assert(kept_from(all, 0, kept@[i]));
                let j = choose|j: int| 0 <= j < all.len() && #[trigger] all[j] == kept@[i];
                lemma_map_of_index(kept@, i);
                lemma_map_of_index(all, j);
            }
            assert forall|key: BrickKey| #[trigger]
                map_of(all).contains_key(key) && !self@.contains_key(key) implies call_ensures(
                keep,
                (chunk_of(key),),
                false,
            ) by {
                lemma_map_of_contains(all, key);
                let j = choose|j: int| 0 <= j < all.len() && (#[trigger] all[j]).key == key;
                if has_entry(kept@, all[j]) {
                    let i = choose|i: int| 0 <= i < kept@.len() && #[trigger] kept@[i] == all[j];
                    lemma_map_of_index(kept@, i);
                }
            }
        }
    }
}

/// Whether `e` is one of the entries from `n` on.
spec fn kept_from(all: Seq<BrickEntry>, n: int, e: BrickEntry) -> bool {
    exists|j: int| n <= j < all.len() && #[trigger] all[j] == e
}

/// Whether `e` is one of the entries.
spec fn has_entry(s: Seq<BrickEntry>, e: BrickEntry) -> bool {
    exists|i: int| 0 <= i < s.len() && #[trigger] s[i] == e
}

} // verus!
