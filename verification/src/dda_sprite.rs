//! Sprites as dense boxes of voxels, to cast rays into.
use crate::color;
use crate::dda::walk;
use crate::dda::walk::CellWalk;
use crate::kv6;
use crate::kv6::{Kv6, Voxel};
use crate::material;
use crate::material::material_for_color;
use crate::voxel_clip;
use crate::voxel_clip::{DecodedClip, VoxelFrame};
use vstd::prelude::*;

verus! {

/// A colour at full brightness.
pub open spec fn bright(col: u32) -> u32 {
    color::packed(color::byte_of(col, 0), color::byte_of(col, 1), color::byte_of(col, 2), 0x80)
}

/// A colour at full brightness.
#[must_use]
pub fn full_bright(col: u32) -> (r: u32)
    ensures
        r == bright(col),
{
    col % 0x100_0000 + 0x8000_0000
}

/// A sprite as a dense box: which voxels are there, their colours, and
/// their materials where they differ.
#[derive(Debug)]
pub struct SpriteDense {
    pub dims: [i32; 3],
    pub occ: Vec<bool>,
    pub col: Vec<u32>,
    /// Empty where all voxels have the same material.
    pub mat: Vec<u8>,
}

/// Position of a voxel in a box with these sizes.
pub open spec fn dense_index(dims: [i32; 3], x: int, y: int, z: int) -> int {
    (x * dims[1] + y) * dims[2] + z
}

/// Whether a box with these sizes holds the voxel.
pub open spec fn in_dims(dims: [i32; 3], x: int, y: int, z: int) -> bool {
    0 <= x < dims[0] && 0 <= y < dims[1] && 0 <= z < dims[2]
}

/// Number of voxels of a box with these sizes.
pub open spec fn volume(dims: [i32; 3]) -> int {
    dims[0] * dims[1] * dims[2]
}

proof fn lemma_dense_index(dims: [i32; 3], x: int, y: int, z: int)
    requires
        in_dims(dims, x, y, z),
    ensures
        0 <= dense_index(dims, x, y, z) < volume(dims),
        0 <= x * dims[1],
        0 <= x * dims[1] + y < dims[0] * dims[1],
        0 <= (x * dims[1] + y) * dims[2],
{
    let (a, b, c) = (dims[0] as int, dims[1] as int, dims[2] as int);
    assert(0 <= x * b && x * b + y < a * b) by (nonlinear_arith)
        requires
            0 <= x < a,
            0 <= y < b,
    ;
    let r = x * b + y;
    assert(0 <= r * c && r * c + z < (a * b) * c) by (nonlinear_arith)
        requires
            0 <= r < a * b,
            0 <= z < c,
    ;
}

/// Voxels of a box have different positions.
proof fn lemma_dense_apart(dims: [i32; 3], x: int, y: int, z: int, x2: int, y2: int, z2: int)
    requires
        in_dims(dims, x, y, z),
        in_dims(dims, x2, y2, z2),
        dense_index(dims, x, y, z) == dense_index(dims, x2, y2, z2),
    ensures
        x == x2 && y == y2 && z == z2,
{
    lemma_digits(dims[2] as int, x * dims[1] + y, z, x2 * dims[1] + y2, z2);
    lemma_digits(dims[1] as int, x, y, x2, y2);
}

proof fn lemma_digits(a: int, q: int, x: int, q2: int, x2: int)
    requires
        0 <= x < a,
        0 <= x2 < a,
        q * a + x == q2 * a + x2,
    ensures
        x == x2 && q == q2,
{
    assert(q * a == a * q && q2 * a == a * q2) by (nonlinear_arith);
    vstd::arithmetic::div_mod::lemma_fundamental_div_mod_converse(q * a + x, a, q, x);
    vstd::arithmetic::div_mod::lemma_fundamental_div_mod_converse(q2 * a + x2, a, q2, x2);
}

impl SpriteDense {
    /// Whether there is an entry for each voxel of the box.
    pub open spec fn well_formed(self) -> bool {
        &&& self.dims[0] >= 0 && self.dims[1] >= 0 && self.dims[2] >= 0
        &&& self.occ@.len() == volume(self.dims)
        &&& self.col@.len() == volume(self.dims)
        &&& self.mat@.len() == 0 || self.mat@.len() == volume(self.dims)
    }

    /// Whether positions in the box fit in 32 bits.
    pub open spec fn addressable(self) -> bool {
        self.dims[0] * self.dims[1] <= i32::MAX && volume(self.dims) <= i32::MAX
    }

    /// Whether the box holds the voxel.
    pub open spec fn holds(self, x: int, y: int, z: int) -> bool {
        in_dims(self.dims, x, y, z)
    }

    /// The colour of a voxel; `None` for air.
    pub open spec fn voxel(self, x: int, y: int, z: int) -> Option<u32> {
        let i = dense_index(self.dims, x, y, z);
        if self.occ@[i] {
            Some(self.col@[i])
        } else {
            None
        }
    }

    /// Position of a voxel.
    pub fn idx_of(&self, c: [i32; 3]) -> (r: usize)
        requires
            self.well_formed(),
            self.addressable(),
            self.holds(c[0] as int, c[1] as int, c[2] as int),
        ensures
            r == dense_index(self.dims, c[0] as int, c[1] as int, c[2] as int),
            r < volume(self.dims),
    {
        proof {
            lemma_dense_index(self.dims, c[0] as int, c[1] as int, c[2] as int);
        }
        ((c[0] * self.dims[1] + c[1]) * self.dims[2] + c[2]) as usize
    }

    /// The colour of a voxel; `None` for air.
    pub fn at(&self, c: [i32; 3]) -> (r: Option<u32>)
        requires
            self.well_formed(),
            self.addressable(),
            self.holds(c[0] as int, c[1] as int, c[2] as int),
        ensures
            r == self.voxel(c[0] as int, c[1] as int, c[2] as int),
    {
        let i: usize = self.idx_of(c);
        if self.occ[i] {
            Some(self.col[i])
        } else {
            None
        }
    }
}

/// What a ray does in a voxel of a sprite's box.
#[derive(Debug, Clone, Copy, PartialEq, Eq, Structural)]
pub enum Hop {
    /// It has left the box.
    Leave,
    /// It meets a voxel of this colour.
    Hit(u32),
    /// It goes on through air.
    Air,
}

impl SpriteDense {
    /// Whether positions in the box fit in 32 bits.
    #[must_use]
    pub fn is_addressable(&self) -> (r: bool)
        requires
            self.dims[0] >= 0 && self.dims[1] >= 0 && self.dims[2] >= 0,
        ensures
            r == self.addressable(),
    {
        let (x, y, z) = (self.dims[0] as u64, self.dims[1] as u64, self.dims[2] as u64);
        proof {
            lemma_small_product(x, y);
        }
        let area: u64 = x * y;
        if area > i32::MAX as u64 {
            return false;
        }
        proof {
            lemma_small_product(area, z);
        }
        area * z <= i32::MAX as u64
    }

    /// A ray that starts in the voxel of the box that is nearest to
    /// `start`.
    #[must_use]
    pub fn enter(&self, step: [i32; 3], start: [i32; 3]) -> (w: CellWalk)
        requires
            self.dims[0] > 0 && self.dims[1] > 0 && self.dims[2] > 0,
        ensures
            w.lo@ == seq![0i32, 0i32, 0i32],
            w.hi == self.dims,
            w.step == step,
            forall|a: int|
                0 <= a < 3 ==> #[trigger] w.cell[a] == walk::clamped(start[a], 0, self.dims[a]),
            walk::in_box(w.cell, w.lo, w.hi),
            w.last_axis == 3,
    {
        let lo: [i32; 3] = [0, 0, 0];
        assert(lo@ =~= seq![0i32, 0i32, 0i32]);
        CellWalk::new(lo, self.dims, step, start)
    }

    /// The most steps that a ray may take in the box: one for each voxel
    /// of its three edges, and a few more.
    #[must_use]
    pub fn max_steps(&self) -> (r: usize)
        requires
            self.dims[0] >= 0 && self.dims[1] >= 0 && self.dims[2] >= 0,
            self.dims[0] + self.dims[1] + self.dims[2] <= i32::MAX,
        ensures
            r == self.dims[0] + self.dims[1] + self.dims[2] + 8,
            r == self.step_budget(),
    {
        (self.dims[0] + self.dims[1] + self.dims[2]) as usize + 8
    }

    /// The most steps that a ray may take in the box.
    pub open spec fn step_budget(self) -> int {
        self.dims[0] + self.dims[1] + self.dims[2] + 8
    }

    /// What a ray does in the voxel that it stands in, when it is past its
    /// end there.
    pub open spec fn hopped(self, w: CellWalk, past_end: bool) -> Hop {
        if !walk::in_box(w.cell, w.lo, w.hi) || past_end {
            Hop::Leave
        } else {
            match self.voxel(w.cell[0] as int, w.cell[1] as int, w.cell[2] as int) {
                Some(col) => Hop::Hit(col),
                None => Hop::Air,
            }
        }
    }

    /// What a ray does in the voxel that it stands in, when it is past its
    /// end there.
    #[must_use]
    pub fn hop(&self, w: &CellWalk, past_end: bool) -> (r: Hop)
        requires
            self.well_formed(),
            self.addressable(),
            w.lo@ == seq![0i32, 0i32, 0i32],
            w.hi == self.dims,
        ensures
            r == if !walk::in_box(w.cell, w.lo, w.hi) || past_end {
                Hop::Leave
            } else {
                match self.voxel(w.cell[0] as int, w.cell[1] as int, w.cell[2] as int) {
                    Some(col) => Hop::Hit(col),
                    None => Hop::Air,
                }
            },
            r == self.hopped(*w, past_end),
    {
        assert(w.lo@[0] == 0 && w.lo@[1] == 0 && w.lo@[2] == 0);
        if !w.is_inside() || past_end {
            return Hop::Leave;
        }
        match self.at(w.cell) {
            Some(col) => Hop::Hit(col),
            None => Hop::Air,
        }
    }
}

proof fn lemma_small_product(a: u64, b: u64)
    requires
        a <= i32::MAX,
        b <= i32::MAX,
    ensures
        a * b <= u64::MAX,
{
    assert(a * b <= 0x8000_0000 * 0x8000_0000) by (nonlinear_arith)
        requires
            a <= 0x8000_0000,
            b <= 0x8000_0000,
    ;
}

/// Number of voxels in the slices before `x`.
pub open spec fn voxels_before(ylen: Seq<Vec<u16>>, ysiz: int, x: int) -> int
    decreases x,
{
    if x <= 0 {
        0
    } else {
        voxels_before(ylen, ysiz, x - 1) + kv6::columns_sum(ylen[x - 1]@, ysiz)
    }
}

/// Where the voxels of a column start.
pub open spec fn column_start(k: Kv6, x: int, y: int) -> int {
    voxels_before(k.ylen@, k.ysiz as int, x) + kv6::columns_sum(k.ylen@[x]@, y)
}

/// The last voxel at height `z` of those from `start` to `end`.
pub open spec fn last_at(voxels: Seq<Voxel>, start: int, end: int, z: int) -> Option<int>
    decreases end - start,
{
    if end <= start {
        None
    } else if voxels[end - 1].z == z {
        Some(end - 1)
    } else {
        last_at(voxels, start, end - 1, z)
    }
}

/// The colour of voxel `(x, y, z)` of a sprite, at full brightness; `None`
/// where it has no such voxel.
pub open spec fn kv6_voxel(k: Kv6, x: int, y: int, z: int) -> Option<u32> {
    let start = column_start(k, x, y);
    match last_at(k.voxels@, start, start + k.ylen@[x]@[y], z) {
        Some(i) => Some(bright(k.voxels@[i].col)),
        None => None,
    }
}

/// Whether a sprite has the voxels that its columns say, and a box of
/// them can be made.
pub open spec fn decodable(k: Kv6) -> bool {
    &&& k.xsiz <= i32::MAX && k.ysiz <= i32::MAX && k.zsiz <= i32::MAX
    &&& k.xsiz * k.ysiz <= i32::MAX
    &&& k.xsiz * k.ysiz * k.zsiz <= i32::MAX
    &&& k.ylen@.len() >= k.xsiz
    &&& forall|x: int| 0 <= x < k.xsiz ==> (#[trigger] k.ylen@[x])@.len() >= k.ysiz
    &&& voxels_before(k.ylen@, k.ysiz as int, k.xsiz as int) <= k.voxels@.len()
}

proof fn lemma_columns_sum_grows(s: Seq<u16>, a: int, b: int)
    requires
        0 <= a <= b <= s.len(),
    ensures
        0 <= kv6::columns_sum(s, a) <= kv6::columns_sum(s, b),
    decreases b,
{
    if a < b {
        lemma_columns_sum_grows(s, a, b - 1);
    } else if a > 0 {
        lemma_columns_sum_grows(s, a - 1, b - 1);
    }
}

proof fn lemma_voxels_before_grows(ylen: Seq<Vec<u16>>, ysiz: int, a: int, b: int)
    requires
        0 <= a <= b <= ylen.len(),
        0 <= ysiz,
        forall|x: int| 0 <= x < b ==> (#[trigger] ylen[x])@.len() >= ysiz,
    ensures
        0 <= voxels_before(ylen, ysiz, a) <= voxels_before(ylen, ysiz, b),
    decreases b,
{
    if a < b {
        lemma_voxels_before_grows(ylen, ysiz, a, b - 1);
        lemma_columns_sum_grows(ylen[b - 1]@, 0, ysiz);
    } else if a > 0 {
        lemma_voxels_before_grows(ylen, ysiz, a - 1, b - 1);
        lemma_columns_sum_grows(ylen[b - 1]@, 0, ysiz);
    }
}

/// A column's voxels are there.
proof fn lemma_column_fits(k: Kv6, x: int, y: int)
    requires
        decodable(k),
        0 <= x < k.xsiz,
        0 <= y < k.ysiz,
    ensures
        0 <= column_start(k, x, y),
        column_start(k, x, y) + k.ylen@[x]@[y] <= k.voxels@.len(),
{
    assert(k.ylen@[x]@.len() >= k.ysiz);
    lemma_voxels_before_grows(k.ylen@, k.ysiz as int, x + 1, k.xsiz as int);
    lemma_voxels_before_grows(k.ylen@, k.ysiz as int, x, x + 1);
    lemma_columns_sum_grows(k.ylen@[x]@, y + 1, k.ysiz as int);
    lemma_columns_sum_grows(k.ylen@[x]@, y, y + 1);
}

/// Number of voxels that a slice of `ysiz` columns says it has.
fn slice_len(columns: &Vec<u16>, ysiz: usize) -> (r: u64)
    requires
        ysiz <= columns@.len(),
        ysiz <= u32::MAX,
    ensures
        r == kv6::columns_sum(columns@, ysiz as int),
        r <= 0x1_0000 * ysiz,
{
    let mut sum: u64 = 0;
    let mut y: usize = 0;
    while y < ysiz
        invariant
            y <= ysiz <= columns@.len(),
            ysiz <= u32::MAX,
            sum == kv6::columns_sum(columns@, y as int),
            sum <= 0x1_0000 * y,
        decreases ysiz - y,
    {
        sum = sum + columns[y] as u64;
        y += 1;
    }
    sum
}

/// Whether a sprite has the voxels that its columns say, and a box of
/// them can be made.
#[must_use]
pub fn is_decodable(k: &Kv6) -> (r: bool)
    ensures
        r == decodable(*k),
{
    let most: u32 = i32::MAX as u32;
    if k.xsiz > most || k.ysiz > most || k.zsiz > most {
        return false;
    }
    proof {
        lemma_small_product(k.xsiz as u64, k.ysiz as u64);
    }
    let area: u64 = k.xsiz as u64 * k.ysiz as u64;
    if area > most as u64 {
        return false;
    }
    proof {
        lemma_small_product(area, k.zsiz as u64);
    }
    if area * k.zsiz as u64 > most as u64 {
        return false;
    }
    let (xsiz, ysiz) = (k.xsiz as usize, k.ysiz as usize);
    if k.ylen.len() < xsiz {
        return false;
    }
    let mut named: u64 = 0;
    let mut x: usize = 0;
    while x < xsiz
        invariant
            x <= xsiz == k.xsiz <= k.ylen@.len(),
            ysiz == k.ysiz,
            k.xsiz <= i32::MAX,
            k.ysiz <= i32::MAX,
            k.xsiz * k.ysiz <= i32::MAX,
            forall|i: int| 0 <= i < x ==> (#[trigger] k.ylen@[i])@.len() >= ysiz,
            named == voxels_before(k.ylen@, ysiz as int, x as int),
            named <= 0x1_0000 * (x * ysiz),
        decreases xsiz - x,
    {
        if k.ylen[x].len() < ysiz {
            assert(k.ylen@[x as int]@.len() < k.ysiz);
            return false;
        }
        let more: u64 = slice_len(&k.ylen[x], ysiz);
        assert((x + 1) * ysiz == x * ysiz + ysiz && (x + 1) * ysiz <= xsiz * ysiz)
            by (nonlinear_arith)
            requires
                x < xsiz,
        ;
        assert(xsiz * ysiz == k.xsiz * k.ysiz);
        named = named + more;
        x += 1;
    }
    named <= k.voxels.len() as u64
}

/// Whether the columns of a sprite that come before `(x, y)` are in the
/// box, and no others.
spec fn decoded_up_to(dims: [i32; 3], occ: Seq<bool>, col: Seq<u32>, k: Kv6, x: int, y: int) -> bool {
    forall|a: int, b: int, z: int|
        #![trigger dense_index(dims, a, b, z)]
        in_dims(dims, a, b, z) ==> {
            let i = dense_index(dims, a, b, z);
            if a < x || (a == x && b < y) {
                match kv6_voxel(k, a, b, z) {
                    Some(c) => occ[i] && col[i] == c,
                    None => !occ[i] && col[i] == 0,
                }
            } else {
                !occ[i] && col[i] == 0
            }
        }
}

/// Whether the voxels of column `(x, y)` from `start` to `end` are in the
/// box as well.
spec fn column_decoded(
    dims: [i32; 3],
    occ: Seq<bool>,
    col: Seq<u32>,
    k: Kv6,
    x: int,
    y: int,
    start: int,
    end: int,
) -> bool {
    forall|a: int, b: int, z: int|
        #![trigger dense_index(dims, a, b, z)]
        in_dims(dims, a, b, z) ==> {
            let i = dense_index(dims, a, b, z);
            if a < x || (a == x && b < y) {
                match kv6_voxel(k, a, b, z) {
                    Some(c) => occ[i] && col[i] == c,
                    None => !occ[i] && col[i] == 0,
                }
            } else if a == x && b == y {
                match last_at(k.voxels@, start, end, z) {
                    Some(j) => occ[i] && col[i] == bright(k.voxels@[j].col),
                    None => !occ[i] && col[i] == 0,
                }
            } else {
                !occ[i] && col[i] == 0
            }
        }
}

/// Puts the voxels of one column into the box, and returns where the next
/// column's start.
fn decode_column(
    k: &Kv6,
    dims: [i32; 3],
    occ: &mut Vec<bool>,
    col: &mut Vec<u32>,
    x: usize,
    y: usize,
    start: usize,
) -> (end: usize)
    requires
        decodable(*k),
        dims[0] == k.xsiz,
        dims[1] == k.ysiz,
        dims[2] == k.zsiz,
        x < k.xsiz,
        y < k.ysiz,
        start == column_start(*k, x as int, y as int),
        old(occ)@.len() == volume(dims),
        old(col)@.len() == volume(dims),
        decoded_up_to(dims, old(occ)@, old(col)@, *k, x as int, y as int),
    ensures
        final(occ)@.len() == volume(dims),
        final(col)@.len() == volume(dims),
        decoded_up_to(dims, final(occ)@, final(col)@, *k, x as int, y + 1),
        end == start + k.ylen@[x as int]@[y as int],
{
    proof {
        lemma_column_fits(*k, x as int, y as int);
        assert(k.ylen@[x as int]@.len() >= k.ysiz);
    }
    let total: usize = k.voxels.len();
    let cnt: usize = k.ylen[x][y] as usize;
    let end: usize = start + cnt;
    let mut vi: usize = start;
    while vi < end
        invariant
            decodable(*k),
            dims[0] == k.xsiz,
            dims[1] == k.ysiz,
            dims[2] == k.zsiz,
            x < k.xsiz,
            y < k.ysiz,
            start <= vi <= end <= k.voxels@.len(),
            occ@.len() == volume(dims),
            col@.len() == volume(dims),
            column_decoded(
                dims,
                occ@,
                col@,
                *k,
                x as int,
                y as int,
                start as int,
                vi as int,
            ),
        decreases end - vi,
    {
        let v: Voxel = k.voxels[vi];
        let z: i32 = v.z as i32;
        let ghost occ0 = occ@;
        let ghost col0 = col@;
        if z < dims[2] {
            proof {
                lemma_dense_index(dims, x as int, y as int, z as int);
            }
            let i: usize = ((x as i32 * dims[1] + y as i32) * dims[2] + z) as usize;
            occ.set(i, true);
            col.set(i, full_bright(v.col));
            proof {
                assert forall|a: int, b: int, c: int|
                    #![trigger dense_index(dims, a, b, c)]
                    in_dims(dims, a, b, c) && dense_index(dims, a, b, c) == i implies a == x && b
                    == y && c == z by {
                    lemma_dense_apart(dims, x as int, y as int, z as int, a, b, c);
                }
            }
        }
        proof {
            assert forall|a: int, b: int, c: int|
                #![trigger dense_index(dims, a, b, c)]
                in_dims(dims, a, b, c) implies {
                let i = dense_index(dims, a, b, c);
                if a < x || (a == x && b < y) {
                    match kv6_voxel(*k, a, b, c) {
                        Some(w) => occ@[i] && col@[i] == w,
                        None => !occ@[i] && col@[i] == 0,
                    }
                } else if a == x && b == y {
                    match last_at(k.voxels@, start as int, vi + 1, c) {
                        Some(j) => occ@[i] && col@[i] == bright(k.voxels@[j].col),
                        None => !occ@[i] && col@[i] == 0,
                    }
                } else {
                    !occ@[i] && col@[i] == 0
                }
            } by {
                lemma_dense_index(dims, a, b, c);
                let i = dense_index(dims, a, b, c);
                if a == x && b == y && c == z {
                } else {
                    assert(occ@[i] == occ0[i] && col@[i] == col0[i]);
                }
            }
        }
        vi += 1;
    }
    end
}

impl SpriteDense {
    /// The box of a sprite.
    #[must_use]
    pub fn from_kv6(k: &Kv6) -> (d: SpriteDense)
        requires
            decodable(*k),
        ensures
            d.well_formed(),
            d.addressable(),
            d.dims@ == seq![k.xsiz as i32, k.ysiz as i32, k.zsiz as i32],
            d.mat@.len() == 0,
            forall|x: int, y: int, z: int|
                d.holds(x, y, z) ==> #[trigger] d.voxel(x, y, z) == kv6_voxel(*k, x, y, z),
    {
        let dims: [i32; 3] = [k.xsiz as i32, k.ysiz as i32, k.zsiz as i32];
        proof {
            assert(0 <= k.xsiz * k.ysiz) by (nonlinear_arith);
            assert(0 <= k.xsiz * k.ysiz * k.zsiz) by (nonlinear_arith)
                requires
                    0 <= k.xsiz * k.ysiz,
            ;
        }
        let n: usize = (dims[0] * dims[1] * dims[2]) as usize;
        let mut occ: Vec<bool> = vec![false; n];
        let mut col: Vec<u32> = vec![0u32; n];
        let mut vi: usize = 0;
        let xsiz: usize = k.xsiz as usize;
        let ysiz: usize = k.ysiz as usize;
        let mut x: usize = 0;
        proof {
            assert forall|a: int, b: int, z: int|
                #![trigger dense_index(dims, a, b, z)]
                in_dims(dims, a, b, z) implies !occ@[dense_index(dims, a, b, z)]
                && col@[dense_index(dims, a, b, z)] == 0 by {
                lemma_dense_index(dims, a, b, z);
            }
        }
        while x < xsiz
            invariant
                decodable(*k),
                dims[0] == k.xsiz,
                dims[1] == k.ysiz,
                dims[2] == k.zsiz,
                xsiz == k.xsiz,
                ysiz == k.ysiz,
                x <= xsiz,
                vi == voxels_before(k.ylen@, ysiz as int, x as int),
                occ@.len() == volume(dims),
                col@.len() == volume(dims),
                decoded_up_to(dims, occ@, col@, *k, x as int, 0),
            decreases xsiz - x,
        {
            let mut y: usize = 0;
            while y < ysiz
                invariant
                    decodable(*k),
                    dims[0] == k.xsiz,
                    dims[1] == k.ysiz,
                    dims[2] == k.zsiz,
                    xsiz == k.xsiz,
                    ysiz == k.ysiz,
                    x < xsiz,
                    y <= ysiz,
                    vi == column_start(*k, x as int, y as int),
                    occ@.len() == volume(dims),
                    col@.len() == volume(dims),
                    decoded_up_to(dims, occ@, col@, *k, x as int, y as int),
                decreases ysiz - y,
            {
                vi = decode_column(k, dims, &mut occ, &mut col, x, y, vi);
                y += 1;
            }
            assert(decoded_up_to(dims, occ@, col@, *k, x + 1, 0));
            x += 1;
        }
        let d: SpriteDense = SpriteDense { dims, occ, col, mat: Vec::new() };
        proof {
            assert forall|x: int, y: int, z: int| d.holds(x, y, z) implies #[trigger] d.voxel(
                x,
                y,
                z,
            ) == kv6_voxel(*k, x, y, z) by {
                let i = dense_index(dims, x, y, z);
                lemma_dense_index(dims, x, y, z);
            }
        }
        d
    }
}

impl SpriteDense {
    /// Whether this is `d` with the materials that `map` gives the colours
    /// of its voxels; one material for all where the map is empty.
    pub open spec fn is_classified(self, d: SpriteDense, map: Seq<(u32, u8)>) -> bool {
        &&& self.dims == d.dims
        &&& self.occ@ == d.occ@
        &&& self.col@ == d.col@
        &&& map.len() == 0 ==> self.mat@.len() == 0
        &&& map.len() > 0 ==> self.mat@.len() == self.col@.len() && forall|i: int|
            0 <= i < self.mat@.len() ==> #[trigger] self.mat@[i] == if self.occ@[i] {
                material::material_from(map, 0, self.col@[i])
            } else {
                0
            }
    }

    /// Gives the voxels the materials that `map` gives their colours.
    fn classify(&mut self, map: &[(u32, u8)])
        requires
            old(self).well_formed(),
            old(self).mat@.len() == 0,
        ensures
            final(self).well_formed(),
            final(self).is_classified(*old(self), map@),
    {
        if map.len() == 0 {
            return;
        }
        let n: usize = self.col.len();
        let mut mat: Vec<u8> = Vec::new();
        let mut i: usize = 0;
        while i < n
            invariant
                n == self.col@.len(),
                n == self.occ@.len(),
                i <= n,
                mat@.len() == i,
                forall|k: int|
                    0 <= k < i ==> #[trigger] mat@[k] == if self.occ@[k] {
                        material::material_from(map@, 0, self.col@[k])
                    } else {
                        0
                    },
            decreases n - i,
        {
            let id: u8 = if self.occ[i] {
                material_for_color(map, self.col[i])
            } else {
                0
            };
            mat.push(id);
            i += 1;
        }
        self.mat = mat;
    }

    /// The box of a sprite, with materials by colour.
    #[must_use]
    pub fn from_kv6_with_materials(k: &Kv6, material_map: &[(u32, u8)]) -> (d: SpriteDense)
        requires
            decodable(*k),
        ensures
            d.well_formed(),
            d.addressable(),
            d.dims@ == seq![k.xsiz as i32, k.ysiz as i32, k.zsiz as i32],
            forall|x: int, y: int, z: int|
                d.holds(x, y, z) ==> #[trigger] d.voxel(x, y, z) == kv6_voxel(*k, x, y, z),
            d.is_classified(d, material_map@),
    {
        let mut d: SpriteDense = SpriteDense::from_kv6(k);
        let ghost plain = d;
        d.classify(material_map);
        assert forall|x: int, y: int, z: int| d.holds(x, y, z) implies #[trigger] d.voxel(x, y, z)
            == kv6_voxel(*k, x, y, z) by {
            assert(plain.holds(x, y, z));
            assert(plain.voxel(x, y, z) == kv6_voxel(*k, x, y, z));
        }
        d
    }
}

/// The colour of voxel `(x, y, z)` of a frame, at full brightness; `None`
/// where it has no such voxel.
pub open spec fn frame_voxel(f: VoxelFrame, dims: [u32; 3], x: int, y: int, z: int) -> Option<u32> {
    match f.voxel(dims, x, y, z) {
        Some(c) => Some(bright(c)),
        None => None,
    }
}

/// Whether the columns of a frame before `c`, and the heights above `h`
/// of column `c`, are in the box, and no others.
spec fn framed_up_to(
    idims: [i32; 3],
    occ: Seq<bool>,
    col: Seq<u32>,
    f: VoxelFrame,
    dims: [u32; 3],
    c: int,
    h: int,
) -> bool {
    forall|x: int, y: int, z: int|
        #![trigger dense_index(idims, x, y, z)]
        in_dims(idims, x, y, z) ==> {
            let i = dense_index(idims, x, y, z);
            let at = x + y * dims[0];
            if at < c || (at == c && z < h) {
                match frame_voxel(f, dims, x, y, z) {
                    Some(v) => occ[i] && col[i] == v,
                    None => !occ[i] && col[i] == 0,
                }
            } else {
                !occ[i] && col[i] == 0
            }
        }
}

proof fn lemma_rank_grows(f: VoxelFrame, mz: int, c: int, a: int, b: int)
    requires
        0 <= a <= b,
    ensures
        0 <= f.rank(mz, c, a) <= f.rank(mz, c, b) <= b,
    decreases b,
{
    if a < b {
        lemma_rank_grows(f, mz, c, a, b - 1);
    } else if a > 0 {
        lemma_rank_grows(f, mz, c, a - 1, b - 1);
    }
}

/// Puts the voxels of column `c` of a frame into the box.
fn decode_frame_column(
    f: &VoxelFrame,
    dims: [u32; 3],
    idims: [i32; 3],
    occ: &mut Vec<bool>,
    col: &mut Vec<u32>,
    c: usize,
    owpc: usize,
)
    requires
        f.fits(dims),
        idims[0] == dims[0],
        idims[1] == dims[1],
        idims[2] == dims[2],
        c < dims[0] * dims[1],
        owpc == voxel_clip::words_per_column(dims[2] as int),
        old(occ)@.len() == volume(idims),
        old(col)@.len() == volume(idims),
        framed_up_to(idims, old(occ)@, old(col)@, *f, dims, c as int, 0),
    ensures
        final(occ)@.len() == volume(idims),
        final(col)@.len() == volume(idims),
        framed_up_to(idims, final(occ)@, final(col)@, *f, dims, c + 1, 0),
{
    let (mx, my, mz): (u32, u32, u32) = (dims[0], dims[1], dims[2]);
    let words: usize = f.occupancy.len();
    let total: usize = f.colors.len();
    proof {
        assert(mx > 0) by (nonlinear_arith)
            requires
                c < mx * my,
                c >= 0,
        ;
    }
    let x: u32 = (c as u32) % mx;
    let y: u32 = (c as u32) / mx;
    proof {
        vstd::arithmetic::div_mod::lemma_fundamental_div_mod(c as int, mx as int);
        assert(c == x + y * mx) by (nonlinear_arith)
            requires
                c as int == mx as int * (c as int / mx as int) + c as int % mx as int,
                y == c as int / mx as int,
                x == c as int % mx as int,
        ;
        assert(y < my) by (nonlinear_arith)
            requires
                c == x + y * mx,
                c < mx * my,
                0 <= x,
                mx > 0,
        ;
        assert(c * owpc + owpc <= (mx * my) * owpc) by (nonlinear_arith)
            requires
                c + 1 <= mx * my,
                owpc >= 0,
        ;
        assert(0 <= c * owpc) by (nonlinear_arith)
            requires
                c >= 0,
                owpc >= 0,
        ;
    }
    let run_start: usize = f.color_offsets[c] as usize;
    let base: usize = c * owpc;
    let mut k: usize = 0;
    let mut z: u32 = 0;
    while z < mz
        invariant
            f.fits(dims),
            mx == dims[0],
            my == dims[1],
            mz == dims[2],
            idims[0] == dims[0],
            idims[1] == dims[1],
            idims[2] == dims[2],
            c < mx * my,
            x < mx,
            y < my,
            c == x + y * mx,
            words == f.occupancy@.len(),
            total == f.colors@.len(),
            owpc == voxel_clip::words_per_column(mz as int),
            base == c * owpc,
            base + owpc <= words,
            run_start == f.color_offsets@[c as int],
            z <= mz,
            k == f.rank(mz as int, c as int, z as int),
            occ@.len() == volume(idims),
            col@.len() == volume(idims),
            framed_up_to(idims, occ@, col@, *f, dims, c as int, z as int),
        decreases mz - z,
    {
        proof {
            lemma_rank_grows(*f, mz as int, c as int, z as int, z + 1);
            lemma_rank_grows(*f, mz as int, c as int, z + 1, mz as int);
            assert(f.color_offsets@[c as int] + f.rank(mz as int, c as int, mz as int) <= total);
        }
        let word: u32 = f.occupancy[base + (z / 32) as usize];
        let ghost occ0 = occ@;
        let ghost col0 = col@;
        let here: bool = (word >> (z % 32)) & 1 != 0;
        assert(here == f.has(mz as int, c as int, z as int));
        if here {
            proof {
                lemma_dense_index(idims, x as int, y as int, z as int);
                assert(volume(idims) == mx * my * mz);
            }
            let i: usize = ((x * my + y) * mz + z) as usize;
            occ.set(i, true);
            col.set(i, full_bright(f.colors[run_start + k]));
            k += 1;
        }
        proof {
            assert forall|a: int, b: int, h: int|
                #![trigger dense_index(idims, a, b, h)]
                in_dims(idims, a, b, h) implies {
                let i = dense_index(idims, a, b, h);
                let at = a + b * dims[0];
                if at < c || (at == c && h < z + 1) {
                    match frame_voxel(*f, dims, a, b, h) {
                        Some(v) => occ@[i] && col@[i] == v,
                        None => !occ@[i] && col@[i] == 0,
                    }
                } else {
                    !occ@[i] && col@[i] == 0
                }
            } by {
                let i = dense_index(idims, a, b, h);
                lemma_dense_index(idims, a, b, h);
                if a == x && b == y && h == z {
                    assert(a + b * dims[0] == c);
                } else {
                    if here {
                        if i == dense_index(idims, x as int, y as int, z as int) {
                            lemma_dense_apart(idims, x as int, y as int, z as int, a, b, h);
                        }
                    }
                    assert(occ@[i] == occ0[i] && col@[i] == col0[i]);
                    if a + b * dims[0] == c && h == z {
                        lemma_digits(mx as int, b, a, y as int, x as int);
                    }
                }
            }
        }
        z += 1;
    }
}

impl SpriteDense {
    /// The box of a frame of these sizes.
    #[must_use]
    pub fn from_voxel_frame(frame: &VoxelFrame, dims: [u32; 3]) -> (d: SpriteDense)
        requires
            frame.fits(dims),
        ensures
            d.well_formed(),
            d.dims@ == seq![dims[0] as i32, dims[1] as i32, dims[2] as i32],
            d.mat@.len() == 0,
            forall|x: int, y: int, z: int|
                d.holds(x, y, z) ==> #[trigger] d.voxel(x, y, z) == frame_voxel(
                    *frame,
                    dims,
                    x,
                    y,
                    z,
                ),
    {
        let (mx, my, mz): (u32, u32, u32) = (dims[0], dims[1], dims[2]);
        let idims: [i32; 3] = [mx as i32, my as i32, mz as i32];
        proof {
            assert(0 <= mx * my) by (nonlinear_arith);
            assert(0 <= mx * my * mz) by (nonlinear_arith)
                requires
                    0 <= mx * my,
            ;
            assert(volume(idims) == mx * my * mz);
        }
        let owpc: usize = if mz == 0 {
            1
        } else {
            ((mz - 1) / 32 + 1) as usize
        };
        let n: usize = (mx * my * mz) as usize;
        let mut occ: Vec<bool> = vec![false; n];
        let mut col: Vec<u32> = vec![0u32; n];
        let columns: usize = (mx * my) as usize;
        let mut c: usize = 0;
        proof {
            assert forall|x: int, y: int, z: int|
                #![trigger dense_index(idims, x, y, z)]
                in_dims(idims, x, y, z) implies !occ@[dense_index(idims, x, y, z)]
                && col@[dense_index(idims, x, y, z)] == 0 && x + y * mx >= 0 by {
                lemma_dense_index(idims, x, y, z);
                assert(0 <= y * mx) by (nonlinear_arith)
                    requires
                        0 <= y,
                        0 <= mx,
                ;
            }
            assert(framed_up_to(idims, occ@, col@, *frame, dims, 0, 0));
        }
        while c < columns
            invariant
                frame.fits(dims),
                mx == dims[0],
                my == dims[1],
                mz == dims[2],
                idims[0] == dims[0],
                idims[1] == dims[1],
                idims[2] == dims[2],
                columns == mx * my,
                c <= columns,
                owpc == voxel_clip::words_per_column(mz as int),
                occ@.len() == volume(idims),
                col@.len() == volume(idims),
                framed_up_to(idims, occ@, col@, *frame, dims, c as int, 0),
            decreases columns - c,
        {
            decode_frame_column(frame, dims, idims, &mut occ, &mut col, c, owpc);
            c += 1;
        }
        let d: SpriteDense = SpriteDense { dims: idims, occ, col, mat: Vec::new() };
        proof {
            assert forall|x: int, y: int, z: int| d.holds(x, y, z) implies #[trigger] d.voxel(
                x,
                y,
                z,
            ) == frame_voxel(*frame, dims, x, y, z) by {
                let i = dense_index(idims, x, y, z);
                lemma_dense_index(idims, x, y, z);
                assert(x + y * mx < mx * my) by (nonlinear_arith)
                    requires
                        0 <= x < mx,
                        0 <= y < my,
                ;
            }
        }
        d
    }

    /// The box of a frame of these sizes, with materials by colour.
    #[must_use]
    pub fn from_voxel_frame_with_materials(
        frame: &VoxelFrame,
        dims: [u32; 3],
        material_map: &[(u32, u8)],
    ) -> (d: SpriteDense)
        requires
            frame.fits(dims),
        ensures
            d.is_frame(*frame, dims, material_map@),
    {
        let mut d: SpriteDense = SpriteDense::from_voxel_frame(frame, dims);
        let ghost plain = d;
        d.classify(material_map);
        assert forall|x: int, y: int, z: int| d.holds(x, y, z) implies #[trigger] d.voxel(x, y, z)
            == frame_voxel(*frame, dims, x, y, z) by {
            assert(plain.holds(x, y, z));
            assert(plain.voxel(x, y, z) == frame_voxel(*frame, dims, x, y, z));
        }
        d
    }

    /// Whether this is the box of a frame, with the materials that `map`
    /// gives its colours.
    pub open spec fn is_frame(
        self,
        frame: VoxelFrame,
        dims: [u32; 3],
        map: Seq<(u32, u8)>,
    ) -> bool {
        &&& self.well_formed()
        &&& self.dims@ == seq![dims[0] as i32, dims[1] as i32, dims[2] as i32]
        &&& forall|x: int, y: int, z: int|
            self.holds(x, y, z) ==> #[trigger] self.voxel(x, y, z) == frame_voxel(
                frame,
                dims,
                x,
                y,
                z,
            )
        &&& self.is_classified(self, map)
    }
}

/// A sprite whose lengths share its voxels out has the voxels that its
/// columns say.
pub proof fn lemma_shared_out_decodable(k: Kv6)
    requires
        k.shared_out(),
        k.xsiz <= i32::MAX && k.ysiz <= i32::MAX && k.zsiz <= i32::MAX,
        k.xsiz * k.ysiz <= i32::MAX,
        k.xsiz * k.ysiz * k.zsiz <= i32::MAX,
    ensures
        decodable(k),
{
    lemma_slices_are_columns(k, k.xsiz as int);
}

proof fn lemma_slices_are_columns(k: Kv6, x: int)
    requires
        k.shared_out(),
        0 <= x <= k.xsiz,
    ensures
        voxels_before(k.ylen@, k.ysiz as int, x) == kv6::slices_sum(k.xlen@, x),
    decreases x,
{
    if x > 0 {
        lemma_slices_are_columns(k, x - 1);
        assert(k.ylen@[x - 1]@.len() == k.ysiz);
    }
}

/// An animated sprite with the box of every frame.
#[derive(Debug)]
pub struct ClipFlipbook {
    pub frames: Vec<SpriteDense>,
}

impl ClipFlipbook {
    /// A sprite with no frames.
    #[must_use]
    pub fn empty() -> (r: ClipFlipbook)
        ensures
            r.frames@.len() == 0,
    {
        ClipFlipbook { frames: Vec::new() }
    }

    /// The boxes of all frames, with one material.
    #[must_use]
    pub fn from_decoded(clip: &DecodedClip) -> (r: ClipFlipbook)
        requires
            forall|i: int|
                0 <= i < clip.frames@.len() ==> (#[trigger] clip.frames@[i]).fits(clip.dims),
        ensures
            r.frames@.len() == clip.frames@.len(),
            forall|i: int|
                0 <= i < clip.frames@.len() ==> (#[trigger] r.frames@[i]).is_frame(
                    clip.frames@[i],
                    clip.dims,
                    Seq::<(u32, u8)>::empty(),
                ),
    {
        let none: [(u32, u8); 0] = [];
        let r: ClipFlipbook = ClipFlipbook::from_decoded_with_materials(clip, &none);
        assert(none@ =~= Seq::<(u32, u8)>::empty());
        r
    }

    /// The boxes of all frames, with materials by colour.
    #[must_use]
    pub fn from_decoded_with_materials(clip: &DecodedClip, material_map: &[(u32, u8)]) -> (r:
        ClipFlipbook)
        requires
            forall|i: int|
                0 <= i < clip.frames@.len() ==> (#[trigger] clip.frames@[i]).fits(clip.dims),
        ensures
            r.frames@.len() == clip.frames@.len(),
            forall|i: int|
                0 <= i < clip.frames@.len() ==> (#[trigger] r.frames@[i]).is_frame(
                    clip.frames@[i],
                    clip.dims,
                    material_map@,
                ),
    {
        let mut frames: Vec<SpriteDense> = Vec::new();
        let mut i: usize = 0;
        while i < clip.frames.len()
            invariant
                i <= clip.frames@.len(),
                frames@.len() == i,
                forall|k: int|
                    0 <= k < clip.frames@.len() ==> (#[trigger] clip.frames@[k]).fits(clip.dims),
                forall|k: int|
                    0 <= k < i ==> (#[trigger] frames@[k]).is_frame(
                        clip.frames@[k],
                        clip.dims,
                        material_map@,
                    ),
            decreases clip.frames@.len() - i,
        {
            frames.push(
                SpriteDense::from_voxel_frame_with_materials(
                    &clip.frames[i],
                    clip.dims,
                    material_map,
                ),
            );
            i += 1;
        }
        ClipFlipbook { frames }
    }

    /// Number of frames.
    #[must_use]
    pub fn frame_count(&self) -> (r: usize)
        ensures
            r == self.frames@.len(),
    {
        self.frames.len()
    }

    /// The box of a frame.
    #[must_use]
    pub fn frame(&self, frame: usize) -> (r: Option<&SpriteDense>)
        ensures
            match r {
                Some(d) => frame < self.frames@.len() && *d == self.frames@[frame as int],
                None => frame >= self.frames@.len(),
            },
    {
        if frame < self.frames.len() {
            Some(&self.frames[frame])
        } else {
            None
        }
    }

    /// Puts another box in the place of a frame's. Says whether there is
    /// such a frame.
    pub fn set_frame(&mut self, frame: usize, dense: SpriteDense) -> (r: bool)
        ensures
            r == (frame < old(self).frames@.len()),
            final(self).frames@ == if frame < old(self).frames@.len() {
                old(self).frames@.update(frame as int, dense)
            } else {
                old(self).frames@
            },
    {
        if frame < self.frames.len() {
            self.frames.set(frame, dense);
            true
        } else {
            false
        }
    }
}

/// How a sprite is drawn.
#[derive(Debug, Clone, Copy, PartialEq, Eq, Structural)]
pub enum SpritePass {
    /// Not at all.
    Nothing,
    /// By the first voxel along each ray.
    FirstHit,
    /// By all voxels along each ray, one layer over another.
    Layers,
}

impl SpriteDense {
    /// How the sprite is drawn: in layers where it has materials of its
    /// own or the one for the whole sprite is not opaque.
    pub open spec fn drawn_by(
        self,
        invisible: bool,
        has_materials: bool,
        uniform_opaque: bool,
    ) -> SpritePass {
        if invisible || self.occ@.len() == 0 {
            SpritePass::Nothing
        } else if has_materials && (self.mat@.len() > 0 || !uniform_opaque) {
            SpritePass::Layers
        } else {
            SpritePass::FirstHit
        }
    }

    /// How the sprite is drawn.
    #[must_use]
    pub fn sprite_pass(
        &self,
        invisible: bool,
        has_materials: bool,
        uniform_opaque: bool,
    ) -> (r: SpritePass)
        ensures
            r == self.drawn_by(invisible, has_materials, uniform_opaque),
    {
        if invisible || self.occ.len() == 0 {
            SpritePass::Nothing
        } else if has_materials && (self.mat.len() > 0 || !uniform_opaque) {
            SpritePass::Layers
        } else {
            SpritePass::FirstHit
        }
    }

    /// The material of a voxel: its own, or the one for the whole sprite.
    #[must_use]
    pub fn material_at(&self, i: usize, uniform: u8) -> (r: u8)
        requires
            self.well_formed(),
            i < volume(self.dims),
        ensures
            r == if self.mat@.len() == 0 {
                uniform
            } else {
                self.mat@[i as int]
            },
    {
        if self.mat.len() == 0 {
            uniform
        } else {
            self.mat[i]
        }
    }
}

/// What a voxel does to a ray that is drawn in layers.
#[derive(Debug, Clone, Copy, PartialEq, Eq, Structural)]
pub enum Visit {
    /// Nothing.
    Pass,
    /// It ends the ray.
    Stop,
    /// It lays one layer.
    Layer,
    /// It lays a layer as thick as the ray's way through it.
    Volume,
}

/// What a ray met last.
#[derive(Debug, Clone, Copy, PartialEq, Eq, Structural)]
pub struct SpanState {
    /// Whether the voxel before was solid.
    pub prev_solid: bool,
    /// The material of the last layer.
    pub prev_mat: u8,
}

impl SpanState {
    /// What a voxel does to the ray: `near` says whether it is not too
    /// close to the eye.
    pub open spec fn visited(
        self,
        solid: bool,
        near: bool,
        opaque: bool,
        volumetric: bool,
        mat: u8,
    ) -> Visit {
        if !solid || !near {
            Visit::Pass
        } else if opaque {
            Visit::Stop
        } else if volumetric {
            Visit::Volume
        } else if !self.prev_solid || mat != self.prev_mat {
            Visit::Layer
        } else {
            Visit::Pass
        }
    }

    /// The ray after a voxel that did `v` to it.
    pub open spec fn after(self, v: Visit, solid: bool, mat: u8) -> SpanState {
        SpanState {
            prev_solid: solid,
            prev_mat: if v == Visit::Layer || v == Visit::Volume {
                mat
            } else {
                self.prev_mat
            },
        }
    }

    /// A ray that has met nothing.
    #[must_use]
    pub fn new() -> (r: SpanState)
        ensures
            r == (SpanState { prev_solid: false, prev_mat: 0 }),
    {
        SpanState { prev_solid: false, prev_mat: 0 }
    }

    /// Takes the ray through a voxel.
    pub fn visit(
        &mut self,
        solid: bool,
        near: bool,
        opaque: bool,
        volumetric: bool,
        mat: u8,
    ) -> (r: Visit)
        ensures
            r == old(self).visited(solid, near, opaque, volumetric, mat),
            *final(self) == old(self).after(r, solid, mat),
    {
        let v: Visit = if !solid || !near {
            Visit::Pass
        } else if opaque {
            Visit::Stop
        } else if volumetric {
            Visit::Volume
        } else if !self.prev_solid || mat != self.prev_mat {
            Visit::Layer
        } else {
            Visit::Pass
        };
        if v == Visit::Layer || v == Visit::Volume {
            self.prev_mat = mat;
        }
        self.prev_solid = solid;
        v
    }
}

/// The layers that a ray lays through a row of voxels of one translucent
/// material, of which `solids` says which are solid, up to `n`.
pub open spec fn layers_laid(s: SpanState, solids: Seq<bool>, n: int, mat: u8) -> (SpanState, int)
    decreases n,
{
    if n <= 0 {
        (s, 0)
    } else {
        let (t, count) = layers_laid(s, solids, n - 1, mat);
        let v = t.visited(solids[n - 1], true, false, false, mat);
        (
            t.after(v, solids[n - 1], mat),
            count + if v == Visit::Layer {
                1int
            } else {
                0int
            },
        )
    }
}

/// Number of runs of solid voxels that begin before `n`.
pub open spec fn runs_begun(solids: Seq<bool>, n: int) -> int
    decreases n,
{
    if n <= 0 {
        0
    } else {
        runs_begun(solids, n - 1) + if solids[n - 1] && (n == 1 || !solids[n - 2]) {
            1int
        } else {
            0int
        }
    }
}

/// A translucent sprite of one material is one layer for each run of
/// solid voxels, however thick it is.
pub proof fn lemma_one_layer_per_run(solids: Seq<bool>, n: int, mat: u8)
    requires
        0 <= n <= solids.len(),
    ensures
        ({
            let s = SpanState { prev_solid: false, prev_mat: 0 };
            let (t, count) = layers_laid(s, solids, n, mat);
            &&& count == runs_begun(solids, n)
            &&& t.prev_solid == (n > 0 && solids[n - 1])
            &&& t.prev_solid ==> t.prev_mat == mat
        }),
    decreases n,
{
    if n > 0 {
        lemma_one_layer_per_run(solids, n - 1, mat);
    }
}

/// A colour at full brightness has its red, green and blue, and a
/// brightness of a half.
pub proof fn lemma_bright_keeps_hue(col: u32)
    ensures
        forall|i: int|
            0 <= i < 3 ==> #[trigger] color::byte_of(bright(col), i) == color::byte_of(col, i),
        color::byte_of(bright(col), 3) == 0x80,
{
    color::lemma_bytes_of_packed(
        color::byte_of(col, 0),
        color::byte_of(col, 1),
        color::byte_of(col, 2),
        0x80,
    );
}

/// The voxels of a box come along z, then along y, then along x.
pub proof fn lemma_voxels_in_rows(dims: [i32; 3], x: int, y: int, z: int)
    ensures
        dense_index(dims, 0, 0, 0) == 0,
        dense_index(dims, x, y, z + 1) == dense_index(dims, x, y, z) + 1,
        dense_index(dims, x, y + 1, z) == dense_index(dims, x, y, z) + dims[2],
        dense_index(dims, x + 1, y, z) == dense_index(dims, x, y, z) + dims[1] * dims[2],
{
    let (h, d) = (dims[1] as int, dims[2] as int);
    assert((x * h + y + 1) * d == (x * h + y) * d + d) by (nonlinear_arith);
    assert(((x + 1) * h + y) * d == (x * h + y) * d + h * d) by (nonlinear_arith);
    assert(0 * h == 0 && 0 * d == 0) by (nonlinear_arith);
}

/// The columns of a sprite come one after the other in its list of
/// voxels, each as long as its entry says: along y in a slice, and then
/// slice by slice.
pub proof fn lemma_columns_follow(k: Kv6, x: int, y: int)
    requires
        0 <= x,
        0 <= y,
    ensures
        column_start(k, 0, 0) == 0,
        column_start(k, x, y + 1) == column_start(k, x, y) + k.ylen@[x]@[y],
        column_start(k, x + 1, 0) == column_start(k, x, k.ysiz as int),
{
}

proof fn lemma_last_at(voxels: Seq<Voxel>, start: int, end: int, z: int)
    ensures
        match last_at(voxels, start, end, z) {
            Some(j) => {
                &&& start <= j < end
                &&& voxels[j].z == z
                &&& forall|i: int| j < i < end ==> (#[trigger] voxels[i]).z != z
            },
            None => forall|i: int| start <= i < end ==> (#[trigger] voxels[i]).z != z,
        },
    decreases end - start,
{
    if end > start && voxels[end - 1].z != z {
        lemma_last_at(voxels, start, end - 1, z);
    }
}

/// A voxel of a sprite is there exactly where its column lists its
/// height, and it has the hue that is listed last for it, at full
/// brightness.
pub proof fn lemma_voxel_is_listed(k: Kv6, x: int, y: int, z: int)
    ensures
        ({
            let start = column_start(k, x, y);
            let end = start + k.ylen@[x]@[y];
            &&& kv6_voxel(k, x, y, z) is Some <==> exists|i: int|
                start <= i < end && (#[trigger] k.voxels@[i]).z == z
            &&& forall|i: int|
                start <= i < end && (#[trigger] k.voxels@[i]).z == z && (forall|j: int|
                    i < j < end ==> (#[trigger] k.voxels@[j]).z != z) ==> ({
                    let c = kv6_voxel(k, x, y, z)->0;
                    &&& color::byte_of(c, 0) == color::byte_of(k.voxels@[i].col, 0)
                    &&& color::byte_of(c, 1) == color::byte_of(k.voxels@[i].col, 1)
                    &&& color::byte_of(c, 2) == color::byte_of(k.voxels@[i].col, 2)
                    &&& color::byte_of(c, 3) == 0x80
                })
        }),
{
    let start = column_start(k, x, y);
    let end = start + k.ylen@[x]@[y];
    lemma_last_at(k.voxels@, start, end, z);
    assert forall|i: int|
        start <= i < end && (#[trigger] k.voxels@[i]).z == z && (forall|j: int|
            i < j < end ==> (#[trigger] k.voxels@[j]).z != z) implies ({
        let c = kv6_voxel(k, x, y, z)->0;
        &&& color::byte_of(c, 0) == color::byte_of(k.voxels@[i].col, 0)
        &&& color::byte_of(c, 1) == color::byte_of(k.voxels@[i].col, 1)
        &&& color::byte_of(c, 2) == color::byte_of(k.voxels@[i].col, 2)
        &&& color::byte_of(c, 3) == 0x80
    }) by {
        let last = last_at(k.voxels@, start, end, z)->0;
        assert(last == i);
        lemma_bright_keeps_hue(k.voxels@[i].col);
    }
}

impl SpriteDense {
    /// A ray leaves the box of a sprite exactly where its voxel is out of
    /// it or it is past its end; else it hits its voxel where that is
    /// solid, and sees the voxel's colour.
    pub proof fn lemma_hop_decides(self, w: CellWalk, past_end: bool, i: int)
        requires
            w.lo@ == seq![0i32, 0i32, 0i32],
            w.hi == self.dims,
            i == (w.cell[0] * self.dims[1] + w.cell[1]) * self.dims[2] + w.cell[2],
        ensures
            self.hopped(w, past_end) is Leave <==> past_end || w.cell[0] < 0 || w.cell[1] < 0
                || w.cell[2] < 0 || w.cell[0] >= self.dims[0] || w.cell[1] >= self.dims[1]
                || w.cell[2] >= self.dims[2],
            self.hopped(w, past_end) is Hit ==> self.occ@[i],
            self.hopped(w, past_end) is Air ==> !self.occ@[i],
            self.hopped(w, past_end) matches Hop::Hit(c) ==> c == self.col@[i],
    {
        assert(w.lo@[0] == 0 && w.lo@[1] == 0 && w.lo@[2] == 0);
    }

    /// A ray through the box of a sprite may take eight steps more than
    /// the box's three edges have voxels, so that no walk from voxel to
    /// voxel is cut short.
    pub proof fn lemma_budget_outlasts_sprite(self, w: CellWalk, axes: Seq<int>)
        requires
            w.lo@ == seq![0i32, 0i32, 0i32],
            w.hi == self.dims,
            forall|i: int|
                0 <= i < axes.len() ==> 0 <= #[trigger] axes[i] < 3 && (w.step[axes[i]] == 1
                    || w.step[axes[i]] == -1),
            forall|n: int|
                0 <= n <= axes.len() ==> walk::cell_in_box(
                    #[trigger] walk::walked(w.cell, w.step, axes.take(n)),
                    w.lo,
                    w.hi,
                ),
        ensures
            axes.len() + 8 < self.step_budget(),
            self.step_budget() + 8 == w.step_budget() || w.edge(0) + w.edge(1) + w.edge(2) < 0,
    {
        assert(w.lo@[0] == 0 && w.lo@[1] == 0 && w.lo@[2] == 0);
        walk::lemma_walk_leaves_the_box(w, axes);
    }

    /// A sprite is not drawn where it is invisible or has no voxel; it is
    /// drawn in layers only where materials are known and one of its own
    /// or the one for the whole sprite may let light through.
    pub proof fn lemma_way_of_drawing(
        self,
        invisible: bool,
        has_materials: bool,
        uniform_opaque: bool,
    )
        ensures
            self.drawn_by(invisible, has_materials, uniform_opaque) is Nothing <==> invisible
                || self.occ@.len() == 0,
            self.drawn_by(invisible, has_materials, uniform_opaque) is Layers ==> has_materials
                && (self.mat@.len() > 0 || !uniform_opaque),
            self.drawn_by(invisible, has_materials, uniform_opaque) is FirstHit ==> (has_materials
                ==> self.mat@.len() == 0 && uniform_opaque),
    {
    }
}

impl SpanState {
    /// Air and voxels too close to the eye let a ray through. Of the
    /// others an opaque one stops it, one of a volume is gone through,
    /// and one of another kind lays a layer, unless the voxel before it
    /// was solid and of the same material.
    pub proof fn lemma_voxel_decides(
        self,
        solid: bool,
        near: bool,
        opaque: bool,
        volumetric: bool,
        mat: u8,
    )
        ensures
            ({
                let v = self.visited(solid, near, opaque, volumetric, mat);
                let t = self.after(v, solid, mat);
                &&& v is Stop <==> solid && near && opaque
                &&& v is Volume <==> solid && near && !opaque && volumetric
                &&& v is Layer ==> solid && near && !opaque && !volumetric
                &&& solid && near && !opaque && !volumetric && self.prev_solid && self.prev_mat
                    == mat ==> v is Pass
                &&& solid && near && !opaque && !volumetric && !self.prev_solid ==> v is Layer
                &&& solid && near && !opaque && !volumetric && self.prev_mat != mat ==> v is Layer
                &&& t.prev_solid == solid
                &&& v is Layer || v is Volume ==> t.visited(
                    true,
                    true,
                    false,
                    false,
                    mat,
                ) is Pass
                &&& v is Pass || v is Stop ==> t.prev_mat == self.prev_mat
            }),
    {
    }
}

/// A voxel of a frame is there where the frame has it, with the frame's
/// red, green and blue at full brightness.
pub proof fn lemma_frame_voxel_keeps_hue(f: VoxelFrame, dims: [u32; 3], x: int, y: int, z: int)
    ensures
        frame_voxel(f, dims, x, y, z) is Some <==> f.voxel(dims, x, y, z) is Some,
        f.voxel(dims, x, y, z) matches Some(c) ==> {
            let shown = frame_voxel(f, dims, x, y, z)->0;
            &&& color::byte_of(shown, 0) == color::byte_of(c, 0)
            &&& color::byte_of(shown, 1) == color::byte_of(c, 1)
            &&& color::byte_of(shown, 2) == color::byte_of(c, 2)
            &&& color::byte_of(shown, 3) == 0x80
        },
{
    if f.voxel(dims, x, y, z) is Some {
        lemma_bright_keeps_hue(f.voxel(dims, x, y, z)->0);
    }
}

/// A solid voxel of a classified sprite has the material of the first
/// entry of the map that names its colour, and material zero where none
/// does; air has material zero.
pub proof fn lemma_classified_by_first_entry(
    s: SpriteDense,
    d: SpriteDense,
    map: Seq<(u32, u8)>,
    i: int,
    k: int,
)
    requires
        s.is_classified(d, map),
        map.len() > 0,
        0 <= i < s.mat@.len(),
        0 <= k <= map.len(),
        forall|j: int| 0 <= j < k ==> !#[trigger] material::names_color(map, j, s.col@[i]),
        k < map.len() ==> material::names_color(map, k, s.col@[i]),
    ensures
        s.occ@[i] && k < map.len() ==> s.mat@[i] == map[k].1,
        s.occ@[i] && k == map.len() ==> s.mat@[i] == 0,
        !s.occ@[i] ==> s.mat@[i] == 0,
        s.occ@ == d.occ@ && s.col@ == d.col@,
{
    material::lemma_first_entry_counts(map, s.col@[i], k);
}

} // verus!
