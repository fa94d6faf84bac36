//! The walk of a ray from cell to cell.
//!
//! The walk itself is in whole cells. Where the ray is along its way, and
//! which boundary it crosses next, is told from outside at each step.
use crate::arith;
use crate::dda::sampler;
use crate::dda::sampler::Sampler;
use vstd::prelude::*;

verus! {

/// The cell of level `mip` that a voxel lies in, along one axis.
pub open spec fn coarse(v: i32, mip: u32) -> int {
    v as int / (1u32 << mip) as int
}

fn coarse_of(v: i32, mip: u32) -> (r: i32)
    requires
        mip <= 30,
    ensures
        r == coarse(v, mip),
{
    proof {
        arith::lemma_shr_divides(v, mip);
    }
    v >> mip
}

/// A box of voxels in cells of level `mip`.
#[must_use]
pub fn cell_box(lo: [i32; 3], hi: [i32; 3], mip: u32) -> (r: ([i32; 3], [i32; 3]))
    requires
        mip <= 30,
    ensures
        forall|a: int| 0 <= a < 3 ==> #[trigger] r.0[a] == coarse(lo[a], mip),
        forall|a: int| 0 <= a < 3 ==> #[trigger] r.1[a] == coarse(hi[a], mip),
{
    (
        [coarse_of(lo[0], mip), coarse_of(lo[1], mip), coarse_of(lo[2], mip)],
        [coarse_of(hi[0], mip), coarse_of(hi[1], mip), coarse_of(hi[2], mip)],
    )
}

/// Whether a translucent cell begins a layer: the first of a run of solid
/// cells, or the first of another material.
pub open spec fn begins_layer(prev_solid: bool, prev_mat: u8, mat: u8) -> bool {
    !prev_solid || mat != prev_mat
}

/// What a ray does in a cell that it stands in.
#[derive(Debug, Clone, Copy, PartialEq, Eq, Structural)]
pub enum Look {
    /// It has left the grid.
    Exit,
    /// It has gone into full fog.
    Fog,
    /// It passes over an empty block with an edge of two to this power.
    Skip(u32),
    /// It looks at the cell.
    Cell,
}

/// What a solid cell does to a ray.
#[derive(Debug, Clone, Copy, PartialEq, Eq, Structural)]
pub enum Surface {
    /// It ends the ray.
    Stop,
    /// It lays one layer over what is behind it.
    Layer,
    /// It goes on with the layer of the cell before it.
    Same,
}

/// A ray on its way through the cells of a box.
#[derive(Debug, Clone, Copy)]
pub struct CellWalk {
    /// The box, up to but without `hi`.
    pub lo: [i32; 3],
    pub hi: [i32; 3],
    /// Direction along each axis.
    pub step: [i32; 3],
    /// The cell that the ray stands in.
    pub cell: [i32; 3],
    /// The axis that it crossed into the cell along; 3 for the first cell.
    pub last_axis: usize,
    /// Whether the cell before was solid, and the material of the last
    /// layer.
    pub prev_solid: bool,
    pub prev_mat: u8,
    /// Whether any layer was laid.
    pub touched: bool,
}

/// Whether a cell lies in a box.
pub open spec fn in_box(c: [i32; 3], lo: [i32; 3], hi: [i32; 3]) -> bool {
    &&& lo[0] <= c[0] < hi[0]
    &&& lo[1] <= c[1] < hi[1]
    &&& lo[2] <= c[2] < hi[2]
}

fn is_in_box(c: [i32; 3], lo: [i32; 3], hi: [i32; 3]) -> (r: bool)
    ensures
        r == in_box(c, lo, hi),
{
    c[0] >= lo[0] && c[0] < hi[0] && c[1] >= lo[1] && c[1] < hi[1] && c[2] >= lo[2] && c[2] < hi[2]
}

/// `v` cut to the range of a box along one axis.
pub open spec fn clamped(v: i32, lo: i32, hi: i32) -> int {
    if v < lo {
        lo as int
    } else if v > hi - 1 {
        hi - 1
    } else {
        v as int
    }
}

fn clamp_to(v: i32, lo: i32, hi: i32) -> (r: i32)
    requires
        lo < hi,
    ensures
        r == clamped(v, lo, hi),
{
    if v < lo {
        lo
    } else if v > hi - 1 {
        hi - 1
    } else {
        v
    }
}

/// The boundary of the block of `n` cells around `v` that a ray crosses
/// in direction `step`.
pub open spec fn boundary(v: i32, step: i32, n: int) -> i32 {
    if step > 0 {
        arith::wrap32((v as int / n + 1) * n)
    } else if step < 0 {
        (v as int / n * n) as i32
    } else {
        0
    }
}

/// Shifting a coordinate gives the index of its block.
proof fn lemma_blocks(v: i32)
    ensures
        v >> 3u32 == v as int / 8,
        v >> 6u32 == v as int / 64,
{
    assert(1u32 << 3u32 == 8 && 1u32 << 6u32 == 64) by (bit_vector);
    arith::lemma_shr_divides(v, 3);
    arith::lemma_shr_divides(v, 6);
}

fn boundary_of(v: i32, step: i32, shift: u32) -> (r: i32)
    requires
        shift == 3 || shift == 6,
    ensures
        r == boundary(
            v,
            step,
            if shift == 3 {
                8
            } else {
                64
            },
        ),
{
    let n: i32 = if shift == 3 {
        8
    } else {
        64
    };
    let i: i32 = v >> shift;
    proof {
        lemma_blocks(v);
    }
    if step > 0 {
        (i + 1).wrapping_mul(n)
    } else if step < 0 {
        i * n
    } else {
        0
    }
}

impl CellWalk {
    /// A ray that starts in the cell of the box that is nearest to
    /// `start`.
    #[must_use]
    pub fn new(lo: [i32; 3], hi: [i32; 3], step: [i32; 3], start: [i32; 3]) -> (w: CellWalk)
        requires
            lo[0] < hi[0],
            lo[1] < hi[1],
            lo[2] < hi[2],
        ensures
            w.lo == lo,
            w.hi == hi,
            w.step == step,
            forall|a: int| 0 <= a < 3 ==> #[trigger] w.cell[a] == clamped(start[a], lo[a], hi[a]),
            in_box(w.cell, lo, hi),
            w.last_axis == 3,
            !w.prev_solid,
            w.prev_mat == 0,
            !w.touched,
    {
        CellWalk {
            lo,
            hi,
            step,
            cell: [
                clamp_to(start[0], lo[0], hi[0]),
                clamp_to(start[1], lo[1], hi[1]),
                clamp_to(start[2], lo[2], hi[2]),
            ],
            last_axis: 3,
            prev_solid: false,
            prev_mat: 0,
            touched: false,
        }
    }

    /// Whether the ray is still in the box.
    #[must_use]
    pub fn is_inside(&self) -> (r: bool)
        ensures
            r == in_box(self.cell, self.lo, self.hi),
    {
        is_in_box(self.cell, self.lo, self.hi)
    }

    /// The face that the ray crossed into its cell, along one axis.
    pub open spec fn crossed_face(self, a: int) -> int {
        if a == self.last_axis {
            -self.step[a]
        } else {
            0
        }
    }

    /// The most steps that the ray may take.
    pub open spec fn step_budget(self) -> int {
        arith::max_int(self.edge(0) + self.edge(1) + self.edge(2), 0) + 16
    }

    /// The face that the ray crossed into its cell, as a vector back
    /// along the axis; zero for the first cell.
    #[must_use]
    pub fn face(&self) -> (r: [i32; 3])
        requires
            self.last_axis <= 3,
            self.last_axis < 3 ==> self.step[self.last_axis as int] > i32::MIN,
        ensures
            forall|a: int|
                0 <= a < 3 ==> #[trigger] r[a] == if a == self.last_axis {
                    -self.step[a]
                } else {
                    0
                },
            forall|a: int| 0 <= a < 3 ==> #[trigger] r[a] == self.crossed_face(a),
    {
        let mut r: [i32; 3] = [0, 0, 0];
        if self.last_axis < 3 {
            r[self.last_axis] = -self.step[self.last_axis];
        }
        r
    }

    /// Length of the box's edge along an axis.
    pub open spec fn edge(self, axis: int) -> int {
        self.hi[axis] - self.lo[axis]
    }

    /// The most steps that the ray may take: one for each cell of the
    /// box's three edges, and a few more.
    #[must_use]
    pub fn max_steps(&self) -> (r: usize)
        requires
            i32::MIN <= self.edge(0) <= i32::MAX,
            i32::MIN <= self.edge(1) <= i32::MAX,
            i32::MIN <= self.edge(2) <= i32::MAX,
            i32::MIN <= self.edge(0) + self.edge(1) <= i32::MAX,
            i32::MIN <= self.edge(0) + self.edge(1) + self.edge(2) <= i32::MAX,
        ensures
            r == arith::max_int(self.edge(0) + self.edge(1) + self.edge(2), 0) + 16,
            r == self.step_budget(),
    {
        let span: i32 = (self.hi[0] - self.lo[0]) + (self.hi[1] - self.lo[1]) + (self.hi[2]
            - self.lo[2]);
        if span > 0 {
            span as usize + 16
        } else {
            16
        }
    }

    /// What the ray does in its cell, when it is past its end or in full
    /// fog there.
    pub open spec fn looked(self, s: Sampler<'_>, past_end: bool, fogged: bool) -> Look {
        let (x, y, z) = (self.cell[0] as int, self.cell[1] as int, self.cell[2] as int);
        if !in_box(self.cell, self.lo, self.hi) || past_end {
            Look::Exit
        } else if fogged {
            Look::Fog
        } else if s.side() >= 64 && s.height() >= 64 && !s.super_marked(
            x / 64 * 64,
            y / 64 * 64,
            z / 64 * 64,
        ) {
            Look::Skip(6)
        } else if s.side() >= 8 && s.height() >= 8 && !s.brick_marked(
            x / 8 * 8,
            y / 8 * 8,
            z / 8 * 8,
        ) {
            Look::Skip(3)
        } else {
            Look::Cell
        }
    }

    /// Whether the chunks of the blocks around the cell can be looked up.
    pub open spec fn blocks_reachable(self, s: Sampler<'_>) -> bool {
        let (x, y, z) = (self.cell[0] as int, self.cell[1] as int, self.cell[2] as int);
        s.reachable(x / 64 * 64, y / 64 * 64, z / 64 * 64) && s.reachable(
            x / 8 * 8,
            y / 8 * 8,
            z / 8 * 8,
        )
    }

    /// Tells whether the chunks of the blocks around the cell can be
    /// looked up.
    #[must_use]
    pub fn can_look(&self, s: &Sampler<'_>) -> (r: bool)
        requires
            s.well_formed(),
        ensures
            r == self.blocks_reachable(*s),
    {
        let c: [i32; 3] = self.cell;
        proof {
            lemma_blocks(c[0]);
            lemma_blocks(c[1]);
            lemma_blocks(c[2]);
        }
        let far: [i32; 3] = [(c[0] >> 6u32) * 64, (c[1] >> 6u32) * 64, (c[2] >> 6u32) * 64];
        let near: [i32; 3] = [(c[0] >> 3u32) * 8, (c[1] >> 3u32) * 8, (c[2] >> 3u32) * 8];
        s.grid.can_index(s.locate(far).0) && s.grid.can_index(s.locate(near).0)
    }

    /// What the ray does in its cell, when it is past its end or in full
    /// fog there.
    pub fn look<'a>(&self, s: &mut Sampler<'a>, past_end: bool, fogged: bool) -> (r: Look)
        requires
            old(s).well_formed(),
            in_box(self.cell, self.lo, self.hi) && !past_end && !fogged ==> self.blocks_reachable(
                *old(s),
            ),
        ensures
            final(s).well_formed(),
            final(s).same_world(*old(s)),
            r == self.looked(*old(s), past_end, fogged),
    {
        if !is_in_box(self.cell, self.lo, self.hi) || past_end {
            return Look::Exit;
        }
        if fogged {
            return Look::Fog;
        }
        let c: [i32; 3] = self.cell;
        proof {
            lemma_blocks(c[0]);
            lemma_blocks(c[1]);
            lemma_blocks(c[2]);
        }
        let side: i32 = s.cells_per_chunk_xy();
        let height: i32 = s.cells_per_chunk_z();
        if side >= 64 && height >= 64 {
            if !s.super_occupied([c[0] >> 6u32, c[1] >> 6u32, c[2] >> 6u32]) {
                return Look::Skip(6);
            }
        }
        if side >= 8 && height >= 8 {
            if !s.brick_occupied([c[0] >> 3u32, c[1] >> 3u32, c[2] >> 3u32]) {
                return Look::Skip(3);
            }
        }
        Look::Cell
    }

    /// Where the ray can cross out of the block around its cell, along
    /// each axis.
    #[must_use]
    pub fn planes(&self, shift: u32) -> (r: [i32; 3])
        requires
            shift == 3 || shift == 6,
        ensures
            forall|a: int|
                0 <= a < 3 ==> #[trigger] r[a] == boundary(
                    self.cell[a],
                    self.step[a],
                    if shift == 3 {
                        8
                    } else {
                        64
                    },
                ),
    {
        [
            boundary_of(self.cell[0], self.step[0], shift),
            boundary_of(self.cell[1], self.step[1], shift),
            boundary_of(self.cell[2], self.step[2], shift),
        ]
    }

    /// The cell behind a boundary that the ray crosses along `axis`.
    pub open spec fn landing(self, axis: int, plane: i32, landed: [i32; 3]) -> Seq<i32> {
        landed@.update(
            axis,
            if self.step[axis] > 0 {
                plane
            } else {
                (plane - 1) as i32
            },
        )
    }

    /// Takes the ray across a boundary along `axis`: to the cell behind
    /// it along that axis, and to `landed` along the others. Says whether
    /// it is still in the box; it stays where it was if not.
    pub fn land(&mut self, axis: usize, plane: i32, landed: [i32; 3]) -> (r: bool)
        requires
            axis < 3,
            old(self).step[axis as int] <= 0 ==> plane > i32::MIN,
        ensures
            ({
                let to = old(self).landing(axis as int, plane, landed);
                &&& r == (old(self).lo[0] <= to[0] < old(self).hi[0] && old(self).lo[1] <= to[1]
                    < old(self).hi[1] && old(self).lo[2] <= to[2] < old(self).hi[2])
                &&& r ==> final(self).cell@ == to && final(self).last_axis == axis
                    && !final(self).prev_solid && *final(self) == (CellWalk {
                    cell: final(self).cell,
                    last_axis: axis,
                    prev_solid: false,
                    ..*old(self)
                })
                &&& !r ==> *final(self) == *old(self)
            }),
    {
        let mut to: [i32; 3] = landed;
        to[axis] = if self.step[axis] > 0 {
            plane
        } else {
            plane - 1
        };
        if !is_in_box(to, self.lo, self.hi) {
            return false;
        }
        self.cell = to;
        self.last_axis = axis;
        self.prev_solid = false;
        true
    }

    /// What a solid cell of this material does to the ray.
    pub open spec fn surfaced(self, opaque: bool, mat: u8) -> Surface {
        if opaque {
            Surface::Stop
        } else if begins_layer(self.prev_solid, self.prev_mat, mat) {
            Surface::Layer
        } else {
            Surface::Same
        }
    }

    /// The ray after a solid cell of this material.
    pub open spec fn after_surface(self, opaque: bool, mat: u8) -> CellWalk {
        match self.surfaced(opaque, mat) {
            Surface::Stop => self,
            Surface::Layer => CellWalk { touched: true, prev_mat: mat, prev_solid: true, ..self },
            Surface::Same => CellWalk { prev_solid: true, ..self },
        }
    }

    /// Takes the ray through a solid cell of this material.
    pub fn surface(&mut self, opaque: bool, mat: u8) -> (r: Surface)
        ensures
            r == old(self).surfaced(opaque, mat),
            *final(self) == old(self).after_surface(opaque, mat),
    {
        if opaque {
            return Surface::Stop;
        }
        if !self.prev_solid || mat != self.prev_mat {
            self.touched = true;
            self.prev_mat = mat;
            self.prev_solid = true;
            Surface::Layer
        } else {
            self.prev_solid = true;
            Surface::Same
        }
    }

    /// The ray after a cell of air.
    pub open spec fn after_air(self) -> CellWalk {
        CellWalk { prev_solid: false, ..self }
    }

    /// Takes the ray through a cell of air.
    pub fn air(&mut self)
        ensures
            *final(self) == old(self).after_air(),
    {
        self.prev_solid = false;
    }

    /// Takes the ray to the next cell along `axis`.
    pub fn advance(&mut self, axis: usize)
        requires
            axis < 3,
            i32::MIN <= old(self).cell[axis as int] + old(self).step[axis as int] <= i32::MAX,
        ensures
            final(self).cell@ == old(self).cell@.update(
                axis as int,
                (old(self).cell[axis as int] + old(self).step[axis as int]) as i32,
            ),
            *final(self) == (CellWalk {
                cell: final(self).cell,
                last_axis: axis,
                ..*old(self)
            }),
    {
        self.last_axis = axis;
        let next: i32 = self.cell[axis] + self.step[axis];
        self.cell[axis] = next;
    }
}

/// The cell after steps along these axes, one after the other.
pub open spec fn walked(cell: [i32; 3], step: [i32; 3], axes: Seq<int>) -> Seq<int>
    decreases axes.len(),
{
    if axes.len() == 0 {
        Seq::new(3, |a: int| cell[a] as int)
    } else {
        let c = walked(cell, step, axes.drop_last());
        let a = axes.last();
        c.update(a, c[a] + step[a])
    }
}

/// Whether a cell lies in a box.
pub open spec fn cell_in_box(c: Seq<int>, lo: [i32; 3], hi: [i32; 3]) -> bool {
    forall|a: int| 0 <= a < 3 ==> lo[a] <= #[trigger] c[a] < hi[a]
}

/// Cells that a ray still has before it along one axis.
spec fn cells_ahead(c: Seq<int>, w: CellWalk, a: int) -> int {
    if w.step[a] > 0 {
        w.hi[a] - 1 - c[a]
    } else {
        c[a] - w.lo[a]
    }
}

/// A ray that goes from cell to cell in its box takes fewer steps than
/// the box's three edges have cells, so the most that it may take never
/// cuts it short.
pub proof fn lemma_walk_leaves_the_box(w: CellWalk, axes: Seq<int>)
    requires
        forall|i: int|
            0 <= i < axes.len() ==> 0 <= #[trigger] axes[i] < 3 && (w.step[axes[i]] == 1
                || w.step[axes[i]] == -1),
        forall|n: int|
            0 <= n <= axes.len() ==> cell_in_box(
                #[trigger] walked(w.cell, w.step, axes.take(n)),
                w.lo,
                w.hi,
            ),
    ensures
        axes.len() <= w.edge(0) + w.edge(1) + w.edge(2) - 3,
{
    let n = axes.len() as int;
    lemma_cells_used_up(w, axes, n);
    assert(cell_in_box(walked(w.cell, w.step, axes.take(n)), w.lo, w.hi));
    assert(cell_in_box(walked(w.cell, w.step, axes.take(0)), w.lo, w.hi));
    let c = walked(w.cell, w.step, axes.take(n));
    let d = walked(w.cell, w.step, axes.take(0));
    assert(w.lo[0] <= c[0] < w.hi[0] && w.lo[1] <= c[1] < w.hi[1] && w.lo[2] <= c[2] < w.hi[2]);
    assert(w.lo[0] <= d[0] < w.hi[0] && w.lo[1] <= d[1] < w.hi[1] && w.lo[2] <= d[2] < w.hi[2]);
}

/// Each step uses up one of the cells before the ray.
proof fn lemma_cells_used_up(w: CellWalk, axes: Seq<int>, n: int)
    requires
        0 <= n <= axes.len(),
        forall|i: int|
            0 <= i < axes.len() ==> 0 <= #[trigger] axes[i] < 3 && (w.step[axes[i]] == 1
                || w.step[axes[i]] == -1),
    ensures
        ({
            let c = walked(w.cell, w.step, axes.take(n));
            let d = walked(w.cell, w.step, axes.take(0));
            &&& c.len() == 3
            &&& cells_ahead(c, w, 0) + cells_ahead(c, w, 1) + cells_ahead(c, w, 2) + n
                == cells_ahead(d, w, 0) + cells_ahead(d, w, 1) + cells_ahead(d, w, 2)
        }),
    decreases n,
{
    if n > 0 {
        lemma_cells_used_up(w, axes, n - 1);
        assert(axes.take(n).drop_last() =~= axes.take(n - 1));
        assert(axes.take(n).last() == axes[n - 1]);
        let c = walked(w.cell, w.step, axes.take(n - 1));
        let a = axes[n - 1];
        let d = walked(w.cell, w.step, axes.take(n));
        assert(d == c.update(a, c[a] + w.step[a]));
    }
}

/// Passing over a block misses nothing: where the ray is told to skip,
/// every cell of the block around its own is air.
pub proof fn lemma_skip_misses_nothing(
    w: CellWalk,
    s: Sampler<'_>,
    n: int,
    x: int,
    y: int,
    z: int,
)
    requires
        sampler::up_to_date(s),
        w.looked(s, false, false) == Look::Skip(
            if n == 8 {
                3
            } else {
                6
            },
        ),
        n == 8 || n == 64,
        x / n == w.cell[0] as int / n,
        y / n == w.cell[1] as int / n,
        z / n == w.cell[2] as int / n,
        sampler::in_layers(s, z),
        sampler::index_fits(s, x, y, z),
    ensures
        s.surface(x, y, z) is None,
{
    let (a, b, c) = (w.cell[0] as int, w.cell[1] as int, w.cell[2] as int);
    if n == 8 {
        sampler::lemma_skipped_brick(s, a / 8 * 8, b / 8 * 8, c / 8 * 8, x, y, z);
    } else {
        sampler::lemma_skipped_super(s, a / 64 * 64, b / 64 * 64, c / 64 * 64, x, y, z);
    }
}

/// Crossing the boundary of a block lands in the next block along the
/// axis that it is crossed along.
pub proof fn lemma_land_in_next_block(w: CellWalk, axis: int, n: int, landed: [i32; 3])
    requires
        0 <= axis < 3,
        n == 8 || n == 64,
        w.step[axis] != 0,
        i32::MIN < w.cell[axis] as int / n * n,
        (w.cell[axis] as int / n + 1) * n <= i32::MAX,
    ensures
        ({
            let to = w.landing(axis, boundary(w.cell[axis], w.step[axis], n), landed)[axis];
            to as int / n == w.cell[axis] as int / n + if w.step[axis] > 0 {
                1int
            } else {
                -1int
            }
        }),
{
    let v = w.cell[axis] as int;
    assert(landed@.len() == 3);
    if n == 8 {
        assert((v / 8 + 1) * 8 / 8 == v / 8 + 1);
        assert((v / 8 * 8 - 1) / 8 == v / 8 - 1);
    } else {
        assert((v / 64 + 1) * 64 / 64 == v / 64 + 1);
        assert((v / 64 * 64 - 1) / 64 == v / 64 - 1);
    }
}

/// A run of translucent cells of one material is one layer: the cell
/// after a cell of the same material lays none.
pub proof fn lemma_one_layer_per_run(w: CellWalk, mat: u8)
    ensures
        w.after_surface(false, mat).surfaced(false, mat) == Surface::Same,
{
}

/// After air, or in another material, a translucent cell lays a layer.
pub proof fn lemma_layer_after_gap(w: CellWalk, mat: u8, other: u8)
    requires
        mat != other,
    ensures
        w.after_air().surfaced(false, mat) == Surface::Layer,
        w.after_surface(false, other).surfaced(false, mat) == Surface::Layer,
{
}

/// A cell of a level holds the voxels that it is the power of two of:
/// its first voxel is not past the voxel, and the first of the next cell
/// is.
pub proof fn lemma_cell_holds_voxel(v: i32, mip: u32)
    requires
        mip <= 30,
    ensures
        coarse(v, mip) * (1u32 << mip) <= v < (coarse(v, mip) + 1) * (1u32 << mip),
{
    arith::lemma_mask(v, mip);
    let n = (1u32 << mip) as int;
    let q = coarse(v, mip);
    vstd::arithmetic::div_mod::lemma_fundamental_div_mod(v as int, n);
    assert(n * q == q * n && (q + 1) * n == q * n + n) by (nonlinear_arith);
}

/// The boundary that a ray crosses is the nearest plane of the blocks
/// before it: it lies between two blocks, at most a block away, past the
/// cell for a ray that goes up and not past it for one that goes down.
pub proof fn lemma_boundary_is_nearest(v: i32, step: i32, n: int)
    requires
        0 < n <= 0x1_0000,
        -0x4000_0000 <= v <= 0x4000_0000,
    ensures
        boundary(v, step, n) as int % n == 0,
        step > 0 ==> v < boundary(v, step, n) <= v + n,
        step < 0 ==> v - n < boundary(v, step, n) <= v,
{
    let q = v as int / n;
    vstd::arithmetic::div_mod::lemma_fundamental_div_mod(v as int, n);
    assert(n * q == q * n && (q + 1) * n == q * n + n) by (nonlinear_arith);
    vstd::arithmetic::div_mod::lemma_mod_multiples_basic(q, n);
    vstd::arithmetic::div_mod::lemma_mod_multiples_basic(q + 1, n);
    assert(0int % n == 0) by (nonlinear_arith)
        requires
            n > 0,
    ;
}

/// A coordinate is cut to the nearest that the box has.
pub proof fn lemma_clamped_is_nearest(v: i32, lo: i32, hi: i32, u: int)
    requires
        lo < hi,
        lo <= u < hi,
    ensures
        lo <= clamped(v, lo, hi) < hi,
        lo <= v < hi ==> clamped(v, lo, hi) == v,
        v < u ==> clamped(v, lo, hi) <= u,
        v > u ==> clamped(v, lo, hi) >= u,
{
}

impl CellWalk {
    /// A ray leaves exactly where its cell is out of the box or it is past
    /// its end; full fog comes next, and a ray that neither leaves nor is
    /// in fog goes on, by a block that is not marked or by its cell.
    pub proof fn lemma_look_decides(self, s: Sampler<'_>, past_end: bool, fogged: bool)
        ensures
            self.looked(s, past_end, fogged) is Exit <==> past_end || exists|a: int|
                0 <= a < 3 && !(self.lo[a] <= #[trigger] self.cell[a] < self.hi[a]),
            self.looked(s, past_end, fogged) is Fog ==> fogged,
            fogged ==> self.looked(s, past_end, fogged) is Fog || self.looked(
                s,
                past_end,
                fogged,
            ) is Exit,
            self.looked(s, past_end, fogged) matches Look::Skip(k) ==> k == 3 || k == 6,
    {
        assert(in_box(self.cell, self.lo, self.hi) <==> (forall|a: int|
            0 <= a < 3 ==> self.lo[a] <= #[trigger] self.cell[a] < self.hi[a]));
    }

    /// Air only ends the run of solid cells. A solid cell begins or goes on
    /// with one unless it stops the ray, and a ray that laid a layer has
    /// touched something from then on.
    pub proof fn lemma_ray_remembers(self, opaque: bool, mat: u8)
        ensures
            ({
                let a = self.after_air();
                let t = self.after_surface(opaque, mat);
                &&& !a.prev_solid && a.prev_mat == self.prev_mat && a.touched == self.touched
                &&& a.cell == self.cell && a.last_axis == self.last_axis
                &&& opaque ==> t == self
                &&& !opaque ==> t.prev_solid && t.prev_mat == mat
                &&& self.surfaced(opaque, mat) is Layer ==> t.touched
                &&& !(self.surfaced(opaque, mat) is Layer) ==> t.touched == self.touched
                &&& t.cell == self.cell && t.last_axis == self.last_axis
                &&& !opaque ==> !(t.surfaced(false, mat) is Layer)
                &&& !opaque ==> t.after_air().surfaced(false, mat) is Layer
            }),
    {
    }

    /// A block is skipped only where the level has blocks of that size,
    /// and one of them that is marked is never skipped; the larger is
    /// skipped where it can be.
    pub proof fn lemma_marked_blocks_are_entered(self, s: Sampler<'_>)
        requires
            in_box(self.cell, self.lo, self.hi),
        ensures
            ({
                let (x, y, z) = (self.cell[0] as int, self.cell[1] as int, self.cell[2] as int);
                let look = self.looked(s, false, false);
                let far = s.side() >= 64 && s.height() >= 64 && !s.super_marked(
                    x - x % 64,
                    y - y % 64,
                    z - z % 64,
                );
                let near = s.side() >= 8 && s.height() >= 8 && !s.brick_marked(
                    x - x % 8,
                    y - y % 8,
                    z - z % 8,
                );
                &&& look == Look::Skip(6) <==> far
                &&& look == Look::Skip(3) <==> near && !far
                &&& look == Look::Cell <==> !near && !far
            }),
    {
        let (x, y, z) = (self.cell[0] as int, self.cell[1] as int, self.cell[2] as int);
        assert(x - x % 64 == x / 64 * 64 && y - y % 64 == y / 64 * 64 && z - z % 64 == z / 64
            * 64);
        assert(x - x % 8 == x / 8 * 8 && y - y % 8 == y / 8 * 8 && z - z % 8 == z / 8 * 8);
    }
}

/// A ray that goes from cell to cell in its box is out of it before it
/// has taken all the steps that it may. A box that is one cell longer
/// along an axis allows one more.
pub proof fn lemma_budget_outlasts_walk(w: CellWalk, v: CellWalk, axes: Seq<int>)
    requires
        forall|i: int|
            0 <= i < axes.len() ==> 0 <= #[trigger] axes[i] < 3 && (w.step[axes[i]] == 1
                || w.step[axes[i]] == -1),
        forall|n: int|
            0 <= n <= axes.len() ==> cell_in_box(
                #[trigger] walked(w.cell, w.step, axes.take(n)),
                w.lo,
                w.hi,
            ),
        v.edge(0) == w.edge(0) && v.edge(1) == w.edge(1) && v.edge(2) == w.edge(2) + 1,
    ensures
        axes.len() + 16 < w.step_budget(),
        w.edge(0) + w.edge(1) + w.edge(2) >= 0 ==> v.step_budget() == w.step_budget() + 1,
        w.edge(0) + w.edge(1) + w.edge(2) < 0 ==> w.step_budget() == 16,
{
    lemma_walk_leaves_the_box(w, axes);
}

/// The face that a ray crossed looks back against its step, along the
/// axis of the step alone.
pub proof fn lemma_face_looks_back(w: CellWalk, a: int)
    requires
        0 <= a < 3,
    ensures
        a == w.last_axis ==> w.step[a] + w.crossed_face(a) == 0,
        a != w.last_axis ==> w.crossed_face(a) == 0,
{
}

} // verus!
