//! What a cell of the grid shows, looked up through its chunk.
use crate::arith;
use crate::dda::brick;
use crate::dda::brick::{BrickCache, BrickMap};
use crate::dda::level;
use crate::grid_view::{GridView, CHUNK_SIZE_Z};
use crate::vxl::VoxColor;
use vstd::prelude::*;

verus! {

/// Whether `n` is a power of two that a signed number can hold.
pub open spec fn is_power(n: u32) -> bool {
    exists|k: u32| k <= 30 && n == #[trigger] (1u32 << k)
}

/// Number of cells of a chunk along one axis at level `mip`, for `size`
/// voxels.
pub open spec fn cells_of(size: u32, mip: u32) -> u32 {
    if size >> mip == 0 {
        1
    } else {
        size >> mip
    }
}

/// Looks cells up. The chunk that was looked up last is kept.
pub struct Sampler<'a> {
    pub grid: GridView<'a>,
    pub bricks: &'a BrickCache,
    /// Level that cells are taken at.
    pub mip: u32,
    /// Colour of solid voxels that have none.
    pub fallback: VoxColor,
    /// Size of a chunk in cells, as a power of two and as a mask.
    pub xy_shift: u32,
    pub xy_mask: i32,
    pub z_shift: u32,
    pub z_mask: i32,
    /// The chunk that was looked up last, if any.
    pub cur_ch: [i32; 3],
    pub cur_view: Option<GridView<'a>>,
    pub cur_brick: Option<&'a BrickMap>,
    pub has_cur: bool,
}

impl<'a> Sampler<'a> {
    /// Side of a chunk in cells.
    pub open spec fn side(self) -> int {
        cells_of(self.grid.chunk_size_xy, self.mip) as int
    }

    /// Height of a chunk in cells.
    pub open spec fn height(self) -> int {
        cells_of(CHUNK_SIZE_Z, self.mip) as int
    }

    /// Whether the sizes are those of the grid, and what is kept is what
    /// was looked up.
    pub open spec fn well_formed(self) -> bool {
        &&& self.mip < 32
        &&& self.bricks.well_formed()
        &&& self.xy_shift <= 30
        &&& self.z_shift <= 30
        &&& self.side() == 1u32 << self.xy_shift
        &&& self.height() == 1u32 << self.z_shift
        &&& self.xy_mask == self.side() - 1
        &&& self.z_mask == self.height() - 1
        &&& self.has_cur ==> {
            &&& self.cur_view == self.grid.chunk(
                self.cur_ch[0] as int,
                self.cur_ch[1] as int,
                self.cur_ch[2] as int,
            )
            &&& match self.cur_brick {
                Some(m) => m.well_formed() && self.map_at(
                    self.cur_ch[0] as int,
                    self.cur_ch[1] as int,
                    self.cur_ch[2] as int,
                ) == Some(*m),
                None => self.map_at(
                    self.cur_ch[0] as int,
                    self.cur_ch[1] as int,
                    self.cur_ch[2] as int,
                ) is None,
            }
        }
    }

    /// Whether this looks the same cells up in the same grid.
    pub open spec fn same_world(self, other: Sampler<'a>) -> bool {
        &&& self.grid == other.grid
        &&& self.bricks == other.bricks
        &&& self.mip == other.mip
        &&& self.fallback == other.fallback
        &&& self.xy_shift == other.xy_shift
        &&& self.z_shift == other.z_shift
    }

    /// The brick map of a chunk.
    pub open spec fn map_at(self, x: int, y: int, z: int) -> Option<BrickMap> {
        let key = (x as i32, y as i32, z as i32, self.mip);
        if self.bricks@.contains_key(key) {
            Some(self.bricks@[key].1)
        } else {
            None
        }
    }

    /// Whether the cell's brick is marked.
    pub open spec fn brick_marked(self, x: int, y: int, z: int) -> bool {
        match self.map_at(x / self.side(), y / self.side(), z / self.height()) {
            Some(m) => m.bricks.has(
                x % self.side() / 8,
                y % self.side() / 8,
                z % self.height() / 8,
            ),
            None => false,
        }
    }

    /// Whether the cell's super-brick is marked.
    pub open spec fn super_marked(self, x: int, y: int, z: int) -> bool {
        match self.map_at(x / self.side(), y / self.side(), z / self.height()) {
            Some(m) => m.supers.has(
                x % self.side() / 64,
                y % self.side() / 64,
                z % self.height() / 64,
            ),
            None => false,
        }
    }

    /// The colour that the chunk of a cell shows for it.
    pub open spec fn surface(self, x: int, y: int, z: int) -> Option<VoxColor> {
        match self.grid.chunk(x / self.side(), y / self.side(), z / self.height()) {
            Some(v) => v.shown_colour(
                x % self.side(),
                y % self.side(),
                z % self.height(),
                self.mip,
                self.fallback,
            ),
            None => None,
        }
    }

    /// The colour of a cell: what its chunk shows, if its brick is marked.
    pub open spec fn colour(self, x: int, y: int, z: int) -> Option<VoxColor> {
        if self.brick_marked(x, y, z) {
            self.surface(x, y, z)
        } else {
            None
        }
    }

    /// Whether the cell's chunk can be looked up.
    pub open spec fn reachable(self, x: int, y: int, z: int) -> bool {
        self.grid.chunk_index_fits(x / self.side(), y / self.side(), z / self.height())
    }

    /// Whether the cell's colour can be read.
    pub open spec fn readable(self, x: int, y: int, z: int) -> bool {
        &&& self.reachable(x, y, z)
        &&& self.brick_marked(x, y, z) ==> (self.grid.chunk(
            x / self.side(),
            y / self.side(),
            z / self.height(),
        ) matches Some(v) ==> v.paintable(x % self.side(), y % self.side(), self.mip))
    }

    /// Looks cells of level `mip` up in `grid`, which has the brick maps
    /// `bricks`.
    pub fn new(
        grid: GridView<'a>,
        bricks: &'a BrickCache,
        mip: u32,
        fallback: VoxColor,
    ) -> (s: Sampler<'a>)
        requires
            mip < 32,
            bricks.well_formed(),
            is_power(cells_of(grid.chunk_size_xy, mip)),
        ensures
            s.well_formed(),
            s.grid == grid,
            s.bricks == bricks,
            s.mip == mip,
            s.fallback == fallback,
    {
        let xy: u32 = grid.chunk_size_xy >> mip;
        let cs_xy: u32 = if xy == 0 {
            1
        } else {
            xy
        };
        let high: u32 = CHUNK_SIZE_Z >> mip;
        let cs_z: u32 = if high == 0 {
            1
        } else {
            high
        };
        proof {
            let k = choose|k: u32| k <= 30 && cs_xy == #[trigger] (1u32 << k);
            lemma_trailing_zeros(cs_xy, k);
            lemma_height_power(mip);
            let k2 = choose|k: u32| k <= 8 && cs_z == #[trigger] (1u32 << k);
            lemma_trailing_zeros(cs_z, k2);
        }
        Sampler {
            grid,
            bricks,
            mip,
            fallback,
            xy_shift: cs_xy.trailing_zeros(),
            xy_mask: cs_xy as i32 - 1,
            z_shift: cs_z.trailing_zeros(),
            z_mask: cs_z as i32 - 1,
            cur_ch: [0, 0, 0],
            cur_view: None,
            cur_brick: None,
            has_cur: false,
        }
    }

    /// Keeps the chunk at an index.
    fn select_chunk(&mut self, ch: [i32; 3])
        requires
            old(self).well_formed(),
            old(self).grid.chunk_index_fits(ch[0] as int, ch[1] as int, ch[2] as int),
        ensures
            final(self).well_formed(),
            final(self).same_world(*old(self)),
            final(self).has_cur,
            final(self).cur_ch@ == ch@,
    {
        if self.has_cur && self.cur_ch[0] == ch[0] && self.cur_ch[1] == ch[1] && self.cur_ch[2]
            == ch[2] {
            assert(self.cur_ch@ =~= ch@);
            return;
        }
        self.cur_view = self.grid.chunk_at_xyz(ch);
        self.cur_brick = self.bricks.get(ch, self.mip);
        self.cur_ch = ch;
        self.has_cur = true;
    }

    /// The chunk of a cell, and the cell in that chunk.
    pub fn locate(&self, c: [i32; 3]) -> (r: ([i32; 3], [u32; 3]))
        requires
            self.well_formed(),
        ensures
            r.0[0] == c[0] as int / self.side(),
            r.0[1] == c[1] as int / self.side(),
            r.0[2] == c[2] as int / self.height(),
            r.1[0] == c[0] as int % self.side(),
            r.1[1] == c[1] as int % self.side(),
            r.1[2] == c[2] as int % self.height(),
    {
        proof {
            arith::lemma_shr_divides(c[0], self.xy_shift);
            arith::lemma_shr_divides(c[1], self.xy_shift);
            arith::lemma_shr_divides(c[2], self.z_shift);
            arith::lemma_mask(c[0], self.xy_shift);
            arith::lemma_mask(c[1], self.xy_shift);
            arith::lemma_mask(c[2], self.z_shift);
        }
        let ch: [i32; 3] = [
            c[0] >> self.xy_shift,
            c[1] >> self.xy_shift,
            c[2] >> self.z_shift,
        ];
        let loc: [u32; 3] = [
            (c[0] & self.xy_mask) as u32,
            (c[1] & self.xy_mask) as u32,
            (c[2] & self.z_mask) as u32,
        ];
        (ch, loc)
    }

    /// Whether the brick of a cell is marked.
    pub fn is_marked(&self, c: [i32; 3]) -> (r: bool)
        requires
            self.well_formed(),
        ensures
            r == self.brick_marked(c[0] as int, c[1] as int, c[2] as int),
    {
        let (ch, loc): ([i32; 3], [u32; 3]) = self.locate(c);
        proof {
            arith::lemma_mask(c[0], self.xy_shift);
            arith::lemma_mask(c[1], self.xy_shift);
            arith::lemma_mask(c[2], self.z_shift);
        }
        match self.bricks.get(ch, self.mip) {
            Some(bm) => bm.occupied([loc[0] as i32 / 8, loc[1] as i32 / 8, loc[2] as i32 / 8]),
            None => false,
        }
    }

    /// The colour of a cell; `None` for air.
    pub fn hit(&mut self, c: [i32; 3]) -> (r: Option<VoxColor>)
        requires
            old(self).well_formed(),
            old(self).readable(c[0] as int, c[1] as int, c[2] as int),
        ensures
            final(self).well_formed(),
            final(self).same_world(*old(self)),
            r == old(self).colour(c[0] as int, c[1] as int, c[2] as int),
    {
        let (ch, loc): ([i32; 3], [u32; 3]) = self.locate(c);
        proof {
            arith::lemma_mask(c[0], self.xy_shift);
            arith::lemma_mask(c[1], self.xy_shift);
            arith::lemma_mask(c[2], self.z_shift);
        }
        self.select_chunk(ch);
        let occupied: bool = match self.cur_brick {
            Some(bm) => bm.occupied([loc[0] as i32 / 8, loc[1] as i32 / 8, loc[2] as i32 / 8]),
            None => false,
        };
        assert(self.cur_ch[0] == ch[0] && self.cur_ch[1] == ch[1] && self.cur_ch[2] == ch[2]);
        if !occupied {
            return None;
        }
        match self.cur_view {
            Some(v) => v.surface_color_mip(loc[0], loc[1], loc[2], self.mip, self.fallback),
            None => None,
        }
    }

    /// Side of a chunk in cells.
    pub fn cells_per_chunk_xy(&self) -> (r: i32)
        requires
            self.well_formed(),
        ensures
            r == self.side(),
    {
        proof {
            arith::lemma_mask(0, self.xy_shift);
        }
        self.xy_mask + 1
    }

    /// Height of a chunk in cells.
    pub fn cells_per_chunk_z(&self) -> (r: i32)
        requires
            self.well_formed(),
        ensures
            r == self.height(),
    {
        proof {
            arith::lemma_mask(0, self.z_shift);
        }
        self.z_mask + 1
    }

    /// Whether the brick of a cell is marked, by the index of the brick.
    pub fn brick_occupied(&mut self, b: [i32; 3]) -> (r: bool)
        requires
            old(self).well_formed(),
            i32::MIN <= b[0] * 8 <= i32::MAX,
            i32::MIN <= b[1] * 8 <= i32::MAX,
            i32::MIN <= b[2] * 8 <= i32::MAX,
            old(self).reachable(b[0] * 8, b[1] * 8, b[2] * 8),
        ensures
            final(self).well_formed(),
            final(self).same_world(*old(self)),
            r == old(self).brick_marked(b[0] * 8, b[1] * 8, b[2] * 8),
    {
        let c0: [i32; 3] = [b[0] * 8, b[1] * 8, b[2] * 8];
        let (ch, loc): ([i32; 3], [u32; 3]) = self.locate(c0);
        proof {
            arith::lemma_mask(c0[0], self.xy_shift);
            arith::lemma_mask(c0[1], self.xy_shift);
            arith::lemma_mask(c0[2], self.z_shift);
        }
        self.select_chunk(ch);
        assert(self.cur_ch[0] == ch[0] && self.cur_ch[1] == ch[1] && self.cur_ch[2] == ch[2]);
        match self.cur_brick {
            Some(bm) => bm.occupied([loc[0] as i32 / 8, loc[1] as i32 / 8, loc[2] as i32 / 8]),
            None => false,
        }
    }

    /// Whether the super-brick of a cell is marked, by the index of the
    /// super-brick.
    pub fn super_occupied(&mut self, s: [i32; 3]) -> (r: bool)
        requires
            old(self).well_formed(),
            i32::MIN <= s[0] * 64 <= i32::MAX,
            i32::MIN <= s[1] * 64 <= i32::MAX,
            i32::MIN <= s[2] * 64 <= i32::MAX,
            old(self).reachable(s[0] * 64, s[1] * 64, s[2] * 64),
        ensures
            final(self).well_formed(),
            final(self).same_world(*old(self)),
            r == old(self).super_marked(s[0] * 64, s[1] * 64, s[2] * 64),
    {
        let c0: [i32; 3] = [s[0] * 64, s[1] * 64, s[2] * 64];
        let (ch, loc): ([i32; 3], [u32; 3]) = self.locate(c0);
        proof {
            arith::lemma_mask(c0[0], self.xy_shift);
            arith::lemma_mask(c0[1], self.xy_shift);
            arith::lemma_mask(c0[2], self.z_shift);
        }
        self.select_chunk(ch);
        assert(self.cur_ch[0] == ch[0] && self.cur_ch[1] == ch[1] && self.cur_ch[2] == ch[2]);
        match self.cur_brick {
            Some(bm) => bm.occupied_super(
                [loc[0] as i32 / 64, loc[1] as i32 / 64, loc[2] as i32 / 64],
            ),
            None => false,
        }
    }
}

/// A power of two has as many trailing zeros as its exponent.
pub proof fn lemma_trailing_zeros(n: u32, k: u32)
    requires
        k <= 30,
        n == 1u32 << k,
    ensures
        vstd::std_specs::bits::u32_trailing_zeros(n) == k,
        0 < n <= 0x4000_0000,
{
    vstd::std_specs::bits::axiom_u32_trailing_zeros(n);
    assert(0 < n <= 0x4000_0000) by (bit_vector)
        requires
            k <= 30,
            n == 1u32 << k,
    ;
    let t = vstd::std_specs::bits::u32_trailing_zeros(n);
    assert(t == k) by (bit_vector)
        requires
            k <= 30,
            t < 32,
            n == 1u32 << k,
            (n >> t) & 1u32 == 1u32,
    ;
}

/// The height of a chunk is a power of two at every level.
proof fn lemma_height_power(mip: u32)
    requires
        mip < 32,
    ensures
        exists|k: u32| k <= 8 && cells_of(CHUNK_SIZE_Z, mip) == #[trigger] (1u32 << k),
{
    if mip <= 8 {
        let k: u32 = (8 - mip) as u32;
        assert(256u32 >> mip == 1u32 << k && 256u32 >> mip != 0) by (bit_vector)
            requires
                mip <= 8,
                k == 8 - mip,
        ;
    } else {
        assert(256u32 >> mip == 0) by (bit_vector)
            requires
                8 < mip < 32,
        ;
        assert(1u32 << 0u32 == 1) by (bit_vector);
        assert(cells_of(CHUNK_SIZE_Z, mip) == 1u32 << 0u32);
    }
}

/// Whether the sampler's grid can be drawn at its level and its maps are
/// those of the grid.
pub open spec fn up_to_date(s: Sampler<'_>) -> bool {
    &&& s.well_formed()
    &&& level::mappable(s.grid, s.mip)
    &&& level::covers(*s.bricks, s.grid, s.mip)
}

/// Whether the cell lies in the grid's own layers: a single chunk has no
/// chunks above or below it.
pub open spec fn in_layers(s: Sampler<'_>, z: int) -> bool {
    s.grid.chunk_grid is Some || 0 <= z < s.height()
}

/// Whether a chunk index can be written.
pub open spec fn index_fits(s: Sampler<'_>, x: int, y: int, z: int) -> bool {
    &&& i32::MIN <= x / s.side() <= i32::MAX
    &&& i32::MIN <= y / s.side() <= i32::MAX
    &&& i32::MIN <= z / s.height() <= i32::MAX
}

/// Looking at marked bricks alone hides nothing: the colour of a cell is
/// what its chunk shows for it.
pub proof fn lemma_bricks_hide_nothing(s: Sampler<'_>, x: int, y: int, z: int)
    requires
        up_to_date(s),
        in_layers(s, z),
        index_fits(s, x, y, z),
    ensures
        s.colour(x, y, z) == s.surface(x, y, z),
{
    if !s.brick_marked(x, y, z) {
        lemma_unmarked_is_air(s, x, y, z);
    }
}

/// The cell in its chunk is not negative, and a chunk index that no map
/// is kept for has no chunk.
proof fn lemma_located(s: Sampler<'_>, x: int, y: int, z: int)
    requires
        up_to_date(s),
        in_layers(s, z),
        index_fits(s, x, y, z),
    ensures
        0 <= x % s.side(),
        0 <= y % s.side(),
        0 <= z % s.height(),
        s.side() > 0,
        s.height() > 0,
        ({
            let (a, b, c) = (x / s.side(), y / s.side(), z / s.height());
            match s.grid.chunk(a, b, c) {
                Some(v) => s.map_at(a, b, c) matches Some(m) && m.built_from(v, s.mip)
                    && brick::brickable(v, s.mip),
                None => true,
            }
        }),
{
    arith::lemma_mask(0, s.xy_shift);
    arith::lemma_mask(0, s.z_shift);
    let (a, b, c) = (x / s.side(), y / s.side(), z / s.height());
    if s.grid.chunk_grid is None {
        vstd::arithmetic::div_mod::lemma_basic_div(z, s.height());
    }
    let key = (a as i32, b as i32, c as i32, s.mip);
    if s.grid.chunk(a, b, c) is Some {
        assert(level::mapped_chunk(s.grid, a, b, c) == s.grid.chunk(a, b, c));
        assert(s.bricks@.contains_key(key));
    }
}

/// A cell whose brick is not marked is air.
proof fn lemma_unmarked_is_air(s: Sampler<'_>, x: int, y: int, z: int)
    requires
        up_to_date(s),
        in_layers(s, z),
        index_fits(s, x, y, z),
        !s.brick_marked(x, y, z),
    ensures
        s.surface(x, y, z) is None,
{
    lemma_located(s, x, y, z);
    let (a, b, c) = (x / s.side(), y / s.side(), z / s.height());
    let (u, v, w) = (x % s.side(), y % s.side(), z % s.height());
    if let Some(view) = s.grid.chunk(a, b, c) {
        if u < view.side(s.mip) && v < view.side(s.mip) {
            brick::lemma_empty_brick(s.map_at(a, b, c)->0, view, s.mip, u, v, w);
        } else {
            assert(view.column(u, v, s.mip) is None);
            assert(view.runs(u, v, s.mip) =~= Seq::<(i32, i32)>::empty());
        }
    }
}

/// A cell whose super-brick is not marked is air.
proof fn lemma_unmarked_super_is_air(s: Sampler<'_>, x: int, y: int, z: int)
    requires
        up_to_date(s),
        in_layers(s, z),
        index_fits(s, x, y, z),
        !s.super_marked(x, y, z),
    ensures
        s.surface(x, y, z) is None,
{
    lemma_located(s, x, y, z);
    let (a, b, c) = (x / s.side(), y / s.side(), z / s.height());
    let (u, v, w) = (x % s.side(), y % s.side(), z % s.height());
    if let Some(view) = s.grid.chunk(a, b, c) {
        if u < view.side(s.mip) && v < view.side(s.mip) {
            brick::lemma_empty_super(s.map_at(a, b, c)->0, view, s.mip, u, v, w);
        } else {
            assert(view.column(u, v, s.mip) is None);
            assert(view.runs(u, v, s.mip) =~= Seq::<(i32, i32)>::empty());
        }
    }
}

/// A block of `n` that divides the chunk lies in one chunk.
proof fn lemma_block_in_chunk(x: int, y: int, side: int, n: int, m: int)
    requires
        n > 0,
        m > 0,
        side == n * m,
        x / n == y / n,
    ensures
        x / side == y / side,
        x % side / n == y % side / n,
{
    lemma_split_block(x, side, n, m);
    lemma_split_block(y, side, n, m);
}

proof fn lemma_split_block(x: int, side: int, n: int, m: int)
    requires
        n > 0,
        m > 0,
        side == n * m,
    ensures
        x / side == x / n / m,
        x % side / n == x / n % m,
{
    let q = x / n;
    let r = x % n;
    vstd::arithmetic::div_mod::lemma_fundamental_div_mod(x, n);
    vstd::arithmetic::div_mod::lemma_fundamental_div_mod(q, m);
    let low = n * (q % m) + r;
    assert(x == side * (q / m) + low && 0 <= low < side) by (nonlinear_arith)
        requires
            x == n * q + r,
            0 <= r < n,
            q == m * (q / m) + q % m,
            0 <= q % m < m,
            side == n * m,
            low == n * (q % m) + r,
            n > 0,
    ;
    vstd::arithmetic::div_mod::lemma_fundamental_div_mod_converse(x, side, q / m, low);
    vstd::arithmetic::div_mod::lemma_fundamental_div_mod_converse(low, n, q % m, r);
}

/// A chunk of at least `n` cells is a whole number of blocks of `n`.
proof fn lemma_nests(side: u32, shift: u32, k: u32) -> (m: int)
    requires
        shift <= 30,
        k <= shift,
        side == 1u32 << shift,
    ensures
        m > 0,
        side == (1u32 << k) * m,
{
    let d: u32 = (shift - k) as u32;
    assert(1u32 << shift == (1u32 << k) * (1u32 << d) && (1u32 << d) > 0) by (bit_vector)
        requires
            shift <= 30,
            k <= shift,
            d == shift - k,
    ;
    (1u32 << d) as int
}

/// Passing over a brick that is not marked misses nothing: every cell of
/// it is air.
pub proof fn lemma_skipped_brick(
    s: Sampler<'_>,
    x: int,
    y: int,
    z: int,
    x2: int,
    y2: int,
    z2: int,
)
    requires
        up_to_date(s),
        s.side() >= 8,
        s.height() >= 8,
        in_layers(s, z2),
        index_fits(s, x2, y2, z2),
        x2 / 8 == x / 8,
        y2 / 8 == y / 8,
        z2 / 8 == z / 8,
        !s.brick_marked(x, y, z),
    ensures
        s.surface(x2, y2, z2) is None,
{
    lemma_shift_at_least(s.xy_shift, 3);
    lemma_shift_at_least(s.z_shift, 3);
    assert(1u32 << 3u32 == 8) by (bit_vector);
    let m = lemma_nests(1u32 << s.xy_shift, s.xy_shift, 3);
    let mz = lemma_nests(1u32 << s.z_shift, s.z_shift, 3);
    lemma_block_in_chunk(x, x2, s.side(), 8, m);
    lemma_block_in_chunk(y, y2, s.side(), 8, m);
    lemma_block_in_chunk(z, z2, s.height(), 8, mz);
    lemma_unmarked_is_air(s, x2, y2, z2);
}

/// Passing over a super-brick that is not marked misses nothing: every
/// cell of it is air.
pub proof fn lemma_skipped_super(
    s: Sampler<'_>,
    x: int,
    y: int,
    z: int,
    x2: int,
    y2: int,
    z2: int,
)
    requires
        up_to_date(s),
        s.side() >= 64,
        s.height() >= 64,
        in_layers(s, z2),
        index_fits(s, x2, y2, z2),
        x2 / 64 == x / 64,
        y2 / 64 == y / 64,
        z2 / 64 == z / 64,
        !s.super_marked(x, y, z),
    ensures
        s.surface(x2, y2, z2) is None,
{
    lemma_shift_at_least(s.xy_shift, 6);
    lemma_shift_at_least(s.z_shift, 6);
    assert(1u32 << 6u32 == 64) by (bit_vector);
    let m = lemma_nests(1u32 << s.xy_shift, s.xy_shift, 6);
    let mz = lemma_nests(1u32 << s.z_shift, s.z_shift, 6);
    lemma_block_in_chunk(x, x2, s.side(), 64, m);
    lemma_block_in_chunk(y, y2, s.side(), 64, m);
    lemma_block_in_chunk(z, z2, s.height(), 64, mz);
    lemma_unmarked_super_is_air(s, x2, y2, z2);
}

/// A larger power of two has a larger exponent.
proof fn lemma_shift_at_least(shift: u32, k: u32)
    requires
        shift <= 30,
        k <= 6,
    ensures
        (1u32 << shift) >= (1u32 << k) ==> shift >= k,
{
    assert((1u32 << shift) >= (1u32 << k) ==> shift >= k) by (bit_vector)
        requires
            shift <= 30,
            k <= 6,
    ;
}

/// A cell has the colour that its chunk shows for it, where its brick is
/// marked: the cells of a chunk are those of its side from its index
/// times the side on.
pub proof fn lemma_cell_is_in_its_chunk(
    s: Sampler<'_>,
    cx: int,
    cy: int,
    cz: int,
    x: int,
    y: int,
    z: int,
)
    requires
        0 <= x < s.side(),
        0 <= y < s.side(),
        0 <= z < s.height(),
    ensures
        ({
            let (a, b, c) = (cx * s.side() + x, cy * s.side() + y, cz * s.height() + z);
            &&& s.colour(a, b, c) is Some ==> s.brick_marked(a, b, c) && s.grid.chunk(
                cx,
                cy,
                cz,
            ) is Some
            &&& s.brick_marked(a, b, c) ==> s.colour(a, b, c) == match s.grid.chunk(cx, cy, cz) {
                Some(v) => v.shown_colour(x, y, z, s.mip, s.fallback),
                None => None,
            }
            &&& s.brick_marked(a, b, c) <==> (s.map_at(cx, cy, cz) matches Some(m)
                && m.bricks.has(x / 8, y / 8, z / 8))
            &&& s.super_marked(a, b, c) <==> (s.map_at(cx, cy, cz) matches Some(m)
                && m.supers.has(x / 64, y / 64, z / 64))
        }),
{
    let (n, h) = (s.side(), s.height());
    vstd::arithmetic::div_mod::lemma_fundamental_div_mod_converse(cx * n + x, n, cx, x);
    vstd::arithmetic::div_mod::lemma_fundamental_div_mod_converse(cy * n + y, n, cy, y);
    vstd::arithmetic::div_mod::lemma_fundamental_div_mod_converse(cz * h + z, h, cz, z);
}

/// A chunk has half as many cells along an axis at each level, but at
/// least one, and at level 0 its voxels.
pub proof fn lemma_cells_halve(size: u32, mip: u32)
    requires
        mip < 31,
        size > 0,
    ensures
        cells_of(size, 0) == size,
        cells_of(size, mip) >= 2 ==> cells_of(size, (mip + 1) as u32) == cells_of(size, mip) / 2,
        cells_of(size, mip) <= 1 ==> cells_of(size, (mip + 1) as u32) == 1,
{
    vstd::bits::lemma_u32_shr_is_div(size, 0);
    vstd::bits::lemma_u32_shr_is_div(size, mip);
    vstd::bits::lemma_u32_shr_is_div(size, (mip + 1) as u32);
    vstd::arithmetic::power2::lemma2_to64();
    vstd::arithmetic::power2::lemma_pow2_unfold((mip + 1) as nat);
    vstd::arithmetic::power2::lemma_pow2_pos(mip as nat);
    vstd::arithmetic::div_mod::lemma_div_denominator(
        size as int,
        vstd::arithmetic::power2::pow2(mip as nat) as int,
        2,
    );
}

} // verus!
