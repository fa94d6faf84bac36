//! Drawing of a scaled, tinted tile onto a framebuffer.
//!
//! Positions and scales are fixed-point numbers with 16 fraction bits.
use crate::arith;
use crate::color;
use crate::color::{bytes_of, pack};
use vstd::prelude::*;

pub mod laws;

verus! {

/// Where a tile is drawn: rows of `pitch_pixels` pixels each, of which
/// the first `width` are shown.
pub struct DrawTarget<'a> {
    pub framebuffer: &'a mut [u32],
    pub pitch_pixels: usize,
    pub width: u32,
    pub height: u32,
}

/// The fixed-point product.
pub open spec fn product(a: int, d: int) -> i32 {
    arith::wrap32(a * d / 0x1_0000)
}

/// The fixed-point quotient, rounded toward zero.
pub open spec fn quotient(a: int, b: int) -> i32 {
    arith::wrap32(
        if a >= 0 {
            a * 0x1_0000 / b
        } else {
            -(-a * 0x1_0000 / b)
        },
    )
}

fn mulshr16(a: i32, d: i32) -> (r: i32)
    ensures
        r == product(a as int, d as int),
{
    assert(-0x4000_0000_0000_0000 <= a * d <= 0x4000_0000_0000_0000) by (nonlinear_arith)
        requires
            -0x8000_0000 <= a <= 0x7fff_ffff,
            -0x8000_0000 <= d <= 0x7fff_ffff,
    ;
    let p: i64 = a as i64 * d as i64;
    let h: i64 = p >> 16u32;
    proof {
        assert(h == p / 0x1_0000) by (bit_vector)
            requires
                h == p >> 16u32,
        ;
        lemma_truncate(h);
    }
    h as i32
}

/// Truncating to 32 bits wraps.
proof fn lemma_truncate(x: i64)
    ensures
        x as i32 == arith::wrap32(x as int),
{
    assert(x as i32 == (x + 0x8000_0000) % 0x1_0000_0000 - 0x8000_0000) by (bit_vector);
}

proof fn lemma_quotient_bound(n: int, b: int)
    requires
        b != 0,
    ensures
        n >= 0 ==> -n <= n / b <= n,
{
    if n >= 0 {
        assert(-n <= n / b <= n) by (nonlinear_arith)
            requires
                n >= 0,
                b != 0,
        ;
    }
}

fn shldiv16(a: i32, b: i32) -> (r: i32)
    requires
        b != 0,
    ensures
        r == quotient(a as int, b as int),
{
    let n: i64 = a as i64 * 0x1_0000;
    let q: i64 = n / b as i64;
    proof {
        lemma_quotient_bound(n as int, b as int);
        lemma_quotient_bound(-n as int, b as int);
        lemma_truncate(q);
    }
    q as i32
}

/// Position of pixel `(x, y)` of a screen with rows of `stride` pixels.
pub open spec fn position(stride: int, x: int, y: int) -> int {
    y * stride + x
}

/// How one axis of the tile lies on the screen: the pixels `first..end`
/// show it, and pixel `x` shows the texel at `x * step + start`.
#[derive(Clone, Copy)]
pub struct Axis {
    pub first: i32,
    pub end: i32,
    pub start: i32,
    pub step: i32,
}

/// Where the tile begins when its point `tc` lies at `s` and it is scaled
/// by `z`.
pub open spec fn near_edge(s: i32, tc: i32, z: i32) -> i32 {
    arith::wrap32(s - product(tc as int, z as int))
}

/// Where a tile of `t` texels that begins at `near` ends.
pub open spec fn far_edge(near: i32, z: i32, t: i32) -> i32 {
    arith::wrap32(near + arith::wrap32(z * t))
}

/// The first pixel that begins at `edge` or after it.
pub open spec fn pixel_from(edge: i32) -> int {
    (edge + 0xffff) / 0x1_0000
}

/// The axis of a tile on a screen of `size` pixels.
pub open spec fn axis_of(s: i32, tc: i32, z: i32, t: i32, size: i32) -> Axis {
    let near = near_edge(s, tc, z);
    let step = quotient(0x1_0000, z as int);
    Axis {
        first: arith::max_int(pixel_from(near), 0) as i32,
        end: arith::min_int(pixel_from(far_edge(near, z, t)), size as int) as i32,
        start: product(-near, step as int),
        step,
    }
}

/// Whether rounding the edges up stays in range.
pub open spec fn edges_fit(s: i32, tc: i32, z: i32, t: i32) -> bool {
    &&& near_edge(s, tc, z) + 0xffff <= i32::MAX
    &&& far_edge(near_edge(s, tc, z), z, t) + 0xffff <= i32::MAX
}

impl Axis {
    /// Whether no pixel shows the tile.
    pub open spec fn is_empty(self) -> bool {
        self.first >= self.end
    }

    /// The texel that pixel `x` shows.
    pub open spec fn texel(self, x: int) -> int {
        arith::high16(arith::wrap32(x * self.step + self.start))
    }
}

/// The near edge, and the pixels from it to the far edge.
fn clipped(s: i32, tc: i32, z: i32, t: i32, size: i32) -> (r: (i32, i32, i32))
    requires
        edges_fit(s, tc, z, t),
    ensures
        r.0 == near_edge(s, tc, z),
        r.1 == axis_of(s, tc, z, t, size).first,
        r.2 == axis_of(s, tc, z, t, size).end,
{
    let shift: i32 = mulshr16(tc, z);
    let near: i32 = s.wrapping_sub(shift);
    let span: i32 = z.wrapping_mul(t);
    let far: i32 = near.wrapping_add(span);
    proof {
        arith::lemma_wrapping(s, shift);
        arith::lemma_wrapping_mul(z, t);
        arith::lemma_wrapping(near, span);
    }
    let a: i32 = near + 0xffff;
    let b: i32 = far + 0xffff;
    proof {
        arith::lemma_shr16(a);
        arith::lemma_shr16(b);
    }
    let first: i32 = if a >> 16u32 > 0 {
        a >> 16u32
    } else {
        0
    };
    let end: i32 = if b >> 16u32 < size {
        b >> 16u32
    } else {
        size
    };
    (near, first, end)
}

/// One channel of two pixels, averaged and rounded up.
pub open spec fn average(a: int, b: int) -> int {
    (a + b + 1) / 2
}

/// One channel of a block of four pixels.
pub open spec fn block_channel(ta: u32, tb: u32, ba: u32, bb: u32, i: int) -> int {
    average(
        average(color::byte_of(ta, i), color::byte_of(tb, i)),
        average(color::byte_of(ba, i), color::byte_of(bb, i)),
    )
}

/// A block of four pixels as one.
pub open spec fn block_average(ta: u32, tb: u32, ba: u32, bb: u32) -> u32 {
    color::packed(
        block_channel(ta, tb, ba, bb, 0),
        block_channel(ta, tb, ba, bb, 1),
        block_channel(ta, tb, ba, bb, 2),
        block_channel(ta, tb, ba, bb, 3),
    )
}

fn average_block(ta: u32, tb: u32, ba: u32, bb: u32) -> (r: u32)
    ensures
        r == block_average(ta, tb, ba, bb),
{
    let a: [u32; 4] = bytes_of(ta);
    let b: [u32; 4] = bytes_of(tb);
    let c: [u32; 4] = bytes_of(ba);
    let d: [u32; 4] = bytes_of(bb);
    let mut out: [u32; 4] = [0, 0, 0, 0];
    let mut i: usize = 0;
    while i < 4
        invariant
            i <= 4,
            forall|k: int| 0 <= k < 4 ==> #[trigger] a[k] == color::byte_of(ta, k),
            forall|k: int| 0 <= k < 4 ==> #[trigger] b[k] == color::byte_of(tb, k),
            forall|k: int| 0 <= k < 4 ==> #[trigger] c[k] == color::byte_of(ba, k),
            forall|k: int| 0 <= k < 4 ==> #[trigger] d[k] == color::byte_of(bb, k),
            forall|k: int|
                0 <= k < 4 ==> #[trigger] a[k] < 0x100 && b[k] < 0x100 && c[k] < 0x100 && d[k]
                    < 0x100,
            forall|k: int|
                0 <= k < i ==> #[trigger] out[k] == block_channel(ta, tb, ba, bb, k),
            forall|k: int| 0 <= k < 4 ==> #[trigger] out[k] < 0x100,
        decreases 4 - i,
    {
        assert(a[i as int] < 0x100);
        let top: u32 = (a[i] + b[i] + 1) / 2;
        let bottom: u32 = (c[i] + d[i] + 1) / 2;
        out[i] = (top + bottom + 1) / 2;
        i += 1;
    }
    pack(out)
}

/// The span of a channel between its darkest and its lightest value; a
/// span of the whole range counts as 256.
pub open spec fn contrast(black: u32, white: u32, i: int) -> int {
    let d = color::byte_of(white, i) - color::byte_of(black, i);
    if d == 255 {
        256
    } else if d == -255 {
        -256
    } else {
        d
    }
}

/// A channel of a texel, mapped into the span.
pub open spec fn toned(black: u32, white: u32, src: u32, i: int) -> int {
    color::byte_of(black, i) + color::byte_of(src, i) * contrast(black, white, i) / 0x100
}

/// `x` cut to a byte.
pub open spec fn to_byte(x: int) -> int {
    arith::min_int(arith::max_int(x, 0), 255)
}

/// A texel mapped into the span.
pub open spec fn tint(black: u32, white: u32, src: u32) -> u32 {
    color::packed(
        to_byte(toned(black, white, src, 0)),
        to_byte(toned(black, white, src, 1)),
        to_byte(toned(black, white, src, 2)),
        to_byte(toned(black, white, src, 3)),
    )
}

/// A channel of a texel laid over a channel of the screen, as opaque as
/// the texel's highest channel says. The screen's own highest channel
/// counts as zero.
pub open spec fn laid_over(black: u32, white: u32, src: u32, screen: u32, i: int) -> int {
    let s = if i == 3 {
        0
    } else {
        color::byte_of(screen, i)
    };
    to_byte(s + (toned(black, white, src, i) - s) * toned(black, white, src, 3) / 0x100)
}

/// A pixel of the screen under a tinted texel: unchanged under a clear
/// one, replaced by an opaque one.
pub open spec fn blended(black: u32, white: u32, src: u32, screen: u32) -> u32 {
    let t = tint(black, white, src);
    if color::byte_of(t, 3) == 0 {
        screen
    } else if color::byte_of(t, 3) == 255 {
        t
    } else {
        color::packed(
            laid_over(black, white, src, screen, 0),
            laid_over(black, white, src, screen, 1),
            laid_over(black, white, src, screen, 2),
            laid_over(black, white, src, screen, 3),
        )
    }
}

/// A tile as it is drawn.
#[derive(Clone, Copy)]
pub struct TileDraw<'a> {
    pub pixels: &'a [i32],
    /// Length of a row of texels.
    pub pitch: i32,
    pub across: Axis,
    pub down: Axis,
    pub black: u32,
    pub white: u32,
    /// Whether each pixel shows a block of four texels.
    pub halved: bool,
    /// Whether the tile is tinted and blended.
    pub tinted: bool,
}

impl<'a> TileDraw<'a> {
    /// Position of the texel that pixel `(x, y)` shows.
    pub open spec fn texel_at(self, x: int, y: int) -> int {
        let column = if self.halved && !self.tinted {
            self.across.texel(self.across.first as int) + 2 * (x - self.across.first)
        } else {
            self.across.texel(x)
        };
        column + self.down.texel(y) * self.pitch
    }

    /// Whether the texels that pixel `(x, y)` shows are there.
    pub open spec fn has_texels(self, x: int, y: int) -> bool {
        let row = self.down.texel(y);
        &&& row == 0 || self.pitch == 0 || (row > 0 && self.pitch > 0)
        &&& if self.halved && !self.tinted {
            &&& self.pitch >= 0
            &&& self.across.texel(self.across.first as int) >= 0
            &&& self.texel_at(x, y) + self.pitch + 1 < self.pixels@.len()
        } else {
            &&& self.across.texel(x) >= 0
            &&& self.texel_at(x, y) < self.pixels@.len()
        }
    }

    /// The texel at a position.
    pub open spec fn source(self, i: int) -> u32 {
        self.pixels@[i] as u32
    }

    /// Whether pixel `(x, y)` is written.
    pub open spec fn writes(self, x: int, y: int) -> bool {
        self.tinted ==> color::byte_of(
            tint(self.black, self.white, self.source(self.texel_at(x, y))),
            3,
        ) != 0
    }

    /// Pixel `(x, y)` after drawing, when `screen` was there.
    pub open spec fn pixel(self, x: int, y: int, screen: u32) -> u32 {
        let i = self.texel_at(x, y);
        if self.tinted {
            blended(self.black, self.white, self.source(i), screen)
        } else if self.halved {
            block_average(
                self.source(i),
                self.source(i + 1),
                self.source(i + self.pitch),
                self.source(i + self.pitch + 1),
            )
        } else {
            self.source(i)
        }
    }

    /// The screen once the pixels of row `y` before `x` are drawn.
    pub open spec fn row_drawn(self, screen: Seq<u32>, stride: int, y: int, x: int) -> Seq<u32>
        decreases x - self.across.first,
    {
        if x <= self.across.first {
            screen
        } else {
            let before = self.row_drawn(screen, stride, y, x - 1);
            let at = y * stride + x - 1;
            if self.writes(x - 1, y) {
                before.update(at, self.pixel(x - 1, y, before[at]))
            } else {
                before
            }
        }
    }

    /// The screen once the rows before `y` are drawn.
    pub open spec fn drawn(self, screen: Seq<u32>, stride: int, y: int) -> Seq<u32>
        decreases y - self.down.first,
    {
        if y <= self.down.first {
            screen
        } else {
            self.row_drawn(
                self.drawn(screen, stride, y - 1),
                stride,
                y - 1,
                self.across.end as int,
            )
        }
    }

    /// Whether all texels that are shown and all pixels that are written
    /// are there.
    pub open spec fn fits(self, screen_len: int, stride: int) -> bool {
        &&& 0 <= self.across.first
        &&& 0 <= self.down.first
        &&& forall|x: int, y: int|
            #![trigger self.has_texels(x, y)]
            self.across.first <= x < self.across.end && self.down.first <= y < self.down.end ==> {
                &&& self.has_texels(x, y)
                &&& y * stride <= usize::MAX
                &&& self.writes(x, y) ==> y * stride + x < screen_len
            }
    }
}

/// The channels of a texel, mapped into the span.
fn tones(black: u32, white: u32, src: u32) -> (r: [i32; 4])
    ensures
        forall|i: int| 0 <= i < 4 ==> #[trigger] r[i] == toned(black, white, src, i),
        forall|i: int| 0 <= i < 4 ==> -256 <= #[trigger] r[i] <= 511,
{
    let bk: [u32; 4] = bytes_of(black);
    let wh: [u32; 4] = bytes_of(white);
    let sr: [u32; 4] = bytes_of(src);
    let mut out: [i32; 4] = [0, 0, 0, 0];
    let mut i: usize = 0;
    while i < 4
        invariant
            i <= 4,
            forall|k: int| 0 <= k < 4 ==> #[trigger] bk[k] == color::byte_of(black, k),
            forall|k: int| 0 <= k < 4 ==> #[trigger] wh[k] == color::byte_of(white, k),
            forall|k: int| 0 <= k < 4 ==> #[trigger] sr[k] == color::byte_of(src, k),
            forall|k: int|
                0 <= k < 4 ==> #[trigger] bk[k] < 0x100 && wh[k] < 0x100 && sr[k] < 0x100,
            forall|k: int| 0 <= k < i ==> #[trigger] out[k] == toned(black, white, src, k),
            forall|k: int| 0 <= k < 4 ==> -256 <= #[trigger] out[k] <= 511,
        decreases 4 - i,
    {
        assert(bk[i as int] < 0x100);
        let low: i32 = bk[i] as i32;
        let high: i32 = wh[i] as i32;
        let byte: i32 = sr[i] as i32;
        let mut span: i32 = high - low;
        if span == 255 {
            span = 256;
        } else if span == -255 {
            span = -256;
        }
        assert(-0x1_0000 <= byte * span <= 0x1_0000) by (nonlinear_arith)
            requires
                0 <= byte < 0x100,
                -0x100 <= span <= 0x100,
        ;
        let scaled: i32 = byte * span;
        proof {
            arith::lemma_shr(scaled, 8);
            vstd::arithmetic::power2::lemma2_to64();
        }
        out[i] = (scaled >> 8u32) + low;
        i += 1;
    }
    out
}

fn cut(x: i32) -> (r: u32)
    ensures
        r == to_byte(x as int),
        r < 0x100,
{
    if x < 0 {
        0
    } else if x > 255 {
        255
    } else {
        x as u32
    }
}

/// A texel mapped into the span, packed and by its channels before they
/// are cut to bytes.
fn tinted(black: u32, white: u32, src: u32) -> (r: (u32, [i32; 4]))
    ensures
        r.0 == tint(black, white, src),
        forall|i: int| 0 <= i < 4 ==> #[trigger] r.1[i] == toned(black, white, src, i),
        forall|i: int| 0 <= i < 4 ==> -256 <= #[trigger] r.1[i] <= 511,
        color::byte_of(r.0, 3) == to_byte(r.1[3] as int),
{
    let t: [i32; 4] = tones(black, white, src);
    let b: [u32; 4] = [cut(t[0]), cut(t[1]), cut(t[2]), cut(t[3])];
    proof {
        color::lemma_bytes_of_packed(b[0] as int, b[1] as int, b[2] as int, b[3] as int);
    }
    (pack(b), t)
}

/// A texel with these channels laid over a pixel of the screen.
fn lay_over(black: u32, white: u32, src: u32, screen: u32, t: [i32; 4]) -> (r: u32)
    requires
        forall|i: int| 0 <= i < 4 ==> #[trigger] t[i] == toned(black, white, src, i),
        forall|i: int| 0 <= i < 4 ==> -256 <= #[trigger] t[i] <= 511,
    ensures
        r == color::packed(
            laid_over(black, white, src, screen, 0),
            laid_over(black, white, src, screen, 1),
            laid_over(black, white, src, screen, 2),
            laid_over(black, white, src, screen, 3),
        ),
{
    let mut sc: [u32; 4] = bytes_of(screen);
    sc[3] = 0;
    let alpha: i32 = t[3];
    let mut out: [u32; 4] = [0, 0, 0, 0];
    let mut i: usize = 0;
    while i < 4
        invariant
            i <= 4,
            alpha == t[3],
            alpha == toned(black, white, src, 3),
            -256 <= alpha <= 511,
            forall|k: int| 0 <= k < 4 ==> #[trigger] t[k] == toned(black, white, src, k),
            forall|k: int| 0 <= k < 4 ==> -256 <= #[trigger] t[k] <= 511,
            forall|k: int|
                0 <= k < 4 ==> #[trigger] sc[k] == if k == 3 {
                    0
                } else {
                    color::byte_of(screen, k)
                },
            forall|k: int| 0 <= k < 4 ==> #[trigger] sc[k] < 0x100,
            forall|k: int|
                0 <= k < i ==> #[trigger] out[k] == laid_over(black, white, src, screen, k),
            forall|k: int| 0 <= k < 4 ==> #[trigger] out[k] < 0x100,
        decreases 4 - i,
    {
        assert(sc[i as int] < 0x100);
        assert(-256 <= t[i as int] <= 511);
        let under: i32 = sc[i] as i32;
        let delta: i32 = t[i] - under;
        assert(-0x10_0000 <= delta * alpha <= 0x10_0000) by (nonlinear_arith)
            requires
                -512 <= delta <= 511,
                -256 <= alpha <= 511,
        ;
        let scaled: i32 = delta * alpha;
        proof {
            arith::lemma_shr(scaled, 8);
            vstd::arithmetic::power2::lemma2_to64();
        }
        out[i] = cut(under + (scaled >> 8u32));
        i += 1;
    }
    pack(out)
}

impl Axis {
    /// The texel that pixel `x` shows.
    fn texel_of(&self, x: i32) -> (r: i32)
        ensures
            r == self.texel(x as int),
    {
        let wide: i32 = x.wrapping_mul(self.step);
        let at: i32 = wide.wrapping_add(self.start);
        proof {
            arith::lemma_wrapping_mul(x, self.step);
            arith::lemma_wrapping(wide, self.start);
            arith::lemma_wrap_twice(x * self.step, self.start as int);
            arith::lemma_shr16(at);
        }
        at >> 16u32
    }
}

impl<'a> TileDraw<'a> {
    /// Position of the texel that pixel `(x, y)` shows.
    fn texel_index(&self, x: i32, y: i32) -> (r: usize)
        requires
            self.across.first <= x,
            0 <= self.across.first,
            self.has_texels(x as int, y as int),
        ensures
            r == self.texel_at(x as int, y as int),
    {
        let n: usize = self.pixels.len();
        let row: i32 = self.down.texel_of(y);
        proof {
            assert(row * self.pitch >= 0) by (nonlinear_arith)
                requires
                    row == 0 || self.pitch == 0 || (row > 0 && self.pitch > 0),
            ;
            assert(row == 0 ==> row * self.pitch == 0) by (nonlinear_arith);
            assert(self.pitch == 0 ==> row * self.pitch == 0) by (nonlinear_arith);
        }
        let halved: bool = self.halved && !self.tinted;
        let column: usize = if halved {
            let base: i32 = self.across.texel_of(self.across.first);
            let ahead: usize = (x - self.across.first) as usize;
            base as usize + ahead + ahead
        } else {
            self.across.texel_of(x) as usize
        };
        let start: usize = if row == 0 || self.pitch == 0 {
            0
        } else {
            assert(row as usize * self.pitch as usize == row * self.pitch);
            row as usize * self.pitch as usize
        };
        column + start
    }

    /// Draws pixel `(x, y)`, of the row that starts at `row`.
    fn draw_pixel(&self, screen: &mut [u32], row: usize, x: i32, y: i32)
        requires
            0 <= self.across.first <= x,
            self.has_texels(x as int, y as int),
            self.writes(x as int, y as int) ==> row + x < old(screen)@.len(),
        ensures
            final(screen)@ == if self.writes(x as int, y as int) {
                old(screen)@.update(
                    row + x,
                    self.pixel(x as int, y as int, old(screen)@[row + x]),
                )
            } else {
                old(screen)@
            },
    {
        let n: usize = self.pixels.len();
        let m: usize = screen.len();
        let i: usize = self.texel_index(x, y);
        proof {
            assert(self.down.texel(y as int) * self.pitch >= 0) by (nonlinear_arith)
                requires
                    self.down.texel(y as int) == 0 || self.pitch == 0 || (self.down.texel(y as int)
                        > 0 && self.pitch > 0),
            ;
        }
        let src: u32 = self.pixels[i] as u32;
        if self.tinted {
            let (t, channels): (u32, [i32; 4]) = tinted(self.black, self.white, src);
            let alpha: u32 = t / 0x100_0000;
            if alpha == 0 {
                return;
            }
            let at: usize = row + x as usize;
            if alpha == 255 {
                screen[at] = t;
            } else {
                let under: u32 = screen[at];
                screen[at] = lay_over(self.black, self.white, src, under, channels);
            }
        } else if self.halved {
            let pitch: usize = self.pitch as usize;
            screen[row + x as usize] = average_block(
                src,
                self.pixels[i + 1] as u32,
                self.pixels[i + pitch] as u32,
                self.pixels[i + pitch + 1] as u32,
            );
        } else {
            screen[row + x as usize] = src;
        }
    }
}

impl<'a> TileDraw<'a> {
    /// Draws every pixel of the tile, row after row.
    fn draw(&self, screen: &mut [u32], stride: usize)
        requires
            self.fits(old(screen)@.len() as int, stride as int),
            !self.across.is_empty(),
            !self.down.is_empty(),
        ensures
            final(screen)@ == self.drawn(old(screen)@, stride as int, self.down.end as int),
    {
        let ghost before = screen@;
        let mut y: i32 = self.down.first;
        while y < self.down.end
            invariant
                self.fits(before.len() as int, stride as int),
                !self.across.is_empty(),
                self.down.first <= y <= self.down.end,
                screen@.len() == before.len(),
                screen@ == self.drawn(before, stride as int, y as int),
            decreases self.down.end - y,
        {
            let ghost above = screen@;
            assert(self.has_texels(self.across.first as int, y as int));
            assert(0 <= y * stride <= usize::MAX) by {
                assert(0 <= y * stride) by (nonlinear_arith)
                    requires
                        0 <= y,
                ;
            }
            let row: usize = y as usize * stride;
            let mut x: i32 = self.across.first;
            while x < self.across.end
                invariant
                    self.fits(before.len() as int, stride as int),
                    self.down.first <= y < self.down.end,
                    self.across.first <= x <= self.across.end,
                    row == y * stride,
                    screen@.len() == before.len(),
                    above.len() == before.len(),
                    screen@ == self.row_drawn(above, stride as int, y as int, x as int),
                decreases self.across.end - x,
            {
                assert(self.has_texels(x as int, y as int));
                self.draw_pixel(screen, row, x, y);
                x += 1;
            }
            y += 1;
        }
    }
}

/// Draws a tile of `tx` by `ty` texels onto the target, scaled by
/// `(xz, yz)`, so that its point `(tcx, tcy)` lies at `(sx, sy)`.
///
/// Where `black` and `white` have the same highest byte, texels replace
/// what is there; at half size each pixel then shows the average of four
/// texels. Otherwise each channel is mapped from the whole range into
/// the span from `black` to `white` and laid over what is there.
pub fn drawtile(
    target: &mut DrawTarget<'_>,
    tile_pixels: &[i32],
    tile_pitch_bytes: i32,
    tx: i32,
    ty: i32,
    tcx: i32,
    tcy: i32,
    sx: i32,
    sy: i32,
    xz: i32,
    yz: i32,
    black: i32,
    white: i32,
)
    requires
        tile_pixels@.len() > 0 && xz != 0 && yz != 0 ==> edges_fit(sx, tcx, xz, tx) && edges_fit(
            sy,
            tcy,
            yz,
            ty,
        ),
        ({
            let d = tile_of(
                tile_pixels,
                tile_pitch_bytes,
                axis_of(sx, tcx, xz, tx, old(target).width as i32),
                axis_of(sy, tcy, yz, ty, old(target).height as i32),
                black,
                white,
                xz,
                yz,
            );
            tile_pixels@.len() > 0 && xz != 0 && yz != 0 && !d.across.is_empty()
                && !d.down.is_empty() ==> near_edge(sx, tcx, xz) != i32::MIN && near_edge(
                sy,
                tcy,
                yz,
            ) != i32::MIN && d.fits(
                old(target).framebuffer@.len() as int,
                old(target).pitch_pixels as int,
            )
        }),
    ensures
        ({
            let d = tile_of(
                tile_pixels,
                tile_pitch_bytes,
                axis_of(sx, tcx, xz, tx, old(target).width as i32),
                axis_of(sy, tcy, yz, ty, old(target).height as i32),
                black,
                white,
                xz,
                yz,
            );
            final(target).framebuffer@ == if tile_pixels@.len() == 0 || xz == 0 || yz == 0
                || d.across.is_empty() || d.down.is_empty() {
                old(target).framebuffer@
            } else {
                d.drawn(
                    old(target).framebuffer@,
                    old(target).pitch_pixels as int,
                    d.down.end as int,
                )
            }
        }),
        final(target).pitch_pixels == old(target).pitch_pixels,
        final(target).width == old(target).width,
        final(target).height == old(target).height,
{
    if tile_pixels.len() == 0 || xz == 0 || yz == 0 {
        return;
    }
    let xres: i32 = target.width as i32;
    let yres: i32 = target.height as i32;
    let (sx0, x0, x1): (i32, i32, i32) = clipped(sx, tcx, xz, tx, xres);
    let (sy0, y0, y1): (i32, i32, i32) = clipped(sy, tcy, yz, ty, yres);
    if x0 >= x1 || y0 >= y1 {
        return;
    }
    let ui: i32 = shldiv16(0x1_0000, xz);
    let vi: i32 = shldiv16(0x1_0000, yz);
    let across: Axis = Axis { first: x0, end: x1, start: mulshr16(-sx0, ui), step: ui };
    let down: Axis = Axis { first: y0, end: y1, start: mulshr16(-sy0, vi), step: vi };
    let pitch: i32 = tile_pitch_bytes >> 2u32;
    proof {
        arith::lemma_shr(tile_pitch_bytes, 2);
        vstd::arithmetic::power2::lemma2_to64();
    }
    let low: u32 = black as u32;
    let high: u32 = white as u32;
    let draw: TileDraw<'_> = TileDraw {
        pixels: tile_pixels,
        pitch,
        across,
        down,
        black: low,
        white: high,
        halved: xz == 0x8000 && yz == 0x8000,
        tinted: low / 0x100_0000 != high / 0x100_0000,
    };
    draw.draw(target.framebuffer, target.pitch_pixels);
}

/// A tile as it is drawn with the given axes.
pub open spec fn tile_of<'a>(
    pixels: &'a [i32],
    pitch_bytes: i32,
    across: Axis,
    down: Axis,
    black: i32,
    white: i32,
    xz: i32,
    yz: i32,
) -> TileDraw<'a> {
    TileDraw {
        pixels,
        pitch: (pitch_bytes as int / 4) as i32,
        across,
        down,
        black: black as u32,
        white: white as u32,
        halved: xz == 0x8000 && yz == 0x8000,
        tinted: color::byte_of(black as u32, 3) != color::byte_of(white as u32, 3),
    }
}

/// Drawing touches the pixels of the tile alone, each once: where the
/// rows of the screen do not overlap, pixel `(x, y)` of the tile becomes
/// [`TileDraw::pixel`] of what was there.
pub proof fn lemma_drawn_pixel(d: TileDraw<'_>, screen: Seq<u32>, stride: int, x: int, y: int)
    requires
        d.fits(screen.len() as int, stride),
        d.across.end <= stride,
        d.across.first <= x < d.across.end,
        d.down.first <= y < d.down.end,
        y * stride + x < screen.len(),
    ensures
        d.drawn(screen, stride, d.down.end as int)[y * stride + x] == if d.writes(x, y) {
            d.pixel(x, y, screen[y * stride + x])
        } else {
            screen[y * stride + x]
        },
{
    lemma_nonneg_product(y, stride);
    lemma_rows(d, screen, stride, d.down.end as int, x, y);
}

proof fn lemma_row_pixel(
    d: TileDraw<'_>,
    screen: Seq<u32>,
    stride: int,
    y: int,
    end: int,
    x: int,
)
    requires
        d.fits(screen.len() as int, stride),
        0 <= stride,
        d.down.first <= y < d.down.end,
        d.across.first <= x < end <= d.across.end,
        0 <= position(stride, x, y) < screen.len(),
    ensures
        d.row_drawn(screen, stride, y, end)[position(stride, x, y)] == if d.writes(x, y) {
            d.pixel(x, y, screen[position(stride, x, y)])
        } else {
            screen[position(stride, x, y)]
        },
    decreases end,
{
    let at = position(stride, x, y);
    assert(d.has_texels(end - 1, y));
    lemma_nonneg_product(y, stride);
    if end - 1 == x {
        assert forall|k: int| d.across.first <= k < x implies #[trigger] position(stride, k, y)
            != at by {}
        lemma_row_elsewhere(d, screen, stride, y, x, at);
    } else {
        lemma_row_pixel(d, screen, stride, y, end - 1, x);
        lemma_row_len(d, screen, stride, y, end - 1);
    }
}

proof fn lemma_row_len(d: TileDraw<'_>, screen: Seq<u32>, stride: int, y: int, x: int)
    requires
        d.fits(screen.len() as int, stride),
        0 <= stride,
        d.down.first <= y < d.down.end,
        x <= d.across.end,
    ensures
        d.row_drawn(screen, stride, y, x).len() == screen.len(),
    decreases x - d.across.first,
{
    if x > d.across.first {
        lemma_row_len(d, screen, stride, y, x - 1);
        assert(d.has_texels(x - 1, y));
        lemma_nonneg_product(y, stride);
    }
}

/// Rows that do not overlap lie one after another.
proof fn lemma_rows_apart(stride: int, x: int, y: int, k: int, j: int)
    requires
        0 <= x < stride,
        0 <= k < stride,
        j < y,
    ensures
        position(stride, k, j) < position(stride, x, y),
{
    assert(j * stride + stride <= y * stride) by (nonlinear_arith)
        requires
            j + 1 <= y,
            stride > 0,
    ;
}

proof fn lemma_rows(d: TileDraw<'_>, screen: Seq<u32>, stride: int, end: int, x: int, y: int)
    requires
        d.fits(screen.len() as int, stride),
        d.across.end <= stride,
        d.across.first <= x < d.across.end,
        d.down.first <= y < end <= d.down.end,
        0 <= position(stride, x, y) < screen.len(),
    ensures
        d.drawn(screen, stride, end).len() == screen.len(),
        d.drawn(screen, stride, end)[position(stride, x, y)] == if d.writes(x, y) {
            d.pixel(x, y, screen[position(stride, x, y)])
        } else {
            screen[position(stride, x, y)]
        },
    decreases end,
{
    let at = position(stride, x, y);
    let above = d.drawn(screen, stride, end - 1);
    if end - 1 == y {
        assert forall|k: int, j: int|
            d.across.first <= k < d.across.end && d.down.first <= j < y implies #[trigger] position(
            stride,
            k,
            j,
        ) != at by {
            lemma_rows_apart(stride, x, y, k, j);
        }
        lemma_rows_elsewhere(d, screen, stride, y, at);
        lemma_row_len(d, above, stride, y, d.across.end as int);
        lemma_row_pixel(d, above, stride, y, d.across.end as int, x);
    } else {
        lemma_rows(d, screen, stride, end - 1, x, y);
        assert forall|k: int| d.across.first <= k < d.across.end implies #[trigger] position(
            stride,
            k,
            end - 1,
        ) != at by {
            lemma_rows_apart(stride, k, end - 1, x, y);
        }
        lemma_row_elsewhere(d, above, stride, end - 1, d.across.end as int, at);
    }
}

/// Every other position of the screen keeps its pixel.
pub proof fn lemma_drawn_elsewhere(d: TileDraw<'_>, screen: Seq<u32>, stride: int, at: int)
    requires
        d.fits(screen.len() as int, stride),
        0 <= stride,
        0 <= at < screen.len(),
        forall|x: int, y: int|
            d.across.first <= x < d.across.end && d.down.first <= y < d.down.end ==> #[trigger] position(
                stride,
                x,
                y,
            ) != at,
    ensures
        d.drawn(screen, stride, d.down.end as int)[at] == screen[at],
{
    lemma_rows_elsewhere(d, screen, stride, d.down.end as int, at);
}

proof fn lemma_row_elsewhere(
    d: TileDraw<'_>,
    screen: Seq<u32>,
    stride: int,
    y: int,
    x: int,
    at: int,
)
    requires
        d.fits(screen.len() as int, stride),
        0 <= stride,
        d.down.first <= y < d.down.end,
        x <= d.across.end,
        0 <= at < screen.len(),
        forall|k: int| d.across.first <= k < x ==> #[trigger] position(stride, k, y) != at,
    ensures
        d.row_drawn(screen, stride, y, x).len() == screen.len(),
        d.row_drawn(screen, stride, y, x)[at] == screen[at],
    decreases x - d.across.first,
{
    if x > d.across.first {
        lemma_row_elsewhere(d, screen, stride, y, x - 1, at);
        assert(position(stride, x - 1, y) != at);
        assert(d.has_texels(x - 1, y));
        lemma_nonneg_product(y, stride);
    }
}

proof fn lemma_nonneg_product(y: int, stride: int)
    ensures
        0 <= y && 0 <= stride ==> 0 <= y * stride,
{
    assert(0 <= y && 0 <= stride ==> 0 <= y * stride) by (nonlinear_arith);
}

proof fn lemma_rows_elsewhere(d: TileDraw<'_>, screen: Seq<u32>, stride: int, y: int, at: int)
    requires
        d.fits(screen.len() as int, stride),
        0 <= stride,
        y <= d.down.end,
        0 <= at < screen.len(),
        forall|k: int, j: int|
            d.across.first <= k < d.across.end && d.down.first <= j < y ==> #[trigger] position(
                stride,
                k,
                j,
            ) != at,
    ensures
        d.drawn(screen, stride, y).len() == screen.len(),
        d.drawn(screen, stride, y)[at] == screen[at],
    decreases y - d.down.first,
{
    if y > d.down.first {
        lemma_rows_elsewhere(d, screen, stride, y - 1, at);
        lemma_row_elsewhere(
            d,
            d.drawn(screen, stride, y - 1),
            stride,
            y - 1,
            d.across.end as int,
            at,
        );
    }
}

} // verus!
