//! Laws of drawing a tile: what a texel does to a pixel, and which texel a
//! pixel shows.
use crate::color;
use crate::drawtile;
use crate::drawtile::TileDraw;
use vstd::prelude::*;

verus! {

// ---------------------------------------------------------------------
// Tints.

/// A tint maps a channel from the whole range into the span from black to
/// white: zero becomes black, the result never leaves the span, and it is
/// as far into the span as the texel is into the range, in 256ths and
/// rounded down. A span of the whole range keeps the channel, or turns it
/// round.
pub proof fn lemma_tint_maps_into_span(black: u32, white: u32, src: u32, i: int)
    requires
        0 <= i < 4,
    ensures
        ({
            let (b, w) = (color::byte_of(black, i), color::byte_of(white, i));
            let x = color::byte_of(src, i);
            let t = color::byte_of(drawtile::tint(black, white, src), i);
            &&& x == 0 ==> t == b
            &&& b <= w ==> b <= t <= w
            &&& w <= b ==> w <= t <= b
            &&& b == 0 && w == 255 ==> t == x
            &&& b == 255 && w == 0 ==> t == 255 - x
            &&& -255 < w - b < 255 ==> 256 * (t - b) <= x * (w - b) < 256 * (t - b) + 256
        }),
{
    lemma_tint_bytes(black, white, src);
    lemma_tone(color::byte_of(black, i), color::byte_of(white, i), color::byte_of(src, i));
    assert(color::byte_of(drawtile::tint(black, white, src), i) == drawtile::to_byte(
        drawtile::toned(black, white, src, i),
    ));
}

proof fn lemma_tone(b: int, w: int, x: int)
    requires
        0 <= b < 256,
        0 <= w < 256,
        0 <= x < 256,
    ensures
        ({
            let d = if w - b == 255 {
                256
            } else if w - b == -255 {
                -256
            } else {
                w - b
            };
            let t = b + x * d / 0x100;
            &&& b <= w ==> b <= t <= w
            &&& w <= b ==> w <= t <= b
            &&& x == 0 ==> t == b
            &&& b == 0 && w == 255 ==> t == x
            &&& b == 255 && w == 0 ==> t == 255 - x
            &&& 256 * (t - b) <= x * d < 256 * (t - b) + 256
        }),
{
    let d = if w - b == 255 {
        256
    } else if w - b == -255 {
        -256
    } else {
        w - b
    };
    let n = x * d;
    assert(256 * (n / 256) <= n < 256 * (n / 256) + 256);
    if w - b == 255 {
        assert(n == 256 * x) by (nonlinear_arith)
            requires
                n == x * d,
                d == 256,
        ;
    } else if w - b == -255 {
        assert(n == -256 * x) by (nonlinear_arith)
            requires
                n == x * d,
                d == -256,
        ;
    } else if w >= b {
        assert(0 <= x * d <= 256 * d) by (nonlinear_arith)
            requires
                0 <= x < 256,
                0 <= d,
        ;
    } else {
        assert(256 * d <= x * d <= 0) by (nonlinear_arith)
            requires
                0 <= x < 256,
                d <= 0,
        ;
    }
    assert(0 * d == 0);
}

proof fn lemma_tint_bytes(black: u32, white: u32, src: u32)
    ensures
        forall|i: int|
            0 <= i < 4 ==> #[trigger] color::byte_of(drawtile::tint(black, white, src), i)
                == drawtile::to_byte(drawtile::toned(black, white, src, i)),
        forall|i: int|
            0 <= i < 4 ==> 0 <= #[trigger] drawtile::toned(black, white, src, i) < 256,
{
    assert forall|i: int| 0 <= i < 4 implies 0 <= #[trigger] drawtile::toned(black, white, src, i)
        < 256 by {
        lemma_tone(color::byte_of(black, i), color::byte_of(white, i), color::byte_of(src, i));
    }
    color::lemma_bytes_of_packed(
        drawtile::to_byte(drawtile::toned(black, white, src, 0)),
        drawtile::to_byte(drawtile::toned(black, white, src, 1)),
        drawtile::to_byte(drawtile::toned(black, white, src, 2)),
        drawtile::to_byte(drawtile::toned(black, white, src, 3)),
    );
}

// ---------------------------------------------------------------------
// Blending.

proof fn lemma_laid_over(s: int, t: int, a: int)
    requires
        0 <= s < 256,
        0 <= t < 256,
        0 <= a < 256,
    ensures
        ({
            let r = s + (t - s) * a / 0x100;
            &&& s <= t ==> s <= r <= t
            &&& t <= s ==> t <= r <= s
        }),
{
    let n = (t - s) * a;
    assert(s <= t ==> 0 <= n <= 256 * (t - s)) by (nonlinear_arith)
        requires
            n == (t - s) * a,
            0 <= a < 256,
    ;
    assert(t <= s ==> 256 * (t - s) <= n <= 0) by (nonlinear_arith)
        requires
            n == (t - s) * a,
            0 <= a < 256,
    ;
}

/// A tinted texel of alpha `a` moves each channel of the screen toward its
/// own by `a` 256ths of the way, rounded down. A clear one leaves the
/// screen as it is, and an opaque one takes its place. The result lies
/// between the two.
pub proof fn lemma_texel_covers_by_its_alpha(black: u32, white: u32, src: u32, screen: u32, i: int)
    requires
        0 <= i < 3,
    ensures
        ({
            let texel = drawtile::tint(black, white, src);
            let a = color::byte_of(texel, 3);
            let (s, t) = (color::byte_of(screen, i), color::byte_of(texel, i));
            let out = drawtile::blended(black, white, src, screen);
            let r = color::byte_of(out, i);
            &&& a == 0 ==> out == screen
            &&& a == 255 ==> out == texel
            &&& 0 < a < 255 ==> 256 * (r - s) <= (t - s) * a < 256 * (r - s) + 256
            &&& s <= t ==> s <= r <= t
            &&& t <= s ==> t <= r <= s
        }),
{
    lemma_blended_bytes(black, white, src, screen);
    let texel = drawtile::tint(black, white, src);
    let a = color::byte_of(texel, 3);
    let (s, t) = (color::byte_of(screen, i), color::byte_of(texel, i));
    lemma_tint_bytes(black, white, src);
    assert(drawtile::toned(black, white, src, 3) == a);
    assert(drawtile::toned(black, white, src, i) == t);
    lemma_laid_over(s, t, a);
    if 0 < a < 255 {
        assert(color::byte_of(drawtile::blended(black, white, src, screen), i)
            == drawtile::laid_over(black, white, src, screen, i));
    }
}

/// The highest channel of a blended pixel is the texel's own, scaled by
/// itself: the screen's counts as zero.
pub proof fn lemma_blended_alpha(black: u32, white: u32, src: u32, screen: u32)
    ensures
        ({
            let a = color::byte_of(drawtile::tint(black, white, src), 3);
            let r = color::byte_of(drawtile::blended(black, white, src, screen), 3);
            0 < a < 255 ==> 256 * r <= a * a < 256 * r + 256
        }),
{
    lemma_blended_bytes(black, white, src, screen);
    lemma_tint_bytes(black, white, src);
    let a = color::byte_of(drawtile::tint(black, white, src), 3);
    assert(drawtile::toned(black, white, src, 3) == a);
    lemma_laid_over(0, a, a);
    if 0 < a < 255 {
        assert(color::byte_of(drawtile::blended(black, white, src, screen), 3)
            == drawtile::laid_over(black, white, src, screen, 3));
    }
}

proof fn lemma_blended_bytes(black: u32, white: u32, src: u32, screen: u32)
    ensures
        ({
            let a = color::byte_of(drawtile::tint(black, white, src), 3);
            0 < a < 255 ==> forall|i: int|
                0 <= i < 4 ==> #[trigger] color::byte_of(
                    drawtile::blended(black, white, src, screen),
                    i,
                ) == drawtile::laid_over(black, white, src, screen, i)
        }),
{
    color::lemma_bytes_of_packed(
        drawtile::laid_over(black, white, src, screen, 0),
        drawtile::laid_over(black, white, src, screen, 1),
        drawtile::laid_over(black, white, src, screen, 2),
        drawtile::laid_over(black, white, src, screen, 3),
    );
}

/// Of two texels of the same colour the more opaque one takes the screen
/// at least as far toward that colour.
pub proof fn lemma_more_opaque_covers_more(
    black: u32,
    white: u32,
    thin: u32,
    thick: u32,
    screen: u32,
    i: int,
)
    requires
        0 <= i < 3,
        color::byte_of(drawtile::tint(black, white, thin), i) == color::byte_of(
            drawtile::tint(black, white, thick),
            i,
        ),
        color::byte_of(drawtile::tint(black, white, thin), 3) <= color::byte_of(
            drawtile::tint(black, white, thick),
            3,
        ),
    ensures
        ({
            let (s, t) = (
                color::byte_of(screen, i),
                color::byte_of(drawtile::tint(black, white, thin), i),
            );
            let a = color::byte_of(drawtile::blended(black, white, thin, screen), i);
            let b = color::byte_of(drawtile::blended(black, white, thick, screen), i);
            &&& s <= t ==> a <= b
            &&& t <= s ==> b <= a
        }),
{
    lemma_texel_covers_by_its_alpha(black, white, thin, screen, i);
    lemma_texel_covers_by_its_alpha(black, white, thick, screen, i);
    let (s, t) = (
        color::byte_of(screen, i),
        color::byte_of(drawtile::tint(black, white, thin), i),
    );
    let p = color::byte_of(drawtile::tint(black, white, thin), 3);
    let q = color::byte_of(drawtile::tint(black, white, thick), 3);
    assert(s <= t ==> (t - s) * p <= (t - s) * q) by (nonlinear_arith)
        requires
            p <= q,
    ;
    assert(t <= s ==> (t - s) * q <= (t - s) * p) by (nonlinear_arith)
        requires
            p <= q,
    ;
}

// ---------------------------------------------------------------------
// Blocks of four texels.

/// A block of four texels is their mean, rounded up by less than one step
/// and a bit: four times it is at least their sum and at most four more.
/// The order of the four does not matter to these bounds, and four of a
/// kind stay what they are.
pub proof fn lemma_block_is_a_mean(ta: u32, tb: u32, ba: u32, bb: u32, i: int)
    requires
        0 <= i < 4,
    ensures
        ({
            let sum = color::byte_of(ta, i) + color::byte_of(tb, i) + color::byte_of(ba, i)
                + color::byte_of(bb, i);
            let r = color::byte_of(drawtile::block_average(ta, tb, ba, bb), i);
            sum <= 4 * r <= sum + 4
        }),
        drawtile::block_average(ta, ta, ta, ta) == ta,
        drawtile::block_average(ta, tb, ba, bb) == drawtile::block_average(ba, bb, ta, tb),
        drawtile::block_average(ta, tb, ba, bb) == drawtile::block_average(tb, ta, bb, ba),
{
    assert forall|k: int| 0 <= k < 4 implies 0 <= #[trigger] drawtile::block_channel(
        ta,
        tb,
        ba,
        bb,
        k,
    ) < 256 by {
        lemma_block_channel(
            color::byte_of(ta, k),
            color::byte_of(tb, k),
            color::byte_of(ba, k),
            color::byte_of(bb, k),
        );
    }
    lemma_block_channel(
        color::byte_of(ta, i),
        color::byte_of(tb, i),
        color::byte_of(ba, i),
        color::byte_of(bb, i),
    );
    lemma_block_bytes(ta, tb, ba, bb, i);
    lemma_block_turned(ta, tb, ba, bb);
}

proof fn lemma_block_channel(a: int, b: int, c: int, d: int)
    requires
        0 <= a < 256,
        0 <= b < 256,
        0 <= c < 256,
        0 <= d < 256,
    ensures
        ({
            let r = drawtile::average(drawtile::average(a, b), drawtile::average(c, d));
            &&& 0 <= r < 256
            &&& a + b + c + d <= 4 * r <= a + b + c + d + 4
        }),
{
}

proof fn lemma_block_bytes(ta: u32, tb: u32, ba: u32, bb: u32, i: int)
    requires
        0 <= i < 4,
        forall|k: int|
            0 <= k < 4 ==> 0 <= #[trigger] drawtile::block_channel(ta, tb, ba, bb, k) < 256,
    ensures
        color::byte_of(drawtile::block_average(ta, tb, ba, bb), i) == drawtile::block_channel(
            ta,
            tb,
            ba,
            bb,
            i,
        ),
{
    let c0 = drawtile::block_channel(ta, tb, ba, bb, 0);
    let c1 = drawtile::block_channel(ta, tb, ba, bb, 1);
    let c2 = drawtile::block_channel(ta, tb, ba, bb, 2);
    let c3 = drawtile::block_channel(ta, tb, ba, bb, 3);
    color::lemma_bytes_of_packed(c0, c1, c2, c3);
}

proof fn lemma_block_turned(ta: u32, tb: u32, ba: u32, bb: u32)
    ensures
        drawtile::block_average(ta, ta, ta, ta) == ta,
        drawtile::block_average(ta, tb, ba, bb) == drawtile::block_average(ba, bb, ta, tb),
        drawtile::block_average(ta, tb, ba, bb) == drawtile::block_average(tb, ta, bb, ba),
{
    lemma_four_of_a_kind(ta);
    lemma_channel_turned(ta, tb, ba, bb, 0);
    lemma_channel_turned(ta, tb, ba, bb, 1);
    lemma_channel_turned(ta, tb, ba, bb, 2);
    lemma_channel_turned(ta, tb, ba, bb, 3);
}

proof fn lemma_channel_turned(ta: u32, tb: u32, ba: u32, bb: u32, k: int)
    ensures
        drawtile::block_channel(ta, tb, ba, bb, k) == drawtile::block_channel(ba, bb, ta, tb, k),
        drawtile::block_channel(ta, tb, ba, bb, k) == drawtile::block_channel(tb, ta, bb, ba, k),
{
}

proof fn lemma_four_of_a_kind(t: u32)
    ensures
        drawtile::block_average(t, t, t, t) == t,
{
    color::lemma_packed_bytes(t);
    lemma_mean_of_one(color::byte_of(t, 0));
    lemma_mean_of_one(color::byte_of(t, 1));
    lemma_mean_of_one(color::byte_of(t, 2));
    lemma_mean_of_one(color::byte_of(t, 3));
    assert(drawtile::block_channel(t, t, t, t, 0) == color::byte_of(t, 0));
    assert(drawtile::block_channel(t, t, t, t, 1) == color::byte_of(t, 1));
    assert(drawtile::block_channel(t, t, t, t, 2) == color::byte_of(t, 2));
    assert(drawtile::block_channel(t, t, t, t, 3) == color::byte_of(t, 3));
}

proof fn lemma_mean_of_one(a: int)
    ensures
        drawtile::average(drawtile::average(a, a), drawtile::average(a, a)) == a,
{
}

// ---------------------------------------------------------------------
// Where texels are shown.

/// A fixed-point product is the product of the numbers, rounded down.
pub proof fn lemma_product(a: i32, d: i32)
    requires
        i32::MIN <= a * d / 0x1_0000 <= i32::MAX,
    ensures
        0x1_0000 * drawtile::product(a as int, d as int) <= a * d,
        a * d < 0x1_0000 * drawtile::product(a as int, d as int) + 0x1_0000,
{
}

/// A fixed-point quotient by a positive number is the quotient of the
/// numbers, rounded toward zero.
pub proof fn lemma_quotient(a: i32, b: i32)
    requires
        b > 0,
        i32::MIN <= drawtile::quotient(a as int, b as int) as int,
        -0x7fff <= a <= 0x7fff,
    ensures
        ({
            let q = drawtile::quotient(a as int, b as int);
            &&& a >= 0 ==> b * q <= a * 0x1_0000 < b * q + b
            &&& a < 0 ==> b * q - b < a * 0x1_0000 <= b * q
        }),
{
    let n = if a >= 0 {
        a * 0x1_0000
    } else {
        -a * 0x1_0000
    };
    let q = n / b as int;
    vstd::arithmetic::div_mod::lemma_fundamental_div_mod(n, b as int);
    assert(0 <= q <= n && b * q <= n < b * q + b) by (nonlinear_arith)
        requires
            n == b * q + n % (b as int),
            0 <= n % (b as int) < b,
            b > 0,
            n >= 0,
    ;
    assert(b * -q == -(b * q)) by (nonlinear_arith);
}

/// At full size a tile shows texel after texel: where its point `c` lies at
/// pixel `k`, pixel `x` shows texel `x - k + c`. The pixels that show it
/// are those of the screen that get one of its `t` texels.
pub proof fn lemma_full_size_shows_each_texel(k: int, c: int, t: i32, size: i32, x: int)
    requires
        -0x4000 < k < 0x4000,
        -0x2000 < c < 0x2000,
        0 <= t < 0x2000,
        0 <= size < 0x7fff,
        0 <= x < size,
    ensures
        ({
            let a = drawtile::axis_of(
                (k * 0x1_0000) as i32,
                (c * 0x1_0000) as i32,
                0x1_0000,
                t,
                size,
            );
            &&& (a.first <= x < a.end) == (0 <= x - k + c < t)
            &&& a.first <= x < a.end ==> a.texel(x) == x - k + c
        }),
{
    let s = (k * 0x1_0000) as i32;
    let tc = (c * 0x1_0000) as i32;
    let near = drawtile::near_edge(s, tc, 0x1_0000);
    assert(drawtile::product(tc as int, 0x1_0000) == tc);
    assert(near == (k - c) * 0x1_0000);
    assert(drawtile::quotient(0x1_0000, 0x1_0000) == 0x1_0000);
    assert(drawtile::product(-near, 0x1_0000) == -near);
    let far = drawtile::far_edge(near, 0x1_0000, t);
    assert(far == (k - c + t) * 0x1_0000);
    if 0 <= x - k + c < t {
        assert(x * 0x1_0000 - near == (x - k + c) * 0x1_0000);
    }
}

/// At any size that is a whole number of pixels for each texel, each texel
/// is shown by so many pixels: a tile that begins at pixel `k` and is
/// scaled by `m`, a power of two, shows texel `j` at pixels `k + j * m` to
/// `k + j * m + m - 1`.
pub proof fn lemma_larger_size_repeats_texels(k: int, m: int, t: i32, size: i32, j: int, d: int)
    requires
        m == 2 || m == 4 || m == 8 || m == 16,
        0 <= k < 0x400,
        0 <= t < 0x200,
        0 <= j < t,
        0 <= d < m,
        0x4000 < size < 0x7fff,
    ensures
        ({
            let a = drawtile::axis_of(
                (k * 0x1_0000) as i32,
                0,
                (m * 0x1_0000) as i32,
                t,
                size,
            );
            let x = k + j * m + d;
            &&& a.first <= x < a.end
            &&& a.texel(x) == j
        }),
{
    let s = (k * 0x1_0000) as i32;
    let z = (m * 0x1_0000) as i32;
    let near = drawtile::near_edge(s, 0, z);
    assert(0 * z == 0);
    assert(near == s);
    let step = if m == 2 {
        0x8000int
    } else if m == 4 {
        0x4000
    } else if m == 8 {
        0x2000
    } else {
        0x1000
    };
    if m == 2 {
        assert(z as int == 0x2_0000);
    } else if m == 4 {
        assert(z as int == 0x4_0000);
    } else if m == 8 {
        assert(z as int == 0x8_0000);
    } else {
        assert(z as int == 0x10_0000);
    }
    assert(0x1_0000int * 0x1_0000 == 0x1_0000_0000);
    assert(0x1_0000_0000int / (z as int) == step);
    assert(drawtile::quotient(0x1_0000, z as int) == step);
    assert(m * step == 0x1_0000);
    assert(-near * step == (-k * step) * 0x1_0000) by (nonlinear_arith)
        requires
            near == k * 0x1_0000,
    ;
    let ks = k * step;
    assert(-k * step == -ks) by (nonlinear_arith)
        requires
            ks == k * step,
    ;
    assert(0 <= ks <= 0x400 * 0x8000) by (nonlinear_arith)
        requires
            ks == k * step,
            0 <= k < 0x400,
            0 <= step <= 0x8000,
    ;
    let start = drawtile::product(-near, step);
    assert(start == -ks);
    let mt = m * t;
    assert(z * t == mt * 0x1_0000) by (nonlinear_arith)
        requires
            z == m * 0x1_0000,
            mt == m * t,
    ;
    assert(mt <= 16 * 0x200 && j * m + d < mt && 0 <= j * m) by (nonlinear_arith)
        requires
            mt == m * t,
            0 <= j,
            j + 1 <= t,
            t < 0x200,
            0 <= d < m,
            2 <= m <= 16,
    ;
    let far = drawtile::far_edge(near, z, t);
    assert(far == (k + mt) * 0x1_0000);
    let x = k + j * m + d;
    assert(x * step - ks == j * 0x1_0000 + d * step) by (nonlinear_arith)
        requires
            x == k + j * m + d,
            ks == k * step,
            m * step == 0x1_0000,
    ;
    assert(0 <= d * step < 0x1_0000) by (nonlinear_arith)
        requires
            0 <= d,
            d + 1 <= m,
            m * step == 0x1_0000,
            step >= 1,
    ;
}

/// One pixel further shows a texel of the same row; one row of texels
/// further down is one pitch further in memory.
pub proof fn lemma_texels_in_rows(d: TileDraw<'_>, x: int, y: int, v: int)
    ensures
        d.texel_at(x, y) - d.texel_at(x, v) == (d.down.texel(y) - d.down.texel(v)) * d.pitch,
        !d.halved || d.tinted ==> d.texel_at(x, y) - d.texel_at(v, y) == d.across.texel(x)
            - d.across.texel(v),
        d.halved && !d.tinted ==> d.texel_at(x, y) - d.texel_at(v, y) == 2 * (x - v),
{
    let (a, b, p) = (d.down.texel(y), d.down.texel(v), d.pitch as int);
    assert((a - b) * p == a * p - b * p) by (nonlinear_arith);
}

/// Drawing a tile that is neither tinted nor halved copies texels.
pub proof fn lemma_plain_tile_is_copied(
    d: TileDraw<'_>,
    screen: Seq<u32>,
    stride: int,
    x: int,
    y: int,
)
    requires
        !d.tinted,
        !d.halved,
        d.fits(screen.len() as int, stride),
        d.across.end <= stride,
        d.across.first <= x < d.across.end,
        d.down.first <= y < d.down.end,
        y * stride + x < screen.len(),
    ensures
        d.drawn(screen, stride, d.down.end as int)[y * stride + x] == d.pixels@[d.across.texel(x)
            + d.down.texel(y) * d.pitch] as u32,
{
    drawtile::lemma_drawn_pixel(d, screen, stride, x, y);
}

/// A tile whose tints span the whole range upward shows opaque texels as
/// they are, and leaves the screen as it is under clear ones.
pub proof fn lemma_whole_span_keeps_texels(src: u32, screen: u32)
    ensures
        drawtile::tint(0, 0xffff_ffff, src) == src,
        color::byte_of(src, 3) == 255 ==> drawtile::blended(0, 0xffff_ffff, src, screen) == src,
        color::byte_of(src, 3) == 0 ==> drawtile::blended(0, 0xffff_ffff, src, screen) == screen,
{
    lemma_tint_maps_into_span(0, 0xffff_ffff, src, 0);
    lemma_tint_maps_into_span(0, 0xffff_ffff, src, 1);
    lemma_tint_maps_into_span(0, 0xffff_ffff, src, 2);
    lemma_tint_maps_into_span(0, 0xffff_ffff, src, 3);
    color::lemma_packed_bytes(src);
    color::lemma_packed_bytes(drawtile::tint(0, 0xffff_ffff, src));
}

/// A tile covers the pixels whose corner lies between its edges: from
/// the near edge on, and before the far one, as far as the screen goes.
pub proof fn lemma_pixels_between_edges(s: i32, tc: i32, z: i32, t: i32, size: i32, x: int)
    requires
        size >= 0,
        drawtile::edges_fit(s, tc, z, t),
    ensures
        ({
            let a = drawtile::axis_of(s, tc, z, t, size);
            let near = drawtile::near_edge(s, tc, z);
            let far = drawtile::far_edge(near, z, t);
            a.first <= x < a.end <==> 0 <= x < size && near <= x * 0x1_0000 < far
        }),
{
}

/// A pixel that a tile does not write would stay as it is, and a tile
/// without a tint writes every pixel that it covers.
pub proof fn lemma_unwritten_stays(tile: TileDraw<'_>, x: int, y: int, screen: u32)
    ensures
        !tile.writes(x, y) ==> tile.pixel(x, y, screen) == screen,
        !tile.tinted ==> tile.writes(x, y),
{
}

/// At half size a pixel is the mean of a block of four texels: its own,
/// the next one, and the two under them.
pub proof fn lemma_half_size_shows_blocks(tile: TileDraw<'_>, x: int, y: int, screen: u32, i: int)
    requires
        tile.halved,
        !tile.tinted,
        0 <= i < 4,
    ensures
        ({
            let at = tile.texel_at(x, y);
            let texel = |k: int| color::byte_of(tile.pixels@[at + k] as u32, i);
            let sum = texel(0) + texel(1) + texel(tile.pitch as int) + texel(tile.pitch + 1);
            let r = color::byte_of(tile.pixel(x, y, screen), i);
            sum <= 4 * r <= sum + 4
        }),
{
    let at = tile.texel_at(x, y);
    lemma_block_is_a_mean(
        tile.source(at),
        tile.source(at + 1),
        tile.source(at + tile.pitch),
        tile.source(at + tile.pitch + 1),
        i,
    );
}

/// A tile has a row of texels for each four bytes of its pitch; it is at
/// half size where both of its scales are a half, and has a tint where
/// black and white differ in their highest bytes.
pub proof fn lemma_tile_of_arguments(
    pixels: &[i32],
    pitch_bytes: i32,
    across: drawtile::Axis,
    down: drawtile::Axis,
    black: i32,
    white: i32,
    xz: i32,
    yz: i32,
)
    ensures
        ({
            let tile = drawtile::tile_of(pixels, pitch_bytes, across, down, black, white, xz, yz);
            &&& 4 * tile.pitch <= pitch_bytes < 4 * tile.pitch + 4
            &&& tile.pixels@ == pixels@
            &&& tile.halved <==> xz == 0x8000 && yz == 0x8000
            &&& tile.tinted <==> (black as u32) as int / 0x100_0000 != (white as u32) as int
                / 0x100_0000
            &&& tile.across == across && tile.down == down
            &&& tile.black == black as u32 && tile.white == white as u32
        }),
{
}

} // verus!
