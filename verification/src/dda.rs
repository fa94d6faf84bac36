//! Casting of one ray per pixel through the cells of a chunk grid.
use crate::arith;
use crate::color;
use crate::color::{bytes_of, pack};
use crate::sky::Sky;
use vstd::prelude::*;

pub mod brick;
pub mod level;
pub mod sampler;
pub mod sound;
pub mod walk;

verus! {

/// A channel under a brightness of 128 for full.
pub open spec fn shaded_channel(c: u32, bright_sub: u32, i: int) -> int {
    arith::min_int(
        color::byte_of(c, i) * arith::max_int(color::byte_of(c, 3) - bright_sub, 0) / 0x80,
        255,
    )
}

/// A colour under its brightness byte less `bright_sub`, at full
/// brightness.
pub open spec fn shaded(c: u32, bright_sub: u32) -> u32 {
    color::packed(
        shaded_channel(c, bright_sub, 0),
        shaded_channel(c, bright_sub, 1),
        shaded_channel(c, bright_sub, 2),
        0x80,
    )
}

fn lit_byte(c: u32, a: u32) -> (r: u32)
    requires
        c < 0x100,
        a < 0x100,
    ensures
        r == arith::min_int(c * a / 0x80, 255),
        r < 0x100,
{
    assert(c * a <= 0xffff) by (nonlinear_arith)
        requires
            c < 0x100,
            a < 0x100,
    ;
    let v: u32 = c * a / 0x80;
    if v > 255 {
        255
    } else {
        v
    }
}

/// Applies the brightness byte, less `bright_sub`, to the other channels.
#[must_use]
pub fn shade(color: u32, bright_sub: u32) -> (r: u32)
    ensures
        r == shaded(color, bright_sub),
{
    let b: [u32; 4] = bytes_of(color);
    assert(b[0] < 0x100 && b[1] < 0x100 && b[2] < 0x100 && b[3] < 0x100);
    let a: u32 = b[3].saturating_sub(bright_sub);
    pack([lit_byte(b[0], a), lit_byte(b[1], a), lit_byte(b[2], a), 0x80])
}

/// A colour at full brightness is left as it is.
pub proof fn lemma_full_brightness(c: u32)
    requires
        color::byte_of(c, 3) == 0x80,
    ensures
        shaded(c, 0) == c,
{
    assert(arith::max_int(color::byte_of(c, 3) - 0u32, 0) == 0x80);
    assert(shaded_channel(c, 0, 0) == color::byte_of(c, 0));
    assert(shaded_channel(c, 0, 1) == color::byte_of(c, 1));
    assert(shaded_channel(c, 0, 2) == color::byte_of(c, 2));
}

/// A face that is shaded more is not brighter.
pub proof fn lemma_shade_darkens(c: u32, s: u32, t: u32, i: int)
    requires
        s <= t,
        0 <= i < 3,
    ensures
        shaded_channel(c, t, i) <= shaded_channel(c, s, i),
{
    let x = color::byte_of(c, i);
    let a = arith::max_int(color::byte_of(c, 3) - t, 0);
    let b = arith::max_int(color::byte_of(c, 3) - s, 0);
    assert(x * a <= x * b) by (nonlinear_arith)
        requires
            0 <= x,
            a <= b,
    ;
}

/// Shading keeps the full brightness byte, and scales every channel by the
/// brightness that is left, 128 for whole, rounded down and cut to a byte.
pub proof fn lemma_shade_scales(c: u32, bright_sub: u32, i: int)
    requires
        0 <= i < 3,
    ensures
        ({
            let x = color::byte_of(c, i);
            let left = color::byte_of(c, 3) - bright_sub;
            let r = color::byte_of(shaded(c, bright_sub), i);
            &&& color::byte_of(shaded(c, bright_sub), 3) == 0x80
            &&& left <= 0 ==> r == 0
            &&& left > 0 && r < 255 ==> 128 * r <= x * left < 128 * r + 128
            &&& left > 0 && r == 255 ==> x * left >= 128 * 255
        }),
{
    let x = color::byte_of(c, i);
    let left = color::byte_of(c, 3) - bright_sub;
    lemma_shaded_bytes(c, bright_sub);
    if left <= 0 {
        assert(x * 0 == 0);
    } else {
        assert(0 <= x * left) by (nonlinear_arith)
            requires
                0 <= x,
                0 < left,
        ;
    }
}

proof fn lemma_shaded_bytes(c: u32, bright_sub: u32)
    ensures
        forall|i: int|
            0 <= i < 3 ==> #[trigger] color::byte_of(shaded(c, bright_sub), i) == shaded_channel(
                c,
                bright_sub,
                i,
            ),
        color::byte_of(shaded(c, bright_sub), 3) == 0x80,
        forall|i: int| 0 <= i < 3 ==> 0 <= #[trigger] shaded_channel(c, bright_sub, i) < 256,
{
    let a = arith::max_int(color::byte_of(c, 3) - bright_sub, 0);
    assert forall|i: int| 0 <= i < 3 implies 0 <= #[trigger] shaded_channel(c, bright_sub, i)
        < 256 by {
        let x = color::byte_of(c, i);
        assert(0 <= x * a) by (nonlinear_arith)
            requires
                0 <= x,
                0 <= a,
        ;
    }
    assert(0 <= shaded_channel(c, bright_sub, 0) < 256);
    assert(0 <= shaded_channel(c, bright_sub, 1) < 256);
    assert(0 <= shaded_channel(c, bright_sub, 2) < 256);
    color::lemma_bytes_of_packed(
        shaded_channel(c, bright_sub, 0),
        shaded_channel(c, bright_sub, 1),
        shaded_channel(c, bright_sub, 2),
        0x80,
    );
}

/// A channel mixed with the fog's, `f` parts of 256.
pub open spec fn fogged_channel(c: u32, fog: u32, f: u32, i: int) -> int {
    (color::byte_of(c, i) * (256 - f) + color::byte_of(fog, i) * f) / 256
}

/// A colour mixed with the fog's, `f` parts of 256.
pub open spec fn fogged(c: u32, fog: u32, f: u32) -> u32 {
    color::packed(
        fogged_channel(c, fog, f, 0),
        fogged_channel(c, fog, f, 1),
        fogged_channel(c, fog, f, 2),
        0x80,
    )
}

fn fog_byte(c: u32, fog: u32, f: u32) -> (r: u32)
    requires
        c < 0x100,
        fog < 0x100,
        f <= 256,
    ensures
        r == (c * (256 - f) + fog * f) / 256,
        r < 0x100,
{
    assert(0 <= c * (256 - f) && 0 <= fog * f && c * (256 - f) + fog * f <= 0xff00)
        by (nonlinear_arith)
        requires
            c <= 0xff,
            fog <= 0xff,
            0 <= f <= 256,
    ;
    (c * (256 - f) + fog * f) / 256
}

/// Mixes a colour with the fog's, `f` parts of 256.
#[must_use]
pub fn fog_mix(color: u32, fog: u32, f: u32) -> (r: u32)
    requires
        f <= 256,
    ensures
        r == fogged(color, fog, f),
{
    let b: [u32; 4] = bytes_of(color);
    let g: [u32; 4] = bytes_of(fog);
    assert(b[0] < 0x100 && b[1] < 0x100 && b[2] < 0x100);
    assert(g[0] < 0x100 && g[1] < 0x100 && g[2] < 0x100);
    pack([fog_byte(b[0], g[0], f), fog_byte(b[1], g[1], f), fog_byte(b[2], g[2], f), 0x80])
}

/// Full fog hides the colour; no fog keeps it.
pub proof fn lemma_fog_ends(c: u32, fog: u32, i: int)
    requires
        0 <= i < 3,
    ensures
        fogged_channel(c, fog, 0, i) == color::byte_of(c, i),
        fogged_channel(c, fog, 256, i) == color::byte_of(fog, i),
{
}

/// In fog every channel is the mean of the colour's, counted `256 - f`
/// times, and the fog's, counted `f` times, rounded down. So it lies
/// between the two, and a colour in fog of the same colour stays.
pub proof fn lemma_fog_is_a_mean(c: u32, fog: u32, f: u32, i: int)
    requires
        f <= 256,
        0 <= i < 3,
    ensures
        ({
            let (x, g) = (color::byte_of(c, i), color::byte_of(fog, i));
            let r = color::byte_of(fogged(c, fog, f), i);
            &&& color::byte_of(fogged(c, fog, f), 3) == 0x80
            &&& 256 * r <= x * (256 - f) + g * f < 256 * r + 256
            &&& x <= g ==> x <= r <= g
            &&& g <= x ==> g <= r <= x
        }),
{
    lemma_mean(color::byte_of(c, 0), color::byte_of(fog, 0), f as int);
    lemma_mean(color::byte_of(c, 1), color::byte_of(fog, 1), f as int);
    lemma_mean(color::byte_of(c, 2), color::byte_of(fog, 2), f as int);
    color::lemma_bytes_of_packed(
        fogged_channel(c, fog, f, 0),
        fogged_channel(c, fog, f, 1),
        fogged_channel(c, fog, f, 2),
        0x80,
    );
}

proof fn lemma_mean(x: int, g: int, f: int)
    requires
        0 <= x < 256,
        0 <= g < 256,
        0 <= f <= 256,
    ensures
        ({
            let r = (x * (256 - f) + g * f) / 256;
            &&& 0 <= r < 256
            &&& x <= g ==> x <= r <= g
            &&& g <= x ==> g <= r <= x
        }),
{
    let n = x * (256 - f) + g * f;
    assert(x <= g ==> 256 * x <= n <= 256 * g) by (nonlinear_arith)
        requires
            n == x * (256 - f) + g * f,
            0 <= f <= 256,
    ;
    assert(g <= x ==> 256 * g <= n <= 256 * x) by (nonlinear_arith)
        requires
            n == x * (256 - f) + g * f,
            0 <= f <= 256,
    ;
}

/// More fog never takes a channel farther from the fog's.
pub proof fn lemma_more_fog_is_nearer(c: u32, fog: u32, f: u32, h: u32, i: int)
    requires
        f <= h <= 256,
        0 <= i < 3,
    ensures
        ({
            let (x, g) = (color::byte_of(c, i), color::byte_of(fog, i));
            let a = color::byte_of(fogged(c, fog, f), i);
            let b = color::byte_of(fogged(c, fog, h), i);
            &&& x <= g ==> a <= b
            &&& g <= x ==> b <= a
        }),
{
    lemma_fog_is_a_mean(c, fog, f, i);
    lemma_fog_is_a_mean(c, fog, h, i);
    let (x, g) = (color::byte_of(c, i), color::byte_of(fog, i));
    let (m, n) = (x * (256 - f) + g * f, x * (256 - h) + g * h);
    assert(x <= g ==> m <= n) by (nonlinear_arith)
        requires
            m == x * (256 - f) + g * f,
            n == x * (256 - h) + g * h,
            f <= h,
    ;
    assert(g <= x ==> n <= m) by (nonlinear_arith)
        requires
            m == x * (256 - f) + g * f,
            n == x * (256 - h) + g * h,
            f <= h,
    ;
}

/// How much the face is shaded that a ray crossed along `axis`: the near
/// face along each axis, by the direction of the ray. Nothing for the
/// cell that the ray starts in.
pub open spec fn face_shade(side_shades: [i8; 6], axis: int, step: int) -> int {
    if axis >= 3 {
        0
    } else {
        arith::max_int(
            side_shades[axis * 2 + if step < 0 {
                1int
            } else {
                0int
            }] as int,
            0,
        )
    }
}

/// How much the face is shaded that a ray with these steps crossed along
/// `axis`.
#[must_use]
pub fn side_shade_sub(side_shades: [i8; 6], axis: usize, step: [i32; 3]) -> (r: u32)
    ensures
        axis < 3 ==> r == face_shade(side_shades, axis as int, step[axis as int] as int),
        axis >= 3 ==> r == 0,
{
    if axis >= 3 {
        return 0;
    }
    let face: usize = if step[axis] < 0 {
        axis * 2 + 1
    } else {
        axis * 2
    };
    let v: i8 = side_shades[face];
    if v > 0 {
        v as u32
    } else {
        0
    }
}

/// A face is shaded by its own entry and no other: of the two entries of
/// an axis the first is for rays that go up along it and the second for
/// rays that go down. A negative entry shades nothing.
pub proof fn lemma_faces_have_their_own_shade(side_shades: [i8; 6], axis: int, step: int)
    requires
        0 <= axis < 3,
    ensures
        ({
            let up = side_shades[2 * axis];
            let down = side_shades[2 * axis + 1];
            let r = face_shade(side_shades, axis, step);
            &&& r >= 0
            &&& step >= 0 && up >= 0 || step < 0 && down >= 0 ==> r == if step >= 0 {
                up
            } else {
                down
            }
            &&& step >= 0 && up < 0 || step < 0 && down < 0 ==> r == 0
        }),
        face_shade(side_shades, 3 + axis, step) == 0,
{
}

/// The colour that the panorama shows at `(x, y)` of a width of `xsiz`
/// and a height of `ysiz`: `x` is cut to the width, `y` goes round.
pub open spec fn sky_texel(pixels: Seq<i32>, xsiz: int, ysiz: int, x: int, y: int) -> u32 {
    let column = arith::min_int(arith::max_int(x, 0), xsiz - 1);
    let row = if ysiz <= 1 {
        0
    } else {
        y % ysiz
    };
    let i = row * xsiz + column;
    let p = if i < pixels.len() {
        pixels[i] as u32
    } else {
        0
    };
    color::packed(color::byte_of(p, 0), color::byte_of(p, 1), color::byte_of(p, 2), 0x80)
}

/// The colour that the panorama shows at `(x, y)`.
#[must_use]
pub fn sky_color(sky: &Sky, x: i32, y: i32) -> (r: u32)
    requires
        sky.lat@.len() <= i32::MAX,
        sky.ysiz > 1 ==> sky.ysiz * sky.lat@.len() <= i32::MAX,
    ensures
        r == sky_texel(
            sky.pixels@,
            arith::max_int(sky.lat@.len() as int, 1),
            sky.ysiz as int,
            x as int,
            y as int,
        ),
{
    let n: usize = sky.lat.len();
    let xsiz: i32 = if n == 0 {
        1
    } else {
        n as i32
    };
    let column: i32 = if x < 0 {
        0
    } else if x > xsiz - 1 {
        xsiz - 1
    } else {
        x
    };
    let row: i32 = if sky.ysiz <= 1 {
        0
    } else {
        match y.checked_rem_euclid(sky.ysiz) {
            Some(m) => m,
            None => 0,
        }
    };
    proof {
        if sky.ysiz > 1 {
            assert(0 <= row < sky.ysiz);
            assert(0 <= row * xsiz && row * xsiz + xsiz <= sky.ysiz * xsiz) by (nonlinear_arith)
                requires
                    0 <= row < sky.ysiz,
                    xsiz >= 1,
            ;
            assert(n == 0 ==> sky.ysiz * xsiz <= i32::MAX) by {
                assert(sky.ysiz * 1 == sky.ysiz);
            }
        }
    }
    let i: usize = (row * xsiz + column) as usize;
    let p: u32 = if i < sky.pixels.len() {
        sky.pixels[i] as u32
    } else {
        0
    };
    let b: [u32; 4] = bytes_of(p);
    assert(b[0] < 0x100 && b[1] < 0x100 && b[2] < 0x100);
    pack([b[0], b[1], b[2], 0x80])
}

/// The panorama goes round: rows that are a whole turn apart are the same.
/// Past its left or right edge it shows the edge.
pub proof fn lemma_panorama_goes_round(pixels: Seq<i32>, xsiz: int, ysiz: int, x: int, y: int)
    requires
        xsiz >= 1,
    ensures
        ysiz > 1 ==> sky_texel(pixels, xsiz, ysiz, x, y + ysiz) == sky_texel(
            pixels,
            xsiz,
            ysiz,
            x,
            y,
        ),
        x <= 0 ==> sky_texel(pixels, xsiz, ysiz, x, y) == sky_texel(pixels, xsiz, ysiz, 0, y),
        x >= xsiz - 1 ==> sky_texel(pixels, xsiz, ysiz, x, y) == sky_texel(
            pixels,
            xsiz,
            ysiz,
            xsiz - 1,
            y,
        ),
        ysiz <= 1 ==> sky_texel(pixels, xsiz, ysiz, x, y) == sky_texel(pixels, xsiz, ysiz, x, 0),
{
    if ysiz > 1 {
        vstd::arithmetic::div_mod::lemma_mod_add_multiples_vanish(y, ysiz);
    }
}

/// Inside the panorama every position shows its own texel at full
/// brightness, the rows one after the other; a texel that is not there is
/// black.
pub proof fn lemma_panorama_shows_texels(pixels: Seq<i32>, xsiz: int, ysiz: int, x: int, y: int)
    requires
        0 <= x < xsiz,
        0 <= y < arith::max_int(ysiz, 1),
    ensures
        ({
            let p = sky_texel(pixels, xsiz, ysiz, x, y);
            let i = y * xsiz + x;
            &&& color::byte_of(p, 3) == 0x80
            &&& i < pixels.len() ==> forall|k: int|
                0 <= k < 3 ==> #[trigger] color::byte_of(p, k) == color::byte_of(
                    pixels[i] as u32,
                    k,
                )
            &&& i >= pixels.len() ==> p == 0x8000_0000
        }),
{
    if ysiz > 1 {
        vstd::arithmetic::div_mod::lemma_small_mod(y as nat, ysiz as nat);
    }
    assert(0 * xsiz == 0);
    let i = y * xsiz + x;
    assert(i >= 0) by (nonlinear_arith)
        requires
            i == y * xsiz + x,
            y >= 0,
            xsiz >= 0,
            x >= 0,
    ;
    let q = if i < pixels.len() {
        pixels[i] as u32
    } else {
        0
    };
    color::lemma_bytes_of_packed(
        color::byte_of(q, 0),
        color::byte_of(q, 1),
        color::byte_of(q, 2),
        0x80,
    );
}

/// Bands of rows from `y0` on: each begins where the one before it ends.
pub open spec fn bands_from(bands: Seq<(u32, u32)>, y0: u32) -> bool {
    &&& bands.len() > 0 ==> bands[0].0 == y0
    &&& forall|i: int| 0 <= i < bands.len() ==> (#[trigger] bands[i]).0 < bands[i].1
    &&& forall|i: int, j: int|
        0 <= i < bands.len() - 1 && j == i + 1 ==> (#[trigger] bands[i]).1 == (#[trigger]
        bands[j]).0
}

/// Shares the rows from `y0` to `y1` out to `workers` workers, in bands of
/// as many rows as one worker's share, rounded up.
#[must_use]
pub fn row_bands(y0: u32, y1: u32, workers: usize) -> (r: Vec<(u32, u32)>)
    ensures
        bands_from(r@, y0),
        y0 >= y1 ==> r@.len() == 0,
        y0 < y1 ==> r@.len() > 0 && r@.last().1 == y1,
        forall|i: int|
            0 <= i < r@.len() - 1 ==> (#[trigger] r@[i]).1 - r@[i].0 == band_height(
                y1 - y0,
                workers as int,
            ),
        forall|i: int|
            0 <= i < r@.len() ==> (#[trigger] r@[i]).1 - r@[i].0 <= band_height(
                y1 - y0,
                workers as int,
            ),
{
    let mut bands: Vec<(u32, u32)> = Vec::new();
    if y1 <= y0 {
        return bands;
    }
    let rows: u32 = y1 - y0;
    let w: u64 = if workers == 0 {
        1
    } else {
        workers as u64
    };
    let share: u32 = if w >= rows as u64 {
        1
    } else {
        proof {
            lemma_share_fits(rows as int, w as int);
        }
        ((rows as u64 + w - 1) / w) as u32
    };
    proof {
        if w >= rows as u64 {
            vstd::arithmetic::div_mod::lemma_fundamental_div_mod_converse(
                rows + w - 1,
                w as int,
                1,
                rows - 1,
            );
        }
    }
    let mut y: u32 = y0;
    while y < y1
        invariant
            y0 <= y <= y1,
            y0 < y1,
            1 <= share,
            share == band_height(y1 - y0, workers as int),
            bands_from(bands@, y0),
            bands@.len() == 0 ==> y == y0,
            bands@.len() > 0 ==> bands@.last().1 == y,
            y < y1 ==> forall|i: int|
                0 <= i < bands@.len() ==> (#[trigger] bands@[i]).1 - bands@[i].0 == share,
            forall|i: int|
                0 <= i < bands@.len() - 1 ==> (#[trigger] bands@[i]).1 - bands@[i].0 == share,
            forall|i: int|
                0 <= i < bands@.len() ==> (#[trigger] bands@[i]).1 - bands@[i].0 <= share,
        decreases y1 - y,
    {
        let end: u32 = if y1 - y <= share {
            y1
        } else {
            y + share
        };
        bands.push((y, end));
        y = end;
    }
    bands
}

/// Number of rows in a band when `rows` rows go to `workers` workers.
pub open spec fn band_height(rows: int, workers: int) -> int {
    let w = arith::max_int(workers, 1);
    arith::max_int((rows + w - 1) / w, 1)
}

/// A band is as high as it must be for the workers to get all rows, and
/// no higher.
pub proof fn lemma_bands_are_shares(rows: int, workers: int)
    requires
        rows >= 1,
    ensures
        ({
            let w = arith::max_int(workers, 1);
            let h = band_height(rows, workers);
            &&& h * w >= rows
            &&& (h - 1) * w < rows
        }),
{
    let w = arith::max_int(workers, 1);
    let q = (rows + w - 1) / w;
    vstd::arithmetic::div_mod::lemma_fundamental_div_mod(rows + w - 1, w);
    let m = (rows + w - 1) % w;
    assert(q >= 1 && q * w >= rows && (q - 1) * w < rows) by (nonlinear_arith)
        requires
            rows + w - 1 == w * q + m,
            0 <= m < w,
            rows >= 1,
            w >= 1,
    ;
}

proof fn lemma_share_fits(rows: int, w: int)
    requires
        1 <= w < rows,
    ensures
        1 <= (rows + w - 1) / w <= rows,
{
    let q = (rows + w - 1) / w;
    vstd::arithmetic::div_mod::lemma_fundamental_div_mod(rows + w - 1, w);
    assert(1 <= q <= rows) by (nonlinear_arith)
        requires
            rows + w - 1 == w * q + (rows + w - 1) % w,
            0 <= (rows + w - 1) % w < w,
            1 <= w < rows,
    ;
}

/// Every row from the first to the last lies in one band and no other.
pub proof fn lemma_bands_share_rows(bands: Seq<(u32, u32)>, y0: u32, row: u32) -> (i: int)
    requires
        bands.len() > 0,
        bands_from(bands, y0),
        y0 <= row < bands.last().1,
    ensures
        0 <= i < bands.len(),
        bands[i].0 <= row < bands[i].1,
        forall|j: int| 0 <= j < bands.len() && (#[trigger] bands[j]).0 <= row < bands[j].1 ==> j
            == i,
    decreases bands.len(),
{
    let n = bands.len() - 1;
    let i = if bands[n].0 <= row {
        n
    } else {
        let rest = bands.drop_last();
        assert(n > 0);
        assert(rest.last() == bands[n - 1]);
        assert(bands[n - 1].1 == bands[n].0);
        assert(bands_from(rest, y0));
        let k = lemma_bands_share_rows(rest, y0, row);
        assert(rest[k] == bands[k]);
        k
    };
    assert forall|j: int| 0 <= j < bands.len() && (#[trigger] bands[j]).0 <= row < bands[j].1 implies j
        == i by {
        if j < i {
            lemma_bands_rise(bands, y0, j, i);
        } else if i < j {
            lemma_bands_rise(bands, y0, i, j);
        }
    }
    i
}

proof fn lemma_bands_rise(bands: Seq<(u32, u32)>, y0: u32, i: int, j: int)
    requires
        bands_from(bands, y0),
        0 <= i < j < bands.len(),
    ensures
        bands[i].1 <= bands[j].0,
    decreases j - i,
{
    assert(bands[j - 1].1 == bands[j].0);
    if i < j - 1 {
        lemma_bands_rise(bands, y0, i, j - 1);
        assert(bands[j - 1].0 < bands[j - 1].1);
    }
}

} // verus!
