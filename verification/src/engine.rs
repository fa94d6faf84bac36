//! The settings of the engine, and the frame that shows the sky alone.
use crate::arith;
use crate::sky::Sky;
use vstd::prelude::*;

verus! {

/// Material colour of sprites, unless another is set: a middle grey.
pub const DEFAULT_KV6COL: u32 = 0x0080_8080;

/// The settings of the engine, for a camera `C` and lights `L`.
#[derive(Debug, Clone)]
pub struct Engine<C, L> {
    pub camera: C,
    pub sky_color: u32,
    pub fog_color: u32,
    /// Distance at which fog hides everything; zero for no fog.
    pub fog_max_scan_dist: i32,
    /// How much each side of a voxel is darkened: top, bottom, left,
    /// right, up and down.
    pub side_shades: [i8; 6],
    /// Material colour of sprites.
    pub kv6col: u32,
    pub lightmode: u32,
    pub lights: Vec<L>,
    /// The sky's texture, if it has one.
    pub sky: Option<Sky>,
}

/// Whether position `i` of a screen with rows of `stride` pixels lies in
/// its first `h` rows and `w` columns.
pub open spec fn is_shown(i: int, stride: int, w: int, h: int) -> bool {
    stride > 0 && i / stride < h && i % stride < w
}

impl<C: Copy, L> Engine<C, L> {
    /// An engine with a blue sky, no fog, no shading and no lights.
    #[must_use]
    pub fn new(camera: C) -> (e: Engine<C, L>)
        ensures
            e.camera == camera,
            e.sky_color == 0x8087_ceebu32,
            e.fog_color == 0,
            e.fog_max_scan_dist == 0,
            forall|k: int| 0 <= k < 6 ==> #[trigger] e.side_shades[k] == 0,
            e.kv6col == DEFAULT_KV6COL,
            e.lightmode == 0,
            e.lights@.len() == 0,
            e.sky is None,
    {
        Engine {
            camera,
            sky_color: 0x8087_ceeb,
            fog_color: 0,
            fog_max_scan_dist: 0,
            side_shades: [0, 0, 0, 0, 0, 0],
            kv6col: DEFAULT_KV6COL,
            lightmode: 0,
            lights: Vec::new(),
            sky: None,
        }
    }

    /// Sets the camera.
    pub fn set_camera(&mut self, camera: C)
        ensures
            *final(self) == (Engine { camera, ..*old(self) }),
    {
        self.camera = camera;
    }

    /// The camera.
    #[must_use]
    pub fn camera(&self) -> (r: C)
        ensures
            r == self.camera,
    {
        self.camera
    }

    /// Sets the colour of the sky.
    pub fn set_sky_color(&mut self, color: u32)
        ensures
            *final(self) == (Engine { sky_color: color, ..*old(self) }),
    {
        self.sky_color = color;
    }

    /// The colour of the sky.
    #[must_use]
    pub fn sky_color(&self) -> (r: u32)
        ensures
            r == self.sky_color,
    {
        self.sky_color
    }

    /// Sets the fog. A negative distance counts as zero.
    pub fn set_fog(&mut self, color: u32, max_scan_dist: i32)
        ensures
            *final(self) == (Engine {
                fog_color: color,
                fog_max_scan_dist: arith::max_int(max_scan_dist as int, 0) as i32,
                ..*old(self)
            }),
    {
        self.fog_color = color;
        self.fog_max_scan_dist = if max_scan_dist > 0 {
            max_scan_dist
        } else {
            0
        };
    }

    /// The colour of the fog.
    #[must_use]
    pub fn fog_color(&self) -> (r: u32)
        ensures
            r == self.fog_color,
    {
        self.fog_color
    }

    /// Distance at which fog hides everything; zero for no fog.
    #[must_use]
    pub fn fog_max_scan_dist(&self) -> (r: i32)
        ensures
            r == self.fog_max_scan_dist,
    {
        self.fog_max_scan_dist
    }

    /// Sets how much each side of a voxel is darkened.
    pub fn set_side_shades(&mut self, top: i8, bot: i8, left: i8, right: i8, up: i8, down: i8)
        ensures
            final(self).side_shades@ == seq![top, bot, left, right, up, down],
            *final(self) == (Engine { side_shades: final(self).side_shades, ..*old(self) }),
    {
        self.side_shades = [top, bot, left, right, up, down];
    }

    /// How much each side of a voxel is darkened.
    #[must_use]
    pub fn side_shades(&self) -> (r: [i8; 6])
        ensures
            r == self.side_shades,
    {
        self.side_shades
    }

    /// Sets the material colour of sprites.
    pub fn set_kv6col(&mut self, color: u32)
        ensures
            *final(self) == (Engine { kv6col: color, ..*old(self) }),
    {
        self.kv6col = color;
    }

    /// The material colour of sprites.
    #[must_use]
    pub fn kv6col(&self) -> (r: u32)
        ensures
            r == self.kv6col,
    {
        self.kv6col
    }

    /// Sets how sprites are lit.
    pub fn set_lightmode(&mut self, mode: u32)
        ensures
            *final(self) == (Engine { lightmode: mode, ..*old(self) }),
    {
        self.lightmode = mode;
    }

    /// How sprites are lit.
    #[must_use]
    pub fn lightmode(&self) -> (r: u32)
        ensures
            r == self.lightmode,
    {
        self.lightmode
    }

    /// Adds a light.
    pub fn add_light(&mut self, light: L)
        ensures
            final(self).lights@ == old(self).lights@.push(light),
            *final(self) == (Engine { lights: final(self).lights, ..*old(self) }),
    {
        self.lights.push(light);
    }

    /// Takes all lights away.
    pub fn clear_lights(&mut self)
        ensures
            final(self).lights@.len() == 0,
            *final(self) == (Engine { lights: final(self).lights, ..*old(self) }),
    {
        self.lights.clear();
    }

    /// The lights, in the order in which they were added.
    #[must_use]
    pub fn lights(&self) -> (r: &[L])
        ensures
            r@ == self.lights@,
    {
        self.lights.as_slice()
    }

    /// Sets the sky's texture.
    pub fn set_sky(&mut self, sky: Option<Sky>)
        ensures
            *final(self) == (Engine { sky, ..*old(self) }),
    {
        self.sky = sky;
    }

    /// The sky's texture.
    #[must_use]
    pub fn sky(&self) -> (r: Option<&Sky>)
        ensures
            match r {
                Some(s) => self.sky == Some(*s),
                None => self.sky is None,
            },
    {
        match &self.sky {
            Some(s) => Some(s),
            None => None,
        }
    }

    /// Draws a frame of sky: the first `width` pixels of each of the first
    /// `height` rows take the colour of the sky, the others stay.
    pub fn render(&mut self, pixels: &mut [u32], width: u32, height: u32, pitch_pixels: u32)
        requires
            width <= pitch_pixels,
            height * pitch_pixels <= old(pixels)@.len(),
        ensures
            *final(self) == *old(self),
            final(pixels)@.len() == old(pixels)@.len(),
            forall|i: int|
                0 <= i < old(pixels)@.len() ==> #[trigger] final(pixels)@[i] == if is_shown(
                    i,
                    pitch_pixels as int,
                    width as int,
                    height as int,
                ) {
                    old(self).sky_color
                } else {
                    old(pixels)@[i]
                },
    {
        let total: usize = pixels.len();
        let w: usize = width as usize;
        let h: usize = height as usize;
        let stride: usize = pitch_pixels as usize;
        let ghost before = pixels@;
        let ghost d = pitch_pixels as int;
        let mut y: usize = 0;
        while y < h
            invariant
                w == width,
                h == height,
                stride == pitch_pixels,
                d == stride,
                w <= stride,
                h * stride <= total,
                total == before.len(),
                pixels@.len() == total,
                y <= h,
                forall|i: int|
                    0 <= i < total ==> #[trigger] pixels@[i] == if is_shown(
                        i,
                        d,
                        w as int,
                        y as int,
                    ) {
                        self.sky_color
                    } else {
                        before[i]
                    },
            decreases h - y,
        {
            let ghost above = pixels@;
            proof {
                assert(y * stride + stride <= h * stride && 0 <= y * stride) by (nonlinear_arith)
                    requires
                        y + 1 <= h,
                        0 <= y,
                        0 <= stride,
                ;
            }
            let row: usize = y * stride;
            let mut x: usize = 0;
            while x < w
                invariant
                    w <= stride,
                    d == stride,
                    row == y * stride,
                    row + stride <= total,
                    pixels@.len() == total,
                    above.len() == total,
                    x <= w,
                    forall|i: int|
                        0 <= i < total ==> #[trigger] pixels@[i] == if row <= i < row + x {
                            self.sky_color
                        } else {
                            above[i]
                        },
                decreases w - x,
            {
                pixels[row + x] = self.sky_color;
                x += 1;
            }
            proof {
                assert forall|i: int| 0 <= i < total implies #[trigger] pixels@[i] == if is_shown(
                    i,
                    d,
                    w as int,
                    y + 1,
                ) {
                    self.sky_color
                } else {
                    before[i]
                } by {
                    if d > 0 {
                        lemma_row_of(i, d, y as int);
                    }
                }
            }
            y += 1;
        }
        proof {
            assert forall|i: int| 0 <= i < total implies !is_shown(i, d, w as int, 0) by {
                if d > 0 {
                    assert(i / d >= 0) by (nonlinear_arith)
                        requires
                            i >= 0,
                            d > 0,
                    ;
                }
            }
        }
    }
}

/// Which row and column a position lies in.
proof fn lemma_row_of(i: int, d: int, y: int)
    requires
        d > 0,
    ensures
        i / d == y <==> y * d <= i < y * d + d,
        i / d == y ==> i % d == i - y * d,
{
    vstd::arithmetic::div_mod::lemma_fundamental_div_mod(i, d);
    let q = i / d;
    assert(d * q == q * d) by (nonlinear_arith);
    if y * d <= i < y * d + d {
        assert(y * d == d * y) by (nonlinear_arith);
        vstd::arithmetic::div_mod::lemma_fundamental_div_mod_converse(i, d, y, i - y * d);
    }
}

/// Pixel `x` of row `y` of a screen is shown where its column and its row
/// are.
pub proof fn lemma_shown_by_row_and_column(x: int, y: int, stride: int, w: int, h: int)
    requires
        0 <= x < stride,
    ensures
        is_shown(y * stride + x, stride, w, h) <==> x < w && y < h,
{
    vstd::arithmetic::div_mod::lemma_fundamental_div_mod_converse(y * stride + x, stride, y, x);
}

} // verus!
