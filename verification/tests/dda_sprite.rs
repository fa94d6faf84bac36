//! Sprites drawn by one ray per pixel. Rays and blending are kept here; which
//! voxels count is the library's.
use roxlap_core::dda::shade;
use roxlap_core::dda::walk::CellWalk;
use roxlap_core::dda_sprite::{
    is_decodable, ClipFlipbook, Hop, SpanState, SpriteDense, SpritePass, Visit,
};
use roxlap_core::kv6::{Kv6, Voxel};
use roxlap_core::voxel_clip::{DecodedClip, VoxelFrame};

type OpticastSettings = roxlap_core::opticast::OpticastSettings<f32>;

const NEAR_Z: f32 = 1.0;

const SPRITE_FLAG_INVISIBLE: u32 = 4;

const SPRITE_FLAG_NO_Z: u32 = 8;

#[derive(Clone, Copy)]
struct Camera {
    pos: [f64; 3],
    right: [f64; 3],
    down: [f64; 3],
    forward: [f64; 3],
}

#[derive(Clone, Copy)]
struct CameraState {
    pos: [f32; 3],
    right: [f32; 3],
    down: [f32; 3],
    forward: [f32; 3],
    corn: [[f32; 3]; 4],
}

fn camera_state(camera: &Camera, xres: u32, yres: u32, hx: f32, hy: f32, hz: f32) -> CameraState {
    let pos = camera.pos.map(|v| v as f32);
    let right = camera.right.map(|v| v as f32);
    let down = camera.down.map(|v| v as f32);
    let forward = camera.forward.map(|v| v as f32);
    let ray = |sx: f32, sy: f32| {
        [
            sx * right[0] + sy * down[0] + hz * forward[0],
            sx * right[1] + sy * down[1] + hz * forward[1],
            sx * right[2] + sy * down[2] + hz * forward[2],
        ]
    };
    let (w, h) = (xres as f32, yres as f32);
    let corn = [
        ray(-hx, -hy),
        ray(w - hx, -hy),
        ray(w - hx, h - hy),
        ray(-hx, h - hy),
    ];
    CameraState {
        pos,
        right,
        down,
        forward,
        corn,
    }
}

#[derive(Debug, Clone, Copy, PartialEq, Eq)]
enum BlendMode {
    Opaque,

    AlphaBlend,

    Additive,

    Volumetric,
}

#[derive(Debug, Clone, Copy, PartialEq, Eq)]
struct Material {
    mode: BlendMode,
    alpha: u8,
}

impl Material {
    const OPAQUE: Self = Self {
        mode: BlendMode::Opaque,
        alpha: 255,
    };

    fn alpha_blend(alpha: u8) -> Self {
        Self {
            mode: BlendMode::AlphaBlend,
            alpha,
        }
    }

    fn additive(alpha: u8) -> Self {
        Self {
            mode: BlendMode::Additive,
            alpha,
        }
    }

    fn volumetric(alpha: u8) -> Self {
        Self {
            mode: BlendMode::Volumetric,
            alpha,
        }
    }

    fn is_opaque(self) -> bool {
        self.mode == BlendMode::Opaque
    }
}

#[derive(Debug, Clone)]
struct MaterialTable {
    entries: Vec<Material>,
}

impl Default for MaterialTable {
    fn default() -> Self {
        Self {
            entries: vec![Material::OPAQUE; 256],
        }
    }
}

impl MaterialTable {
    fn get(&self, id: u8) -> Material {
        self.entries[usize::from(id)]
    }

    fn set(&mut self, id: u8, material: Material) {
        if id != 0 {
            self.entries[usize::from(id)] = material;
        }
    }
}

fn rgb_to_f32(c: u32) -> [f32; 3] {
    [
        ((c >> 16) & 0xff) as f32 / 255.0,
        ((c >> 8) & 0xff) as f32 / 255.0,
        (c & 0xff) as f32 / 255.0,
    ]
}

fn f32_to_rgb(c: [f32; 3]) -> u32 {
    let q = |v: f32| (v.clamp(0.0, 1.0) * 255.0 + 0.5) as u32;
    0x8000_0000 | (q(c[0]) << 16) | (q(c[1]) << 8) | q(c[2])
}

fn composite_over(accum: [f32; 3], trans: f32, bg: u32) -> u32 {
    let b = rgb_to_f32(bg);
    f32_to_rgb([
        accum[0] + trans * b[0],
        accum[1] + trans * b[1],
        accum[2] + trans * b[2],
    ])
}

fn pixel_ray(
    cs: &CameraState,
    settings: &OpticastSettings,
    px: u32,
    py: u32,
) -> ([f32; 3], [f32; 3]) {
    let sx = px as f32 - settings.hx;
    let sy = py as f32 - settings.hy;
    let dir = [
        sx * cs.right[0] + sy * cs.down[0] + settings.hz * cs.forward[0],
        sx * cs.right[1] + sy * cs.down[1] + settings.hz * cs.forward[1],
        sx * cs.right[2] + sy * cs.down[2] + settings.hz * cs.forward[2],
    ];
    (cs.pos, dir)
}

fn intersect_aabb(
    o: [f32; 3],
    dir: [f32; 3],
    lo: [f32; 3],
    hi: [f32; 3],
) -> Option<(f32, f32)> {
    let mut t0 = 0.0f32;
    let mut t1 = f32::INFINITY;
    for a in 0..3 {
        if dir[a].abs() < 1e-9 {
            if o[a] < lo[a] || o[a] > hi[a] {
                return None;
            }
        } else {
            let inv = 1.0 / dir[a];
            let mut ta = (lo[a] - o[a]) * inv;
            let mut tb = (hi[a] - o[a]) * inv;
            if ta > tb {
                core::mem::swap(&mut ta, &mut tb);
            }
            t0 = t0.max(ta);
            t1 = t1.min(tb);
            if t0 > t1 {
                return None;
            }
        }
    }
    Some((t0, t1))
}

fn steps_of(dir: [f32; 3]) -> [i32; 3] {
    dir.map(|d| {
        if d > 1e-9 {
            1
        } else if d < -1e-9 {
            -1
        } else {
            0
        }
    })
}

fn dda_setup(
    origin: [f32; 3],
    dir: [f32; 3],
    cell: [i32; 3],
    cell_size: f32,
) -> ([f32; 3], [f32; 3]) {
    let step = steps_of(dir);
    let mut t_max = [f32::INFINITY; 3];
    let mut t_delta = [f32::INFINITY; 3];
    for a in 0..3 {
        if step[a] > 0 {
            let boundary = (cell[a] + 1) as f32 * cell_size;
            t_max[a] = (boundary - origin[a]) / dir[a];
            t_delta[a] = cell_size / dir[a];
        } else if step[a] < 0 {
            let boundary = cell[a] as f32 * cell_size;
            t_max[a] = (boundary - origin[a]) / dir[a];
            t_delta[a] = -cell_size / dir[a];
        }
    }
    (t_max, t_delta)
}

fn min_axis(t_max: [f32; 3]) -> usize {
    if t_max[0] <= t_max[1] && t_max[0] <= t_max[2] {
        0
    } else if t_max[1] <= t_max[2] {
        1
    } else {
        2
    }
}

fn cell_at(origin: [f32; 3], dir: [f32; 3], t: f32, cell_size: f32) -> [i32; 3] {
    let mut c = [0i32; 3];
    for a in 0..3 {
        c[a] = ((origin[a] + dir[a] * t) / cell_size).floor() as i32;
    }
    c
}

#[derive(Clone, Copy)]
struct SpriteShade<'a> {
    materials: &'a MaterialTable,

    material: u8,
    alpha_mul: u8,
}

struct Frame<'a> {
    fb: &'a mut [u32],
    zb: &'a mut [f32],
    pitch_pixels: usize,
    width: u32,
    height: u32,
}

fn invert_basis(s: [f32; 3], h: [f32; 3], f: [f32; 3]) -> Option<[[f32; 3]; 3]> {
    let det = s[0] * (h[1] * f[2] - f[1] * h[2]) - h[0] * (s[1] * f[2] - f[1] * s[2])
        + f[0] * (s[1] * h[2] - h[1] * s[2]);
    if det.abs() < 1e-12 {
        return None;
    }
    let inv = 1.0 / det;
    Some([
        [
            (h[1] * f[2] - f[1] * h[2]) * inv,
            -(h[0] * f[2] - f[0] * h[2]) * inv,
            (h[0] * f[1] - f[0] * h[1]) * inv,
        ],
        [
            -(s[1] * f[2] - f[1] * s[2]) * inv,
            (s[0] * f[2] - f[0] * s[2]) * inv,
            -(s[0] * f[1] - f[0] * s[1]) * inv,
        ],
        [
            (s[1] * h[2] - h[1] * s[2]) * inv,
            -(s[0] * h[2] - h[0] * s[2]) * inv,
            (s[0] * h[1] - h[0] * s[1]) * inv,
        ],
    ])
}

fn mat_apply(m: &[[f32; 3]; 3], v: [f32; 3]) -> [f32; 3] {
    [
        m[0][0] * v[0] + m[0][1] * v[1] + m[0][2] * v[2],
        m[1][0] * v[0] + m[1][1] * v[1] + m[1][2] * v[2],
        m[2][0] * v[0] + m[2][1] * v[1] + m[2][2] * v[2],
    ]
}

struct LocalRay {
    walk: CellWalk,
    t_max: [f32; 3],
    t_delta: [f32; 3],
    t_curr: f32,
    t_end: f32,
}

impl LocalRay {
    fn enter(dense: &SpriteDense, origin: [f32; 3], dir: [f32; 3]) -> Option<Self> {
        let hi = dense.dims.map(|d| d as f32);
        let (t0, t1) = intersect_aabb(origin, dir, [0.0; 3], hi)?;
        let walk = dense.enter(steps_of(dir), cell_at(origin, dir, t0 + 1e-4, 1.0));
        let (t_max, t_delta) = dda_setup(origin, dir, walk.cell, 1.0);
        Some(Self {
            walk,
            t_max,
            t_delta,
            t_curr: t0,
            t_end: t1,
        })
    }

    fn hop(&self, dense: &SpriteDense) -> Hop {
        dense.hop(&self.walk, self.t_curr > self.t_end)
    }

    fn advance(&mut self) {
        let axis = min_axis(self.t_max);
        self.t_curr = self.t_max[axis];
        self.walk.advance(axis);
        self.t_max[axis] += self.t_delta[axis];
    }
}

fn cast_local(
    dense: &SpriteDense,
    origin: [f32; 3],
    dir: [f32; 3],
) -> Option<(u32, f32, [f32; 3], [i32; 3])> {
    let mut ray = LocalRay::enter(dense, origin, dir)?;
    for _ in 0..dense.max_steps() {
        match ray.hop(dense) {
            Hop::Leave => return None,
            Hop::Hit(color) => {
                let normal = ray.walk.face().map(|v| v as f32);
                return Some((color, ray.t_curr, normal, ray.walk.cell));
            }
            Hop::Air => ray.advance(),
        }
    }
    None
}

struct LayerAccum {
    rgb: [f32; 3],
    trans: f32,
    opaque: Option<(u32, f32)>,
}

fn lay(acc: &mut LayerAccum, color: u32, a: f32) {
    let lit = rgb_to_f32(shade(color, 0));
    for k in 0..3 {
        acc.rgb[k] += acc.trans * a * lit[k];
    }
}

fn cast_local_layers(
    dense: &SpriteDense,
    origin: [f32; 3],
    dir: [f32; 3],
    fwd_dot: f32,
    max_t: f32,
    ctx: SpriteShade<'_>,
) -> Option<LayerAccum> {
    let mut ray = LocalRay::enter(dense, origin, dir)?;
    let mut acc = LayerAccum {
        rgb: [0.0; 3],
        trans: 1.0,
        opaque: None,
    };
    let mut touched = false;
    let mut span = SpanState::new();
    let dir_len = (dir[0] * dir[0] + dir[1] * dir[1] + dir[2] * dir[2]).sqrt();
    for _ in 0..dense.max_steps() {
        let depth = ray.t_curr * fwd_dot;
        let hop = ray.hop(dense);
        if hop == Hop::Leave || depth >= max_t {
            break;
        }
        let t_exit = ray.t_max[min_axis(ray.t_max)];
        let idx = dense.idx_of(ray.walk.cell);
        let id = dense.material_at(idx, ctx.material);
        let m = ctx.materials.get(id);
        let a = f32::from(m.alpha) / 255.0 * (f32::from(ctx.alpha_mul) / 255.0);
        let solid = hop != Hop::Air;
        let volumetric = m.mode == BlendMode::Volumetric;
        match span.visit(solid, depth >= NEAR_Z, m.is_opaque(), volumetric, id) {
            Visit::Pass => {}
            Visit::Stop => {
                acc.opaque = Some((shade(dense.col[idx], 0), ray.t_curr));
                touched = true;
                break;
            }
            Visit::Volume => {
                let seg_len = (t_exit - ray.t_curr).max(0.0) * dir_len;
                let eff_a = 1.0 - (1.0 - a).powf(seg_len);
                lay(&mut acc, dense.col[idx], eff_a);
                acc.trans *= 1.0 - eff_a;
                touched = true;
            }
            Visit::Layer => {
                lay(&mut acc, dense.col[idx], a);
                if m.mode == BlendMode::AlphaBlend {
                    acc.trans *= 1.0 - a;
                }
                touched = true;
            }
        }
        if acc.trans < 1.0 / 256.0 {
            break;
        }
        ray.advance();
    }
    touched.then_some(acc)
}

#[derive(Clone, Copy)]
struct Place {
    pivot: [f32; 3],
    pos: [f32; 3],
    s: [f32; 3],
    h: [f32; 3],
    f: [f32; 3],
}

fn draw(
    frame: &mut Frame<'_>,
    cam: &CameraState,
    settings: &OpticastSettings,
    dense: &SpriteDense,
    place: &Place,
    flags: u32,
    shade_ctx: Option<SpriteShade<'_>>,
) -> u32 {
    let uniform_opaque = shade_ctx.map_or(true, |c| c.materials.get(c.material).is_opaque());
    let pass = dense.sprite_pass(
        flags & SPRITE_FLAG_INVISIBLE != 0,
        shade_ctx.is_some(),
        uniform_opaque,
    );
    if pass == SpritePass::Nothing {
        return 0;
    }
    let Some(minv) = invert_basis(place.s, place.h, place.f) else {
        return 0;
    };
    let Some(rect) = project_screen_rect(dense, place, cam, settings, frame.width, frame.height)
    else {
        return 0;
    };
    let no_z = flags & SPRITE_FLAG_NO_Z != 0;
    let mut written = 0u32;
    for py in rect.1..rect.3 {
        for px in rect.0..rect.2 {
            let idx = py as usize * frame.pitch_pixels + px as usize;
            let (origin, dir) = pixel_ray(cam, settings, px, py);
            let rel = [0, 1, 2].map(|a: usize| origin[a] - place.pos[a]);
            let ol = mat_apply(&minv, rel);
            let origin_local = [0, 1, 2].map(|a: usize| ol[a] + place.pivot[a]);
            let dir_local = mat_apply(&minv, dir);
            let fwd_dot =
                dir[0] * cam.forward[0] + dir[1] * cam.forward[1] + dir[2] * cam.forward[2];
            let drawn = match (pass, shade_ctx) {
                (SpritePass::Layers, Some(ctx)) => {
                    if fwd_dot <= 1e-6 {
                        continue;
                    }
                    let max_t = if no_z { f32::INFINITY } else { frame.zb[idx] };
                    cast_local_layers(dense, origin_local, dir_local, fwd_dot, max_t, ctx).map(
                        |acc| match acc.opaque {
                            Some((bg, t)) => {
                                (composite_over(acc.rgb, acc.trans, bg), Some(t * fwd_dot))
                            }
                            None => (composite_over(acc.rgb, acc.trans, frame.fb[idx]), None),
                        },
                    )
                }
                _ => cast_local(dense, origin_local, dir_local)
                    .map(|(color, t, _, _)| (shade(color, 0), Some(t * fwd_dot)))
                    .filter(|(_, depth)| depth.map_or(false, |d| d >= NEAR_Z)),
            };
            match drawn {
                Some((color, Some(depth))) => {
                    if no_z || depth < frame.zb[idx] {
                        frame.fb[idx] = color;
                        frame.zb[idx] = depth;
                        written += 1;
                    }
                }
                Some((color, None)) => {
                    frame.fb[idx] = color;
                    written += 1;
                }
                None => {}
            }
        }
    }
    written
}

fn project_screen_rect(
    dense: &SpriteDense,
    place: &Place,
    cam: &CameraState,
    settings: &OpticastSettings,
    width: u32,
    height: u32,
) -> Option<(u32, u32, u32, u32)> {
    let size = dense.dims.map(|d| d as f32);
    let (mut x0, mut y0, mut x1, mut y1) = (f32::MAX, f32::MAX, f32::MIN, f32::MIN);
    let mut all_front = true;
    for corner in 0..8usize {
        let l = [0, 1, 2].map(|a: usize| {
            let c = if corner >> a & 1 != 0 { size[a] } else { 0.0 };
            c - place.pivot[a]
        });
        let rel = [0, 1, 2].map(|a: usize| {
            place.pos[a] + l[0] * place.s[a] + l[1] * place.h[a] + l[2] * place.f[a] - cam.pos[a]
        });
        let along = |v: [f32; 3]| rel[0] * v[0] + rel[1] * v[1] + rel[2] * v[2];
        let cz = along(cam.forward);
        if cz < NEAR_Z {
            all_front = false;
            continue;
        }
        let sx = settings.hx + along(cam.right) / cz * settings.hz;
        let sy = settings.hy + along(cam.down) / cz * settings.hz;
        x0 = x0.min(sx);
        y0 = y0.min(sy);
        x1 = x1.max(sx);
        y1 = y1.max(sy);
    }
    let (w, h) = (width as f32, height as f32);
    let (rx0, ry0, rx1, ry1) = if all_front {
        (
            (x0 - 1.0).max(0.0),
            (y0 - 1.0).max(0.0),
            (x1 + 1.0).min(w),
            (y1 + 1.0).min(h),
        )
    } else {
        (0.0, 0.0, w, h)
    };
    if rx0 >= rx1 || ry0 >= ry1 {
        return None;
    }
    Some((rx0 as u32, ry0 as u32, rx1.ceil() as u32, ry1.ceil() as u32))
}

#[derive(Clone)]
struct Sprite {
    kv6: Kv6,
    p: [f32; 3],
    s: [f32; 3],
    h: [f32; 3],
    f: [f32; 3],
    flags: u32,
}

impl Sprite {
    fn axis_aligned(kv6: Kv6, p: [f32; 3]) -> Self {
        Self {
            kv6,
            p,
            s: [1.0, 0.0, 0.0],
            h: [0.0, 1.0, 0.0],
            f: [0.0, 0.0, 1.0],
            flags: 0,
        }
    }
}

/// A sprite of the voxels of `fill`.
fn kv6_of(xsiz: u32, ysiz: u32, zsiz: u32, fill: impl Fn(u32, u32, u32) -> Option<u32>) -> Kv6 {
    let mut kv6 = Kv6 {
        xsiz,
        ysiz,
        zsiz,
        voxels: Vec::new(),
        xlen: Vec::new(),
        ylen: Vec::new(),
    };
    for x in 0..xsiz {
        let start = kv6.voxels.len();
        let mut row = Vec::new();
        for y in 0..ysiz {
            let before = kv6.voxels.len();
            for z in 0..zsiz {
                if let Some(col) = fill(x, y, z) {
                    kv6.voxels.push(Voxel {
                        col,
                        z: z as u16,
                        vis: 63,
                        dir: 0,
                    });
                }
            }
            row.push((kv6.voxels.len() - before) as u16);
        }
        kv6.xlen.push((kv6.voxels.len() - start) as u32);
        kv6.ylen.push(row);
    }
    kv6
}

fn solid_box(x: u32, y: u32, z: u32, col: u32) -> Kv6 {
    kv6_of(x, y, z, |_, _, _| Some(col))
}

fn solid_cube(n: u32, col: u32) -> Kv6 {
    solid_box(n, n, n, col)
}

fn draw_sprite_dda(
    fb: &mut [u32],
    zb: &mut [f32],
    pitch_pixels: usize,
    width: u32,
    height: u32,
    cam: &CameraState,
    settings: &OpticastSettings,
    sprite: &Sprite,
) -> u32 {
    let dense = SpriteDense::from_kv6(&sprite.kv6);
    draw_sprite_dense(
        fb,
        zb,
        pitch_pixels,
        width,
        height,
        cam,
        settings,
        &dense,
        sprite.p,
        sprite.s,
        sprite.h,
        sprite.f,
        sprite.flags,
    )
}

fn draw_sprite_dense(
    fb: &mut [u32],
    zb: &mut [f32],
    pitch_pixels: usize,
    width: u32,
    height: u32,
    cam: &CameraState,
    settings: &OpticastSettings,
    dense: &SpriteDense,
    pos: [f32; 3],
    s: [f32; 3],
    h: [f32; 3],
    f: [f32; 3],
    flags: u32,
) -> u32 {
    draw_sprite_dense_shaded(
        fb,
        zb,
        pitch_pixels,
        width,
        height,
        cam,
        settings,
        dense,
        pos,
        s,
        h,
        f,
        flags,
        None,
    )
}

/// Draws a sprite whose pivot is the middle of its box.
fn draw_sprite_dense_shaded(
    fb: &mut [u32],
    zb: &mut [f32],
    pitch_pixels: usize,
    width: u32,
    height: u32,
    cam: &CameraState,
    settings: &OpticastSettings,
    dense: &SpriteDense,
    pos: [f32; 3],
    s: [f32; 3],
    h: [f32; 3],
    f: [f32; 3],
    flags: u32,
    shade_ctx: Option<SpriteShade<'_>>,
) -> u32 {
    let mut frame = Frame {
        fb,
        zb,
        pitch_pixels,
        width,
        height,
    };
    let place = Place {
        pivot: dense.dims.map(|d| d as f32 * 0.5),
        pos,
        s,
        h,
        f,
    };
    draw(&mut frame, cam, settings, dense, &place, flags, shade_ctx)
}

fn draw_frame(
    book: &ClipFlipbook,
    fb: &mut [u32],
    zb: &mut [f32],
    pitch_pixels: usize,
    width: u32,
    height: u32,
    cam: &CameraState,
    settings: &OpticastSettings,
    frame: usize,
    pos: [f32; 3],
    s: [f32; 3],
    h: [f32; 3],
    f: [f32; 3],
    flags: u32,
) -> u32 {
    let Some(dense) = book.frame(frame) else {
        return 0;
    };
    draw_sprite_dense(
        fb,
        zb,
        pitch_pixels,
        width,
        height,
        cam,
        settings,
        dense,
        pos,
        s,
        h,
        f,
        flags,
    )
}

#[test]
fn cast_local_reports_face_normal() {
    let kv6 = kv6_of(8, 8, 8, |_, _, z| (z >= 4).then_some(0x80_C0_40_20));
    let dense = SpriteDense::from_kv6(&kv6);

    let (_c, _t, n, cell) =
        cast_local(&dense, [4.0, 4.0, -5.0], [0.0, 0.0, 1.0]).expect("ray hits the block");
    assert_eq!(cell[2], 4, "first solid voxel is the z=4 surface");
    assert!(
        n[2] < -0.5 && n[0].abs() < 1e-6 && n[1].abs() < 1e-6,
        "z-crossing face normal points back toward the ray (-z): {n:?}",
    );
}

fn settings(w: u32, h: u32) -> OpticastSettings {
    OpticastSettings::for_oracle_framebuffer(w, h, w as f32 * 0.5, h as f32 * 0.5, 1.0)
}

fn cam_looking_y() -> Camera {
    Camera {
        pos: [0.0, 0.0, 0.0],
        right: [1.0, 0.0, 0.0],
        down: [0.0, 0.0, 1.0],
        forward: [0.0, 1.0, 0.0],
    }
}

fn clip_frame(dims: [u32; 3], fill: impl Fn(u32, u32, u32) -> Option<u32>) -> VoxelFrame {
    let owpc = dims[2].div_ceil(32).max(1) as usize;
    let cols = (dims[0] * dims[1]) as usize;
    let mut occupancy = vec![0u32; cols * owpc];
    let mut color_offsets = vec![0u32; cols + 1];
    let mut colors = Vec::new();
    for y in 0..dims[1] {
        for x in 0..dims[0] {
            let col = (x + y * dims[0]) as usize;
            color_offsets[col] = colors.len() as u32;
            for z in 0..dims[2] {
                if let Some(c) = fill(x, y, z) {
                    occupancy[col * owpc + (z >> 5) as usize] |= 1u32 << (z & 31);
                    colors.push(c);
                }
            }
        }
    }
    color_offsets[cols] = colors.len() as u32;
    VoxelFrame {
        occupancy,
        colors,
        color_offsets,
    }
}

#[test]
fn clip_flipbook_frames_render_differently() {
    let dims = [8u32, 8, 8];
    let f0 = clip_frame(dims, |_x, _y, z| (z < 4).then_some(0x00FF_0000));
    let f1 = clip_frame(dims, |_x, _y, z| (z >= 4).then_some(0x0000_FF00));
    let decoded = DecodedClip {
        dims,
        frames: vec![f0, f1],
    };
    let book = ClipFlipbook::from_decoded(&decoded);
    assert_eq!(book.frame_count(), 2);
    assert!(book.frame(0).is_some() && book.frame(2).is_none());

    let (w, h) = (64u32, 64u32);
    let n = (w * h) as usize;
    let cam = cam_looking_y();
    let cs = camera_state(&cam, w, h, 32.0, 32.0, 32.0);
    let cfg = settings(w, h);
    let pose = [0.0, 40.0, 0.0];
    let (s, hh, f) = ([1.0, 0.0, 0.0], [0.0, 1.0, 0.0], [0.0, 0.0, 1.0]);

    let render = |frame: usize| -> Vec<u32> {
        let mut fb = vec![0u32; n];
        let mut zb = vec![f32::INFINITY; n];
        let wrote = draw_frame(&book, &mut fb, &mut zb, w as usize, w, h, &cs, &cfg, frame, pose, s, hh, f, 0,
        );
        assert!(wrote > 0, "frame {frame} should draw some pixels");
        fb
    };
    let fb0 = render(0);
    let fb1 = render(1);
    assert_ne!(fb0, fb1, "distinct frames must render distinct pixels");

    assert!(fb0.iter().any(|&p| (p & 0x00FF_0000) != 0));
    assert!(fb1.iter().any(|&p| (p & 0x0000_FF00) != 0));

    let mut fb = vec![0u32; n];
    let mut zb = vec![f32::INFINITY; n];
    assert_eq!(
        draw_frame(&book, &mut fb, &mut zb, w as usize, w, h, &cs, &cfg, 9, pose, s, hh, f, 0),
        0
    );
}

#[test]
fn clip_flipbook_set_frame_replaces_one_frame() {
    let dims = [8u32, 8, 8];
    let f0 = clip_frame(dims, |_, _, z| (z < 4).then_some(0x00FF_0000));
    let f1 = clip_frame(dims, |_, _, z| (z >= 4).then_some(0x0000_FF00));
    let decoded = DecodedClip {
        dims,
        frames: vec![f0, f1],
    };
    let mut book = ClipFlipbook::from_decoded(&decoded);

    let (w, h) = (64u32, 64u32);
    let n = (w * h) as usize;
    let cs = camera_state(&cam_looking_y(), w, h, 32.0, 32.0, 32.0);
    let cfg = settings(w, h);
    let render0 = |b: &ClipFlipbook| -> Vec<u32> {
        let mut fb = vec![0u32; n];
        let mut zb = vec![f32::INFINITY; n];
        let _ = draw_frame(b, &mut fb,
            &mut zb,
            w as usize,
            w,
            h,
            &cs,
            &cfg,
            0,
            [0.0, 40.0, 0.0],
            [1.0, 0.0, 0.0],
            [0.0, 1.0, 0.0],
            [0.0, 0.0, 1.0],
            0,
        );
        fb
    };

    let before = render0(&book);
    assert!(
        before.iter().any(|&p| (p & 0x00FF_0000) != 0),
        "frame 0 is red"
    );

    let replacement = SpriteDense::from_voxel_frame(&decoded.frames[1], dims);
    assert!(book.set_frame(0, replacement));
    let extra = SpriteDense::from_voxel_frame(&decoded.frames[1], dims);
    assert!(!book.set_frame(9, extra), "out-of-range set_frame is false");

    let after = render0(&book);
    assert!(
        after.iter().any(|&p| (p & 0x0000_FF00) != 0),
        "frame 0 now green"
    );
    assert_ne!(before, after);
}

#[test]
fn cube_sprite_renders() {
    let kv6 = solid_cube(8, 0x80_C0_40_20);
    let sprite = Sprite::axis_aligned(kv6, [0.0, 40.0, 0.0]);
    let (w, h) = (64u32, 64u32);
    let n = (w * h) as usize;
    let mut fb = vec![0u32; n];
    let mut zb = vec![f32::INFINITY; n];
    let cam = cam_looking_y();
    let cs = camera_state(&cam, w, h, 32.0, 32.0, 32.0);
    let wrote = draw_sprite_dda(
        &mut fb,
        &mut zb,
        w as usize,
        w,
        h,
        &cs,
        &settings(w, h),
        &sprite,
    );

    assert!(wrote > 20, "cube should cover many pixels (got {wrote})");
    let centre = (h / 2 * w + w / 2) as usize;
    assert_eq!(
        fb[centre] & 0x00ff_ffff,
        0x00_C0_40_20,
        "got {:08x}",
        fb[centre]
    );

    assert!(
        (zb[centre] - 36.0).abs() < 3.0,
        "centre depth {} not ≈ 36",
        zb[centre]
    );
}

#[test]
fn zero_high_byte_sprite_not_black() {
    let kv6 = solid_cube(8, 0x00_C0_40_20);
    let sprite = Sprite::axis_aligned(kv6, [0.0, 40.0, 0.0]);
    let (w, h) = (64u32, 64u32);
    let n = (w * h) as usize;
    let mut fb = vec![0u32; n];
    let mut zb = vec![f32::INFINITY; n];
    let cam = cam_looking_y();
    let cs = camera_state(&cam, w, h, 32.0, 32.0, 32.0);
    let wrote = draw_sprite_dda(
        &mut fb,
        &mut zb,
        w as usize,
        w,
        h,
        &cs,
        &settings(w, h),
        &sprite,
    );
    assert!(wrote > 20, "cube should cover many pixels (got {wrote})");
    let centre = (h / 2 * w + w / 2) as usize;
    assert_eq!(
        fb[centre] & 0x00ff_ffff,
        0x00_C0_40_20,
        "zero-high-byte sprite rendered as {:08x} (black bug)",
        fb[centre]
    );
}

#[test]
fn sprite_respects_zbuffer() {
    let kv6 = solid_cube(8, 0x80_FF_FF_FF);
    let sprite = Sprite::axis_aligned(kv6, [0.0, 40.0, 0.0]);
    let (w, h) = (32u32, 32u32);
    let n = (w * h) as usize;
    let cam = cam_looking_y();
    let cs = camera_state(&cam, w, h, 16.0, 16.0, 16.0);
    let centre = (h / 2 * w + w / 2) as usize;

    let mut fb = vec![0u32; n];
    let mut zb = vec![f32::INFINITY; n];
    fb[centre] = 0x80_11_22_33;
    zb[centre] = 10.0;
    let _ = draw_sprite_dda(
        &mut fb,
        &mut zb,
        w as usize,
        w,
        h,
        &cs,
        &settings(w, h),
        &sprite,
    );
    assert_eq!(
        fb[centre], 0x80_11_22_33,
        "near terrain must occlude sprite"
    );

    let mut fb2 = vec![0u32; n];
    let mut zb2 = vec![f32::INFINITY; n];
    fb2[centre] = 0x80_11_22_33;
    zb2[centre] = 100.0;
    let _ = draw_sprite_dda(
        &mut fb2,
        &mut zb2,
        w as usize,
        w,
        h,
        &cs,
        &settings(w, h),
        &sprite,
    );
    assert_ne!(fb2[centre], 0x80_11_22_33, "sprite must beat far terrain");
    assert!(zb2[centre] < 100.0, "sprite depth must replace terrain's");
}

fn covered_rect(fb: &[u32], w: u32, h: u32) -> (u32, u32, u32, u32) {
    let (mut x0, mut y0, mut x1, mut y1) = (w, h, 0u32, 0u32);
    for py in 0..h {
        for px in 0..w {
            if fb[(py * w + px) as usize] & 0x00ff_ffff != 0 {
                x0 = x0.min(px);
                y0 = y0.min(py);
                x1 = x1.max(px);
                y1 = y1.max(py);
            }
        }
    }
    (x0, y0, x1, y1)
}

#[test]
fn posed_basis_reorients_silhouette() {
    let kv6 = solid_box(16, 4, 4, 0x80_C0_40_20);
    let (w, h) = (64u32, 64u32);
    let n = (w * h) as usize;
    let cam = cam_looking_y();
    let cs = camera_state(&cam, w, h, 32.0, 32.0, 32.0);

    let aa = Sprite::axis_aligned(kv6.clone(), [0.0, 40.0, 0.0]);
    let mut fb = vec![0u32; n];
    let mut zb = vec![f32::INFINITY; n];
    let _ = draw_sprite_dda(
        &mut fb,
        &mut zb,
        w as usize,
        w,
        h,
        &cs,
        &settings(w, h),
        &aa,
    );
    let (ax0, ay0, ax1, ay1) = covered_rect(&fb, w, h);
    let aa_wide = (ax1 - ax0) as i32 - (ay1 - ay0) as i32;
    assert!(
        aa_wide > 4,
        "axis-aligned box should be wider than tall (got w-h={aa_wide})"
    );

    let mut posed = aa.clone();
    posed.s = [0.0, 0.0, 1.0];
    posed.h = [0.0, 1.0, 0.0];
    posed.f = [1.0, 0.0, 0.0];
    let mut fb2 = vec![0u32; n];
    let mut zb2 = vec![f32::INFINITY; n];
    let _ = draw_sprite_dda(
        &mut fb2,
        &mut zb2,
        w as usize,
        w,
        h,
        &cs,
        &settings(w, h),
        &posed,
    );
    let (bx0, by0, bx1, by1) = covered_rect(&fb2, w, h);
    let posed_tall = (by1 - by0) as i32 - (bx1 - bx0) as i32;
    assert!(
        posed_tall > 4,
        "posed box should be taller than wide (got h-w={posed_tall})"
    );
}

#[test]
fn degenerate_basis_draws_nothing() {
    let kv6 = solid_cube(8, 0x80_FF_FF_FF);
    let mut sprite = Sprite::axis_aligned(kv6, [0.0, 40.0, 0.0]);
    sprite.f = sprite.s;
    let (w, h) = (32u32, 32u32);
    let n = (w * h) as usize;
    let mut fb = vec![0u32; n];
    let mut zb = vec![f32::INFINITY; n];
    let cam = cam_looking_y();
    let cs = camera_state(&cam, w, h, 16.0, 16.0, 16.0);
    let wrote = draw_sprite_dda(
        &mut fb,
        &mut zb,
        w as usize,
        w,
        h,
        &cs,
        &settings(w, h),
        &sprite,
    );
    assert_eq!(wrote, 0, "singular basis must skip, not panic");
}

#[test]
fn invisible_sprite_skipped() {
    let kv6 = solid_cube(8, 0x80_FF_FF_FF);
    let mut sprite = Sprite::axis_aligned(kv6, [0.0, 40.0, 0.0]);
    sprite.flags |= SPRITE_FLAG_INVISIBLE;
    let (w, h) = (32u32, 32u32);
    let n = (w * h) as usize;
    let mut fb = vec![0u32; n];
    let mut zb = vec![f32::INFINITY; n];
    let cam = cam_looking_y();
    let cs = camera_state(&cam, w, h, 16.0, 16.0, 16.0);
    let wrote = draw_sprite_dda(
        &mut fb,
        &mut zb,
        w as usize,
        w,
        h,
        &cs,
        &settings(w, h),
        &sprite,
    );
    assert_eq!(wrote, 0);
}

fn draw_cube_shaded(mat: Material, alpha_mul: u8, bg: u32, zb_v: f32) -> (u32, Vec<u32>) {
    let mut table = MaterialTable::default();
    table.set(1, mat);
    let dense = SpriteDense::from_kv6(&solid_cube(8, 0x80_C0_40_20));
    let (w, h) = (64u32, 64u32);
    let n = (w * h) as usize;
    let mut fb = vec![bg; n];
    let mut zb = vec![zb_v; n];
    let cs = camera_state(&cam_looking_y(), w, h, 32.0, 32.0, 32.0);
    let sh = SpriteShade {
        materials: &table,
        material: 1,
        alpha_mul,
    };
    let _ = draw_sprite_dense_shaded(
        &mut fb,
        &mut zb,
        w as usize,
        w,
        h,
        &cs,
        &settings(w, h),
        &dense,
        [0.0, 40.0, 0.0],
        [1.0, 0.0, 0.0],
        [0.0, 1.0, 0.0],
        [0.0, 0.0, 1.0],
        0,
        Some(sh),
    );
    (fb[(h / 2 * w + w / 2) as usize], fb)
}

#[test]
fn additive_sprite_brightens_background() {
    let bg = 0x80_20_20_20;
    let (centre, _) = draw_cube_shaded(Material::additive(255), 255, bg, f32::INFINITY);
    let (cr, cg, cb) = ((centre >> 16) & 0xff, (centre >> 8) & 0xff, centre & 0xff);
    assert!(
        cr > 0x20 && cg > 0x20 && cb >= 0x20,
        "centre {centre:08x} should be brighter than bg"
    );

    assert!(
        cr >= cg && cr >= cb,
        "additive of a red-dominant cube stays red-dominant"
    );
}

#[test]
fn alpha_blend_sprite_between_bg_and_color() {
    let bg = 0x80_20_20_20;
    let (centre, _) = draw_cube_shaded(Material::alpha_blend(128), 255, bg, f32::INFINITY);
    let cr = (centre >> 16) & 0xff;
    assert!(
        cr > 0x20,
        "blended red must rise above bg 0x20 (got {cr:02x})"
    );
    assert!(
        cr < 0xC0,
        "blended red must stay below opaque 0xC0 (got {cr:02x})"
    );

    assert_ne!(centre & 0x00ff_ffff, bg & 0x00ff_ffff);
    assert_ne!(centre & 0x00ff_ffff, 0x00_C0_40_20);
}

#[test]
fn alpha_mul_scales_opacity() {
    let bg = 0x80_20_20_20;
    let (full, _) = draw_cube_shaded(Material::alpha_blend(255), 255, bg, f32::INFINITY);
    let (faded, _) = draw_cube_shaded(Material::alpha_blend(255), 64, bg, f32::INFINITY);
    let r_full = (full >> 16) & 0xff;
    let r_faded = (faded >> 16) & 0xff;

    assert!(
        r_full > r_faded,
        "alpha_mul=255 ({r_full:02x}) more opaque than 64 ({r_faded:02x})"
    );
    assert!(r_faded > 0x20, "even faded lifts above bg");
}

#[test]
fn opaque_shade_ctx_matches_plain_path() {
    let table = MaterialTable::default();
    let dense = SpriteDense::from_kv6(&solid_cube(8, 0x80_C0_40_20));
    let (w, h) = (64u32, 64u32);
    let n = (w * h) as usize;
    let cs = camera_state(&cam_looking_y(), w, h, 32.0, 32.0, 32.0);
    let pose = (
        [0.0, 40.0, 0.0],
        [1.0, 0.0, 0.0],
        [0.0, 1.0, 0.0],
        [0.0, 0.0, 1.0],
    );

    let mut fb_plain = vec![0u32; n];
    let mut zb_plain = vec![f32::INFINITY; n];
    let _ = draw_sprite_dense(
        &mut fb_plain,
        &mut zb_plain,
        w as usize,
        w,
        h,
        &cs,
        &settings(w, h),
        &dense,
        pose.0,
        pose.1,
        pose.2,
        pose.3,
        0,
    );

    let mut fb_sh = vec![0u32; n];
    let mut zb_sh = vec![f32::INFINITY; n];
    let sh = SpriteShade {
        materials: &table,
        material: 0,
        alpha_mul: 255,
    };
    let _ = draw_sprite_dense_shaded(
        &mut fb_sh,
        &mut zb_sh,
        w as usize,
        w,
        h,
        &cs,
        &settings(w, h),
        &dense,
        pose.0,
        pose.1,
        pose.2,
        pose.3,
        0,
        Some(sh),
    );

    assert_eq!(
        fb_plain, fb_sh,
        "opaque shade-ctx must match the plain path bit-for-bit"
    );
    assert_eq!(zb_plain, zb_sh, "opaque shade-ctx z-buffer must match too");
}

#[test]
fn translucent_sprite_occluded_by_near_terrain() {
    let bg = 0x80_20_20_20;
    let (centre, _) = draw_cube_shaded(Material::additive(255), 255, bg, 5.0);
    assert_eq!(
        centre, bg,
        "near terrain (z=5) must occlude the sprite at y≈36"
    );
}

#[test]
fn per_span_thickness_independent() {
    fn centre(ysiz: u32) -> u32 {
        let mut table = MaterialTable::default();
        table.set(1, Material::alpha_blend(128));
        let dense = SpriteDense::from_kv6(&solid_box(8, ysiz, 8, 0x80_C0_40_20));
        let (w, h) = (64u32, 64u32);
        let n = (w * h) as usize;
        let mut fb = vec![0x80_10_10_10u32; n];
        let mut zb = vec![f32::INFINITY; n];
        let cs = camera_state(&cam_looking_y(), w, h, 32.0, 32.0, 32.0);
        let sh = SpriteShade {
            materials: &table,
            material: 1,
            alpha_mul: 255,
        };
        let _ = draw_sprite_dense_shaded(
            &mut fb,
            &mut zb,
            w as usize,
            w,
            h,
            &cs,
            &settings(w, h),
            &dense,
            [0.0, 40.0, 0.0],
            [1.0, 0.0, 0.0],
            [0.0, 1.0, 0.0],
            [0.0, 0.0, 1.0],
            0,
            Some(sh),
        );
        fb[(h / 2 * w + w / 2) as usize] & 0x00ff_ffff
    }

    assert_eq!(
        centre(1),
        centre(2),
        "per-span: a 2-thick slab must match a 1-thick one (no double-count)"
    );
}

#[test]
fn volumetric_thickness_deepens_opacity() {
    fn red_at(depth: u32) -> u32 {
        let mut table = MaterialTable::default();
        table.set(1, Material::volumetric(128));

        let kv6 =
            kv6_of(8, depth, 8, |_, _, _| Some(0x80_C0_20_20));
        let dense = SpriteDense::from_kv6(&kv6);
        let (w, h) = (64u32, 64u32);
        let n = (w * h) as usize;
        let mut fb = vec![0x80_10_10_10u32; n];
        let mut zb = vec![f32::INFINITY; n];
        let cs = camera_state(&cam_looking_y(), w, h, 32.0, 32.0, 32.0);
        let sh = SpriteShade {
            materials: &table,
            material: 1,
            alpha_mul: 255,
        };
        let _ = draw_sprite_dense_shaded(
            &mut fb,
            &mut zb,
            w as usize,
            w,
            h,
            &cs,
            &settings(w, h),
            &dense,
            [0.0, 40.0, 0.0],
            [1.0, 0.0, 0.0],
            [0.0, 1.0, 0.0],
            [0.0, 0.0, 1.0],
            0,
            Some(sh),
        );
        (fb[(h / 2 * w + w / 2) as usize] >> 16) & 0xff
    }
    let shallow = red_at(1);
    let deep = red_at(12);

    assert!(
        shallow > 0x10,
        "even a 1-deep volume tints (got {shallow:02x})"
    );
    assert!(
        deep > shallow,
        "deeper Volumetric volume is more opaque: deep {deep:02x} > shallow {shallow:02x}"
    );
}

#[test]
fn translucent_sprite_tints_opaque_sprite_behind() {
    let mut table = MaterialTable::default();
    table.set(1, Material::alpha_blend(128));
    let (w, h) = (64u32, 64u32);
    let n = (w * h) as usize;
    let mut fb = vec![0x80_10_20_40u32; n];
    let mut zb = vec![f32::INFINITY; n];
    let cs = camera_state(&cam_looking_y(), w, h, 32.0, 32.0, 32.0);
    let cfg = settings(w, h);
    let id = [1.0, 0.0, 0.0];
    let up = [0.0, 1.0, 0.0];
    let fw = [0.0, 0.0, 1.0];
    let centre = (h / 2 * w + w / 2) as usize;

    let backdrop = SpriteDense::from_kv6(&solid_cube(12, 0x80_FF_00_00));
    let sh_op = SpriteShade {
        materials: &table,
        material: 0,
        alpha_mul: 255,
    };
    let _ = draw_sprite_dense_shaded(
        &mut fb,
        &mut zb,
        w as usize,
        w,
        h,
        &cs,
        &cfg,
        &backdrop,
        [0.0, 80.0, 0.0],
        id,
        up,
        fw,
        0,
        Some(sh_op),
    );
    let after_backdrop = fb[centre];
    assert_eq!(
        after_backdrop & 0x00ff_ffff,
        0x00FF_0000,
        "backdrop red must be drawn first"
    );

    let glass = SpriteDense::from_kv6(&solid_cube(12, 0x80_00_FF_FF));
    let sh_gl = SpriteShade {
        materials: &table,
        material: 1,
        alpha_mul: 255,
    };
    let wrote = draw_sprite_dense_shaded(
        &mut fb,
        &mut zb,
        w as usize,
        w,
        h,
        &cs,
        &cfg,
        &glass,
        [0.0, 40.0, 0.0],
        id,
        up,
        fw,
        0,
        Some(sh_gl),
    );
    let _ = wrote;
    let after_glass = fb[centre];
    assert_ne!(
        after_glass, after_backdrop,
        "glass must tint the backdrop (composite over it)"
    );

    assert!(
        (after_glass >> 16) & 0xff < 0xFF,
        "glass should reduce the backdrop's red (got {after_glass:08x})"
    );
}

#[test]
fn from_kv6_with_materials_classifies_by_color() {
    let col = 0x80_AA_BB_CC;
    let kv6 = solid_cube(6, col);
    let dense = SpriteDense::from_kv6_with_materials(&kv6, &[(0x00AA_BBCC, 2)]);
    assert_eq!(
        dense.mat.len(),
        dense.col.len(),
        "per-voxel mat array sized"
    );
    let mut solids = 0;
    for idx in 0..dense.occ.len() {
        if dense.occ[idx] {
            assert_eq!(dense.mat[idx], 2, "mapped colour → material 2");
            solids += 1;
        }
    }
    assert!(solids > 0, "cube has solid voxels");

    let dense0 = SpriteDense::from_kv6_with_materials(&kv6, &[(0x0012_3456, 5)]);
    assert!(
        dense0.mat.iter().all(|&m| m == 0),
        "unmapped colour → material 0"
    );
}

#[test]
fn per_voxel_material_matches_uniform_when_homogeneous() {
    let mut table = MaterialTable::default();
    table.set(1, Material::alpha_blend(120));
    let col = 0x80_30_A0_F0;
    let kv6 = solid_cube(10, col);
    let (w, h) = (64u32, 64u32);
    let n = (w * h) as usize;
    let cs = camera_state(&cam_looking_y(), w, h, 32.0, 32.0, 32.0);
    let cfg = settings(w, h);
    let (pos, s, hh, f) = (
        [0.0, 40.0, 0.0],
        [1.0, 0.0, 0.0],
        [0.0, 1.0, 0.0],
        [0.0, 0.0, 1.0],
    );
    let render = |dense: &SpriteDense, material: u8| -> Vec<u32> {
        let mut fb = vec![0x80_10_10_10u32; n];
        let mut zb = vec![f32::INFINITY; n];
        let sh = SpriteShade {
            materials: &table,
            material,
            alpha_mul: 255,
        };
        let _ = draw_sprite_dense_shaded(
            &mut fb,
            &mut zb,
            w as usize,
            w,
            h,
            &cs,
            &cfg,
            dense,
            pos,
            s,
            hh,
            f,
            0,
            Some(sh),
        );
        fb
    };

    let pv = render(
        &SpriteDense::from_kv6_with_materials(&kv6, &[(col & 0xff_ffff, 1)]),
        0,
    );

    let un = render(&SpriteDense::from_kv6(&kv6), 1);
    assert_eq!(pv, un, "homogeneous per-voxel material == uniform material");

    let centre = (h / 2 * w + w / 2) as usize;
    assert_ne!(pv[centre] & 0x00ff_ffff, 0x0010_1010, "translucent, not bg");
}

#[test]
fn clip_flipbook_with_materials_classifies_every_frame() {
    let dims = [6u32, 6, 6];
    let glass = 0x00AA_BBCC;
    let glass_lit = 0x80AA_BBCC;

    let f0 = clip_frame(dims, |_x, _y, z| (z < 3).then_some(glass_lit));
    let f1 = clip_frame(dims, |_x, _y, z| (z >= 3).then_some(glass_lit));
    let decoded = DecodedClip {
        dims,
        frames: vec![f0, f1],
    };

    let book = ClipFlipbook::from_decoded_with_materials(&decoded, &[(glass, 2)]);
    assert_eq!(book.frame_count(), 2);
    for fr in 0..2 {
        let dense = book.frame(fr).expect("frame in range");
        assert_eq!(dense.mat.len(), dense.col.len(), "frame {fr} mat sized");
        let mut solids = 0;
        for idx in 0..dense.occ.len() {
            if dense.occ[idx] {
                assert_eq!(dense.mat[idx], 2, "frame {fr}: glass → material 2");
                solids += 1;
            }
        }
        assert!(solids > 0, "frame {fr} has solid voxels");
    }

    let plain = ClipFlipbook::from_decoded(&decoded);
    let plain_mat = ClipFlipbook::from_decoded_with_materials(&decoded, &[]);
    for fr in 0..2 {
        assert!(plain.frame(fr).unwrap().mat.is_empty());
        assert!(plain_mat.frame(fr).unwrap().mat.is_empty());
    }
}

#[test]
fn layers_stop_at_the_first_opaque_voxel() {
    let mut span = SpanState::new();
    assert_eq!(span.visit(false, true, false, false, 1), Visit::Pass);
    assert_eq!(span.visit(true, true, false, false, 1), Visit::Layer);
    assert_eq!(span.visit(true, true, false, false, 1), Visit::Pass);
    assert_eq!(span.visit(true, true, false, false, 2), Visit::Layer);
    assert_eq!(span.visit(true, true, false, true, 3), Visit::Volume);
    assert_eq!(span.visit(true, true, true, false, 0), Visit::Stop);
    assert_eq!(span.visit(true, false, true, false, 0), Visit::Pass);
}

#[test]
fn sprites_are_drawn_by_what_they_hold() {
    let empty = SpriteDense::from_kv6(&kv6_of(0, 4, 4, |_, _, _| None));
    assert_eq!(empty.sprite_pass(false, true, false), SpritePass::Nothing);
    let cube = SpriteDense::from_kv6(&solid_cube(2, 0x0010_2030));
    assert_eq!(cube.sprite_pass(true, false, true), SpritePass::Nothing);
    assert_eq!(cube.sprite_pass(false, false, false), SpritePass::FirstHit);
    assert_eq!(cube.sprite_pass(false, true, true), SpritePass::FirstHit);
    assert_eq!(cube.sprite_pass(false, true, false), SpritePass::Layers);
    assert_eq!(cube.at([1, 1, 1]), Some(0x8010_2030));
    assert_eq!(cube.material_at(cube.idx_of([1, 0, 1]), 7), 7);
    let own = SpriteDense::from_kv6_with_materials(&solid_cube(2, 0x0010_2030), &[(0x10_2030, 3)]);
    assert_eq!(own.sprite_pass(false, true, true), SpritePass::Layers);
    assert_eq!(own.material_at(own.idx_of([1, 0, 1]), 7), 3);
}

#[test]
fn a_walk_leaves_its_box_in_time() {
    let dense = SpriteDense::from_kv6(&solid_box(2, 3, 4, 0x0011_2233));
    assert!(dense.is_addressable());
    assert_eq!(dense.max_steps(), 17);
    let mut walk = dense.enter([1, -1, 1], [-5, 9, 1]);
    assert_eq!(walk.cell, [0, 2, 1]);
    assert_eq!(walk.face(), [0, 0, 0]);
    let mut steps = 0;
    while walk.is_inside() {
        walk.advance(steps % 3);
        steps += 1;
    }
    assert!(steps < dense.max_steps());
    assert_eq!(walk.face(), [-1, 0, 0]);
    assert_eq!(dense.hop(&walk, false), Hop::Leave);
}

#[test]
fn sprites_that_lack_voxels_cannot_be_decoded() {
    let mut k = solid_box(2, 3, 4, 0x0011_2233);
    assert!(is_decodable(&k));
    k.voxels.pop();
    assert!(!is_decodable(&k));
    let mut k = solid_box(2, 3, 4, 0x0011_2233);
    k.ylen[1].pop();
    assert!(!is_decodable(&k));
    k.ylen.pop();
    assert!(!is_decodable(&k));
    let mut k = solid_box(1, 1, 1, 0x0011_2233);
    k.zsiz = 0x8000_0000;
    assert!(!is_decodable(&k));
}
