//! Frames drawn by one ray per pixel. The numbers along a ray are kept here;
//! every decision in a cell is the library's.
use rayon::iter::{IntoParallelIterator, ParallelIterator};
use roxlap_core::dda::brick::BrickCache;
use roxlap_core::dda::level::{effective_mip, local_cache};
use roxlap_core::dda::sampler::Sampler;
use roxlap_core::dda::sound::{can_hit, can_sample, grid_is_mappable};
use roxlap_core::dda::walk::{cell_box, CellWalk, Look, Surface};
use roxlap_core::dda::{fog_mix, row_bands, shade, side_shade_sub, sky_color};
use roxlap_core::grid_view::{ChunkGrid, GridView, CHUNK_SIZE_Z};
use roxlap_core::material::material_for_color;
use roxlap_core::sky::Sky;
use roxlap_core::vxl::{VoxColor, Vxl};

type OpticastSettings = roxlap_core::opticast::OpticastSettings<f32>;

const FALLBACK: VoxColor = VoxColor(0x8012_3456);

/// A column of the solid runs of `fill`: each run stores the colours of its
/// first and its last voxel.
fn column_of(depth: u32, fill: impl Fn(u32) -> Option<u32>) -> Vec<u8> {
    let mut bytes = Vec::new();
    let mut ceiling = 0u8;
    let mut z = 0u32;
    while z < depth {
        let Some(first) = fill(z) else {
            z += 1;
            continue;
        };
        let top = z;
        let mut last = first;
        while z < depth {
            let Some(c) = fill(z) else {
                break;
            };
            last = c;
            z += 1;
        }
        let to_bottom = z == depth;
        let words = if to_bottom {
            0u8
        } else if z - top > 1 {
            3
        } else {
            2
        };
        bytes.extend_from_slice(&[words, top as u8, top as u8, ceiling]);
        bytes.extend_from_slice(&first.to_le_bytes());
        if to_bottom {
            return bytes;
        }
        if words == 3 {
            bytes.extend_from_slice(&last.to_le_bytes());
        }
        ceiling = z as u8;
    }
    bytes.extend_from_slice(&[0, 255, 253, ceiling]);
    bytes
}

fn push_level(vxl: &mut Vxl, side: u32, depth: u32, fill: &dyn Fn(u32, u32, u32) -> Option<u32>) {
    for y in 0..side {
        for x in 0..side {
            vxl.column_offset.push(vxl.data.len() as u32);
            vxl.data.extend(column_of(depth, |z| fill(x, y, z)));
        }
    }
    vxl.mip_base_offsets.push(vxl.column_offset.len());
}

fn from_dense(side: u32, fill: impl Fn(u32, u32, u32) -> Option<u32>) -> Vxl {
    with_mips(side, 1, fill)
}

/// A map with coarser levels: a coarse voxel is solid where one of its eight
/// parts is.
fn with_mips(side: u32, levels: u32, fill: impl Fn(u32, u32, u32) -> Option<u32>) -> Vxl {
    let mut vxl = Vxl {
        vsid: side,
        data: Vec::new(),
        column_offset: Vec::new(),
        mip_base_offsets: vec![0],
    };
    for mip in 0..levels {
        let n = 1u32 << mip;
        push_level(&mut vxl, side >> mip, CHUNK_SIZE_Z >> mip, &|x, y, z| {
            (0..n * n * n).find_map(|i| fill(x * n + i % n, y * n + i / n % n, z * n + i / n / n))
        });
    }
    vxl
}

fn sky_from_pixels(pixels: Vec<i32>, width: i32, height: i32) -> Sky {
    Sky {
        lat: vec![0; width as usize],
        pixels,
        xsiz: width - 1,
        bpl: width * 4,
        ysiz: height,
    }
}

fn blue_gradient() -> Sky {
    sky_from_pixels((0..64).map(|i| 0x0010_2030 + i * 2).collect(), 64, 1)
}

fn whole_frame(w: u32, h: u32) -> OpticastSettings {
    OpticastSettings::for_oracle_framebuffer(w, h, w as f32 * 0.5, h as f32 * 0.5, 1.0)
}

#[derive(Clone, Copy)]
struct Camera {
    pos: [f64; 3],
    right: [f64; 3],
    down: [f64; 3],
    forward: [f64; 3],
}

impl Camera {
    fn from_yaw_pitch(pos: [f64; 3], yaw: f64, pitch: f64) -> Self {
        let (sy, cy) = yaw.sin_cos();
        let (sp, cp) = pitch.sin_cos();
        Self {
            pos,
            right: [-sy, cy, 0.0],
            down: [-cy * sp, -sy * sp, cp],
            forward: [cy * cp, sy * cp, sp],
        }
    }

    fn orbit(yaw: f64, pitch: f64, dist: f64, center: [f64; 3]) -> Self {
        let mut cam = Self::from_yaw_pitch([0.0; 3], yaw, pitch);
        cam.pos = [
            center[0] - cam.forward[0] * dist,
            center[1] - cam.forward[1] * dist,
            center[2] - cam.forward[2] * dist,
        ];
        cam
    }
}

#[derive(Clone, Copy)]
struct CameraState {
    pos: [f32; 3],
    right: [f32; 3],
    down: [f32; 3],
    forward: [f32; 3],
    corn: [[f32; 3]; 4],
}

fn camera_state(camera: &Camera, xres: u32, yres: u32, hx: f32, hy: f32, hz: f32) -> CameraState {
    let pos = camera.pos.map(|v| v as f32);
    let right = camera.right.map(|v| v as f32);
    let down = camera.down.map(|v| v as f32);
    let forward = camera.forward.map(|v| v as f32);
    let ray = |sx: f32, sy: f32| {
        [
            sx * right[0] + sy * down[0] + hz * forward[0],
            sx * right[1] + sy * down[1] + hz * forward[1],
            sx * right[2] + sy * down[2] + hz * forward[2],
        ]
    };
    let (w, h) = (xres as f32, yres as f32);
    let corn = [
        ray(-hx, -hy),
        ray(w - hx, -hy),
        ray(w - hx, h - hy),
        ray(-hx, h - hy),
    ];
    CameraState {
        pos,
        right,
        down,
        forward,
        corn,
    }
}

#[derive(Debug, Clone, Copy, PartialEq, Eq)]
enum BlendMode {
    Opaque,

    AlphaBlend,

    Additive,

    Volumetric,
}

#[derive(Debug, Clone, Copy, PartialEq, Eq)]
struct Material {
    mode: BlendMode,
    alpha: u8,
}

impl Material {
    const OPAQUE: Self = Self {
        mode: BlendMode::Opaque,
        alpha: 255,
    };

    fn alpha_blend(alpha: u8) -> Self {
        Self {
            mode: BlendMode::AlphaBlend,
            alpha,
        }
    }

    fn is_opaque(self) -> bool {
        self.mode == BlendMode::Opaque
    }
}

#[derive(Debug, Clone)]
struct MaterialTable {
    entries: Vec<Material>,
}

impl Default for MaterialTable {
    fn default() -> Self {
        Self {
            entries: vec![Material::OPAQUE; 256],
        }
    }
}

impl MaterialTable {
    fn get(&self, id: u8) -> Material {
        self.entries[usize::from(id)]
    }

    fn set(&mut self, id: u8, material: Material) {
        if id != 0 {
            self.entries[usize::from(id)] = material;
        }
    }
}

fn rgb_to_f32(c: u32) -> [f32; 3] {
    [
        ((c >> 16) & 0xff) as f32 / 255.0,
        ((c >> 8) & 0xff) as f32 / 255.0,
        (c & 0xff) as f32 / 255.0,
    ]
}

fn f32_to_rgb(c: [f32; 3]) -> u32 {
    let q = |v: f32| (v.clamp(0.0, 1.0) * 255.0 + 0.5) as u32;
    0x8000_0000 | (q(c[0]) << 16) | (q(c[1]) << 8) | q(c[2])
}

fn composite_over(accum: [f32; 3], trans: f32, bg: u32) -> u32 {
    let b = rgb_to_f32(bg);
    f32_to_rgb([
        accum[0] + trans * b[0],
        accum[1] + trans * b[1],
        accum[2] + trans * b[2],
    ])
}

#[derive(Clone, Copy)]
struct DdaEnv<'a> {
    sky: Option<&'a Sky>,
    fog_color: u32,

    fog_max_dist: f32,
    side_shades: [i8; 6],
    materials: Option<&'a MaterialTable>,

    terrain_materials: &'a [(u32, u8)],

    fallback: VoxColor,
}

impl Default for DdaEnv<'_> {
    fn default() -> Self {
        Self {
            sky: None,
            fog_color: 0,
            fog_max_dist: 0.0,
            side_shades: [0; 6],
            materials: None,
            terrain_materials: &[],
            fallback: FALLBACK,
        }
    }
}

trait PixelSink {
    fn put(&mut self, idx: usize, color: u32, dist: f32);
}

struct RasterSink<'a> {
    framebuffer: &'a mut [u32],
    zbuffer: &'a mut [f32],
}

impl<'a> RasterSink<'a> {
    fn new(framebuffer: &'a mut [u32], zbuffer: &'a mut [f32]) -> Self {
        Self {
            framebuffer,
            zbuffer,
        }
    }
}

impl PixelSink for RasterSink<'_> {
    fn put(&mut self, idx: usize, color: u32, dist: f32) {
        if idx < self.framebuffer.len() && idx < self.zbuffer.len() {
            self.framebuffer[idx] = color;
            self.zbuffer[idx] = dist;
        }
    }
}

struct Hit {
    color: u32,
    dist: f32,
}

fn fog_color(env: &DdaEnv<'_>) -> u32 {
    0x8000_0000 | (env.fog_color & 0x00ff_ffff)
}

fn apply_fog(color: u32, depth: f32, env: &DdaEnv<'_>) -> u32 {
    if env.fog_max_dist <= 0.0 {
        return color;
    }
    let f = ((depth / env.fog_max_dist).clamp(0.0, 1.0) * 256.0) as u32;
    fog_mix(color, env.fog_color, f.min(256))
}

fn terrain_material(env: &DdaEnv<'_>, color: u32) -> (Material, u8) {
    let id = material_for_color(env.terrain_materials, color);
    match env.materials {
        Some(table) if !env.terrain_materials.is_empty() => (table.get(id), id),
        _ => (Material::OPAQUE, id),
    }
}

fn finalize_exit(
    touched: bool,
    accum: [f32; 3],
    trans: f32,
    env: &DdaEnv<'_>,
    dir: [f32; 3],
    dist: f32,
) -> Option<Hit> {
    if !touched {
        return None;
    }
    let bg = match env.sky {
        Some(s) => sample_sky(s, dir),
        None => fog_color(env),
    };
    Some(Hit {
        color: composite_over(accum, trans, bg),
        dist,
    })
}

fn sample_sky(sky: &Sky, dir: [f32; 3]) -> u32 {
    let len = (dir[0] * dir[0] + dir[1] * dir[1] + dir[2] * dir[2]).sqrt();
    if len < 1e-9 {
        return 0x8000_0000;
    }
    let d = [dir[0] / len, dir[1] / len, dir[2] / len];
    let pi = std::f32::consts::PI;
    let width = sky.lat.len().max(1);
    assert!(width <= i32::MAX as usize, "the panorama is too wide");
    assert!(
        sky.ysiz <= 1 || (sky.ysiz as i64) * (width as i64) <= i64::from(i32::MAX),
        "the panorama is too large"
    );
    let elev01 = (-d[2]).clamp(-1.0, 1.0).acos() / pi;
    let x = (elev01 * width as f32) as i32;
    let az = d[1].atan2(d[0]);
    let yf = ((az / (pi * 2.0)) + 0.5) * sky.ysiz as f32;
    sky_color(sky, x, yf as i32)
}

fn render_sky_fill(
    fb: &mut [u32],
    pitch_pixels: usize,
    width: u32,
    height: u32,
    cam: &CameraState,
    settings: &OpticastSettings,
    sky: &Sky,
) {
    for py in 0..height {
        let row = py as usize * pitch_pixels;
        for px in 0..width {
            let (_origin, dir) = pixel_ray(cam, settings, px, py);
            fb[row + px as usize] = sample_sky(sky, dir);
        }
    }
}

fn pixel_ray(
    cs: &CameraState,
    settings: &OpticastSettings,
    px: u32,
    py: u32,
) -> ([f32; 3], [f32; 3]) {
    let sx = px as f32 - settings.hx;
    let sy = py as f32 - settings.hy;
    let dir = [
        sx * cs.right[0] + sy * cs.down[0] + settings.hz * cs.forward[0],
        sx * cs.right[1] + sy * cs.down[1] + settings.hz * cs.forward[1],
        sx * cs.right[2] + sy * cs.down[2] + settings.hz * cs.forward[2],
    ];
    (cs.pos, dir)
}

fn intersect_aabb(
    o: [f32; 3],
    dir: [f32; 3],
    lo: [f32; 3],
    hi: [f32; 3],
) -> Option<(f32, f32)> {
    let mut t0 = 0.0f32;
    let mut t1 = f32::INFINITY;
    for a in 0..3 {
        if dir[a].abs() < 1e-9 {
            if o[a] < lo[a] || o[a] > hi[a] {
                return None;
            }
        } else {
            let inv = 1.0 / dir[a];
            let mut ta = (lo[a] - o[a]) * inv;
            let mut tb = (hi[a] - o[a]) * inv;
            if ta > tb {
                core::mem::swap(&mut ta, &mut tb);
            }
            t0 = t0.max(ta);
            t1 = t1.min(tb);
            if t0 > t1 {
                return None;
            }
        }
    }
    Some((t0, t1))
}

fn steps_of(dir: [f32; 3]) -> [i32; 3] {
    dir.map(|d| {
        if d > 1e-9 {
            1
        } else if d < -1e-9 {
            -1
        } else {
            0
        }
    })
}

fn dda_setup(
    origin: [f32; 3],
    dir: [f32; 3],
    cell: [i32; 3],
    cell_size: f32,
) -> ([f32; 3], [f32; 3]) {
    let step = steps_of(dir);
    let mut t_max = [f32::INFINITY; 3];
    let mut t_delta = [f32::INFINITY; 3];
    for a in 0..3 {
        if step[a] > 0 {
            let boundary = (cell[a] + 1) as f32 * cell_size;
            t_max[a] = (boundary - origin[a]) / dir[a];
            t_delta[a] = cell_size / dir[a];
        } else if step[a] < 0 {
            let boundary = cell[a] as f32 * cell_size;
            t_max[a] = (boundary - origin[a]) / dir[a];
            t_delta[a] = -cell_size / dir[a];
        }
    }
    (t_max, t_delta)
}

fn min_axis(t_max: [f32; 3]) -> usize {
    if t_max[0] <= t_max[1] && t_max[0] <= t_max[2] {
        0
    } else if t_max[1] <= t_max[2] {
        1
    } else {
        2
    }
}

fn cell_at(origin: [f32; 3], dir: [f32; 3], t: f32, cell_size: f32) -> [i32; 3] {
    let mut c = [0i32; 3];
    for a in 0..3 {
        c[a] = ((origin[a] + dir[a] * t) / cell_size).floor() as i32;
    }
    c
}

fn cast_ray(
    origin: [f32; 3],
    dir: [f32; 3],
    forward: [f32; 3],
    sampler: &mut Sampler<'_>,
    settings: &OpticastSettings,
    env: &DdaEnv<'_>,
) -> Option<Hit> {
    let (lo_i, hi_i) = sampler.grid.voxel_bounds();
    let (t_enter, t_exit) = intersect_aabb(
        origin,
        dir,
        lo_i.map(|v| v as f32),
        hi_i.map(|v| v as f32),
    )?;
    let fwd_dot = dir[0] * forward[0] + dir[1] * forward[1] + dir[2] * forward[2];
    let max_dist = settings.max_scan_dist.max(1) as f32;
    let cell_size = (1u32 << sampler.mip) as f32;
    let (lo, hi) = cell_box(lo_i, hi_i, sampler.mip);
    if (0..3).any(|a| lo[a] >= hi[a]) {
        return None;
    }
    let step = steps_of(dir);
    let mut walk = CellWalk::new(lo, hi, step, cell_at(origin, dir, t_enter + 1e-4, cell_size));
    let (mut t_max, t_delta) = dda_setup(origin, dir, walk.cell, cell_size);
    let inv = [0, 1, 2].map(|a: usize| if step[a] != 0 { 1.0 / dir[a] } else { 0.0 });
    let mut t_curr = t_enter;
    let mut accum = [0.0f32; 3];
    let mut trans = 1.0f32;

    for _ in 0..walk.max_steps() {
        let depth = t_curr * fwd_dot;
        let past_end = depth > max_dist || t_curr > t_exit;
        let fogged = env.fog_max_dist > 0.0 && depth >= env.fog_max_dist;
        assert!(
            !walk.is_inside() || past_end || fogged || walk.can_look(sampler),
            "a chunk leaves the range of indices"
        );
        match walk.look(sampler, past_end, fogged) {
            Look::Exit => return finalize_exit(walk.touched, accum, trans, env, dir, max_dist),
            Look::Fog => {
                let fog = fog_color(env);
                let color = if walk.touched {
                    composite_over(accum, trans, fog)
                } else {
                    fog
                };
                return Some(Hit {
                    color,
                    dist: env.fog_max_dist,
                });
            }
            Look::Skip(shift) => {
                let planes = walk.planes(shift);
                let mut best_t = f32::INFINITY;
                let mut best_axis = 3usize;
                for a in 0..3 {
                    if step[a] != 0 {
                        let tb = (planes[a] as f32 * cell_size - origin[a]) * inv[a];
                        if tb < best_t {
                            best_t = tb;
                            best_axis = a;
                        }
                    }
                }
                let landed = cell_at(origin, dir, best_t + 1e-4, cell_size);
                if best_axis == 3 || !walk.land(best_axis, planes[best_axis], landed) {
                    return finalize_exit(walk.touched, accum, trans, env, dir, max_dist);
                }
                for a in 0..3 {
                    if step[a] > 0 {
                        t_max[a] = ((walk.cell[a] + 1) as f32 * cell_size - origin[a]) * inv[a];
                    } else if step[a] < 0 {
                        t_max[a] = (walk.cell[a] as f32 * cell_size - origin[a]) * inv[a];
                    }
                }
                t_curr = best_t.max(t_curr);
                continue;
            }
            Look::Cell => {}
        }
        assert!(can_hit(sampler, walk.cell), "a column of the grid cannot be read");
        if let Some(VoxColor(color)) = sampler.hit(walk.cell) {
            let bright_sub = side_shade_sub(env.side_shades, walk.last_axis, step);
            let lit = apply_fog(shade(color, bright_sub), depth.max(0.0), env);
            let (m, id) = terrain_material(env, color);
            let touched = walk.touched;
            match walk.surface(m.is_opaque(), id) {
                Surface::Stop => {
                    let color = if touched {
                        composite_over(accum, trans, lit)
                    } else {
                        lit
                    };
                    return Some(Hit {
                        color,
                        dist: depth.max(0.0),
                    });
                }
                Surface::Layer => {
                    let a = f32::from(m.alpha) / 255.0;
                    let c = rgb_to_f32(lit);
                    for k in 0..3 {
                        accum[k] += trans * a * c[k];
                    }
                    if m.mode != BlendMode::Additive {
                        trans *= 1.0 - a;
                    }
                    if trans < 1.0 / 256.0 {
                        return Some(Hit {
                            color: f32_to_rgb(accum),
                            dist: depth.max(0.0),
                        });
                    }
                }
                Surface::Same => {}
            }
        } else {
            walk.air();
        }
        let axis = min_axis(t_max);
        t_curr = t_max[axis];
        walk.advance(axis);
        t_max[axis] += t_delta[axis];
    }
    None
}

fn pixel_result(
    cs: &CameraState,
    settings: &OpticastSettings,
    sampler: &mut Sampler<'_>,
    env: &DdaEnv<'_>,
    px: u32,
    py: u32,
) -> Option<(u32, f32)> {
    let (origin, dir) = pixel_ray(cs, settings, px, py);
    if let Some(hit) = cast_ray(origin, dir, cs.forward, sampler, settings, env) {
        Some((hit.color, hit.dist))
    } else {
        env.sky.map(|sky| (sample_sky(sky, dir), f32::INFINITY))
    }
}

fn state_of(camera: &Camera, settings: &OpticastSettings) -> CameraState {
    camera_state(
        camera,
        settings.xres,
        settings.yres,
        settings.hx,
        settings.hy,
        settings.hz,
    )
}

fn render_dda(
    camera: &Camera,
    settings: &OpticastSettings,
    grid: GridView<'_>,
    pitch_pixels: usize,
    env: &DdaEnv<'_>,
    mip: u32,
    sink: &mut impl PixelSink,
) {
    let cs = state_of(camera, settings);
    assert!(
        grid_is_mappable(&grid, effective_mip(&grid, mip)),
        "a column of the grid cannot be read"
    );
    let (cache, mip) = local_cache(&grid, mip);
    assert!(can_sample(&grid, mip), "the side of a chunk is no power of two");
    let mut sampler = Sampler::new(grid, &cache, mip, env.fallback);
    for py in settings.y_start..settings.y_end {
        let row = py as usize * pitch_pixels;
        for px in settings.x_start..settings.x_end {
            if let Some((color, dist)) = pixel_result(&cs, settings, &mut sampler, env, px, py) {
                sink.put(row + px as usize, color, dist);
            }
        }
    }
}

fn render_dda_parallel(
    camera: &Camera,
    settings: &OpticastSettings,
    grid: GridView<'_>,
    fb: &mut [u32],
    zb: &mut [f32],
    pitch_pixels: usize,
    env: &DdaEnv<'_>,
    cache: &BrickCache,
    mip: u32,
) {
    let cs = state_of(camera, settings);
    let bands = row_bands(settings.y_start, settings.y_end, rayon::current_num_threads());
    let drawn: Vec<Vec<(usize, u32, f32)>> = bands
        .into_par_iter()
        .map(|(y0, y1)| {
            let mut sampler = Sampler::new(grid, cache, mip, env.fallback);
            let mut puts = Vec::new();
            for py in y0..y1 {
                for px in settings.x_start..settings.x_end {
                    if let Some((c, d)) = pixel_result(&cs, settings, &mut sampler, env, px, py) {
                        puts.push((py as usize * pitch_pixels + px as usize, c, d));
                    }
                }
            }
            puts
        })
        .collect();
    for (i, c, d) in drawn.into_iter().flatten() {
        fb[i] = c;
        zb[i] = d;
    }
}

fn cast_ray_reference(
    origin: [f32; 3],
    dir: [f32; 3],
    forward: [f32; 3],
    grid: &GridView<'_>,
    settings: &OpticastSettings,
) -> Option<Hit> {
    let nx = grid.vsid as f32;
    let nz = CHUNK_SIZE_Z as f32;
    let n_i = [
        grid.vsid as i32,
        grid.vsid as i32,
        CHUNK_SIZE_Z as i32,
    ];
    let (t_enter, t_exit) = intersect_aabb(origin, dir, [0.0; 3], [nx, nx, nz])?;
    let fwd_dot = dir[0] * forward[0] + dir[1] * forward[1] + dir[2] * forward[2];
    let max_dist = settings.max_scan_dist.max(1) as f32;

    let start = t_enter + 1e-4;
    let p = [
        origin[0] + dir[0] * start,
        origin[1] + dir[1] * start,
        origin[2] + dir[2] * start,
    ];
    let mut voxel = [
        (p[0].floor() as i32).clamp(0, n_i[0] - 1),
        (p[1].floor() as i32).clamp(0, n_i[1] - 1),
        (p[2].floor() as i32).clamp(0, n_i[2] - 1),
    ];
    let step = steps_of(dir);
    let (mut t_max, t_delta) = dda_setup(origin, dir, voxel, 1.0);
    let mut t_curr = t_enter;
    let max_steps = (n_i[0] + n_i[1] + n_i[2]) as usize + 8;
    for _ in 0..max_steps {
        if voxel[0] < 0
            || voxel[0] >= n_i[0]
            || voxel[1] < 0
            || voxel[1] >= n_i[1]
            || voxel[2] < 0
            || voxel[2] >= n_i[2]
        {
            return None;
        }
        let depth = t_curr * fwd_dot;
        if depth > max_dist || t_curr > t_exit {
            return None;
        }
        let (x, y, z) = (voxel[0] as u32, voxel[1] as u32, voxel[2] as u32);
        if let Some(VoxColor(color)) = grid.surface_color(x, y, z, FALLBACK) {
            return Some(Hit {
                color: shade(color, 0),
                dist: depth.max(0.0),
            });
        }
        let axis = min_axis(t_max);
        t_curr = t_max[axis];
        voxel[axis] += step[axis];
        t_max[axis] += t_delta[axis];
    }
    None
}

#[derive(Default)]
struct Recorder {
    puts: Vec<(usize, u32, f32)>,
}
impl PixelSink for Recorder {
    fn put(&mut self, idx: usize, color: u32, dist: f32) {
        self.puts.push((idx, color, dist));
    }
}

fn oracle_camera() -> Camera {
    Camera {
        pos: [0.0, 0.0, 0.0],
        right: [1.0, 0.0, 0.0],
        down: [0.0, 0.0, 1.0],
        forward: [0.0, 1.0, 0.0],
    }
}

fn render_mask(grid: GridView<'_>, camera: &Camera, w: u32, h: u32) -> Vec<bool> {
    let n = (w as usize) * (h as usize);
    let mut fb = vec![0u32; n];
    let mut zb = vec![f32::INFINITY; n];
    let settings = whole_frame(w, h);
    {
        let mut sink = RasterSink::new(&mut fb, &mut zb);
        render_dda(
            camera,
            &settings,
            grid,
            w as usize,
            &DdaEnv::default(),
            0,
            &mut sink,
        );
    }
    fb.iter().map(|&c| c != 0).collect()
}

fn rows_have_no_holes(mask: &[bool], w: u32, h: u32) -> bool {
    let w = w as usize;
    for y in 0..h as usize {
        let row = &mask[y * w..(y + 1) * w];
        let first = row.iter().position(|&b| b);
        let last = row.iter().rposition(|&b| b);
        if let (Some(f), Some(l)) = (first, last) {
            if row[f..=l].iter().any(|&b| !b) {
                return false;
            }
        }
    }
    true
}

fn cols_have_no_holes(mask: &[bool], w: u32, h: u32) -> bool {
    let w = w as usize;
    let h = h as usize;
    for x in 0..w {
        let col: Vec<bool> = (0..h).map(|y| mask[y * w + x]).collect();
        let first = col.iter().position(|&b| b);
        let last = col.iter().rposition(|&b| b);
        if let (Some(f), Some(l)) = (first, last) {
            if col[f..=l].iter().any(|&b| !b) {
                return false;
            }
        }
    }
    true
}

#[test]
fn center_pixel_ray_is_forward() {
    let settings = whole_frame(640, 480);
    let cs = camera_state(&oracle_camera(), 640, 480, 320.0, 240.0, 320.0);

        let (origin, dir) = pixel_ray(&cs, &settings, settings.hx as u32, settings.hy as u32);
    assert_eq!(origin, [0.0, 0.0, 0.0]);

    assert_eq!(
        dir.map(f32::to_bits),
        [0.0f32, 320.0, 0.0].map(f32::to_bits)
    );
}

#[test]
fn corner_pixel_ray_matches_camera_corn0() {
    let settings = whole_frame(640, 480);
    let cs = camera_state(&oracle_camera(), 640, 480, 320.0, 240.0, 320.0);
    let (_origin, dir) = pixel_ray(&cs, &settings, 0, 0);
    assert_eq!(dir.map(f32::to_bits), cs.corn[0].map(f32::to_bits));
}

#[test]
fn gridview_voxel_color_matches_reference() {
    let vxl = from_dense(8, |x, _, z| {
        let lo = (10..=12).contains(&z);
        let hi = (40..=42).contains(&z);
        (lo || hi).then_some(0x80_10_20_30 + x)
    });
    let grid = GridView::from_single_vxl(&vxl);
    let stored_colour =
        |x: u32, z: u32| [10, 12, 40, 42].contains(&z).then_some(VoxColor(0x80_10_20_30 + x));
    for x in 0..8 {
        for y in 0..8 {
            for z in 0..64 {
                assert_eq!(
                    grid.voxel_color(x, y, z),
                    stored_colour(x, z),
                    "mismatch at ({x},{y},{z})"
                );
            }
        }
    }
}

#[test]
fn empty_grid_no_hits() {
    let vxl = from_dense(64, |_, _, _| None);
    let grid = GridView::from_single_vxl(&vxl);
    let settings = whole_frame(64, 48);
    let mut rec = Recorder::default();
    render_dda(
        &oracle_camera(),
        &settings,
        grid,
        64,
        &DdaEnv::default(),
        0,
        &mut rec,
    );
    assert!(rec.puts.is_empty(), "all-air grid must produce no hits");
}

#[test]
fn floor_seen_from_above() {
    const FLOOR_Z: u32 = 40;
    const FLOOR_COL: u32 = 0x80_30_60_90;
    let vxl =
        from_dense(32, |_, _, z| (z >= FLOOR_Z).then_some(FLOOR_COL));
    let grid = GridView::from_single_vxl(&vxl);

    let cam = Camera {
        pos: [16.0, 16.0, 10.0],
        right: [1.0, 0.0, 0.0],
        down: [0.0, 1.0, 0.0],
        forward: [0.0, 0.0, 1.0],
    };
    let settings = whole_frame(48, 48);
    let mut rec = Recorder::default();
    render_dda(&cam, &settings, grid, 48, &DdaEnv::default(), 0, &mut rec);

    assert!(!rec.puts.is_empty(), "floor must be visible");

    let centre = 24usize * 48 + 24;
    let hit = rec
        .puts
        .iter()
        .find(|(idx, _, _)| *idx == centre)
        .expect("centre ray must hit the floor");
    assert_eq!(hit.1 & 0x00ff_ffff, FLOOR_COL & 0x00ff_ffff);
    let expected = (FLOOR_Z as f32) - 10.0;
    assert!(
        (hit.2 - expected).abs() < 1.5,
        "centre depth {} not ≈ {}",
        hit.2,
        expected
    );
}

#[test]
fn horizon_splits_sky_and_floor() {
    const FLOOR_Z: u32 = 40;
    let vxl = from_dense(64, |_, _, z| {
        (z >= FLOOR_Z).then_some(0x80_44_66_88)
    });
    let grid = GridView::from_single_vxl(&vxl);

    let cam = Camera {
        pos: [32.0, 4.0, 30.0],
        right: [-1.0, 0.0, 0.0],
        down: [0.0, 0.0, 1.0],
        forward: [0.0, 1.0, 0.0],
    };
    let (w, h) = (64u32, 64u32);
    let mask = render_mask(grid, &cam, w, h);

    let count_band = |y0: usize, y1: usize| -> usize {
        (y0 * w as usize..y1 * w as usize)
            .filter(|&i| mask[i])
            .count()
    };
    let top = count_band(0, h as usize / 4);
    let bottom = count_band(3 * h as usize / 4, h as usize);
    assert!(mask.iter().any(|&b| b), "floor must be visible");
    assert!(mask.iter().any(|&b| !b), "sky must be visible");
    assert!(
        bottom > top,
        "bottom band ({bottom}) should hit more floor than top band ({top})"
    );
}

fn render_reference(
    grid: GridView<'_>,
    camera: &Camera,
    w: u32,
    h: u32,
) -> (Vec<u32>, Vec<f32>) {
    let n = (w as usize) * (h as usize);
    let mut fb = vec![0u32; n];
    let mut zb = vec![f32::INFINITY; n];
    let settings = whole_frame(w, h);
    let cs = camera_state(camera, w, h, settings.hx, settings.hy, settings.hz);
    for py in 0..h {
        for px in 0..w {
            let (o, d) = pixel_ray(&cs, &settings, px, py);
            if let Some(hit) = cast_ray_reference(o, d, cs.forward, &grid, &settings) {
                let i = (py * w + px) as usize;
                fb[i] = hit.color;
                zb[i] = hit.dist;
            }
        }
    }
    (fb, zb)
}

fn render_brickmap(
    grid: GridView<'_>,
    camera: &Camera,
    w: u32,
    h: u32,
) -> (Vec<u32>, Vec<f32>) {
    render_brickmap_env(grid, camera, w, h, &DdaEnv::default())
}

fn render_brickmap_env(
    grid: GridView<'_>,
    camera: &Camera,
    w: u32,
    h: u32,
    env: &DdaEnv<'_>,
) -> (Vec<u32>, Vec<f32>) {
    let n = (w as usize) * (h as usize);
    let mut fb = vec![0u32; n];
    let mut zb = vec![f32::INFINITY; n];
    let settings = whole_frame(w, h);
    {
        let mut sink = RasterSink::new(&mut fb, &mut zb);
        render_dda(camera, &settings, grid, w as usize, env, 0, &mut sink);
    }
    (fb, zb)
}

#[test]
fn no_sky_leak_through_diagonal_wall() {
    let vxl = from_dense(64, |x, y, z| {
        ((x + y == 64) && (2..62).contains(&z)).then_some(0x80_40_80_60)
    });
    let grid = GridView::from_single_vxl(&vxl);
    let (w, h) = (160u32, 160u32);
    let c = [10.0, 10.0, 32.0];
    let poses = [
        Camera::from_yaw_pitch(c, 0.785, 0.0),
        Camera::from_yaw_pitch(c, 0.6, 0.1),
        Camera::from_yaw_pitch(c, 0.95, -0.1),
        Camera::from_yaw_pitch(c, 0.785, 0.3),
        Camera::from_yaw_pitch(c, 0.5, 0.0),
    ];
    for (i, cam) in poses.iter().enumerate() {
        let (fb_b, _) = render_brickmap(grid, cam, w, h);
        let (fb_r, _) = render_reference(grid, cam, w, h);
        let leak = (0..(w * h) as usize)
            .filter(|&k| (fb_b[k] != 0) != (fb_r[k] != 0))
            .count();
        assert_eq!(leak, 0, "pose {i}: {leak} px diverge from dense reference");
    }
}

#[test]
fn terrain_glass_tints_floor_behind() {
    let glass = 0x80_40_C0_E0;
    let floor = 0x80_C0_40_40;
    let vxl = from_dense(16, |_, _, z| {
        if z == 4 {
            Some(glass)
        } else if z >= 10 {
            Some(floor)
        } else {
            None
        }
    });
    let grid = GridView::from_single_vxl(&vxl);

    let cam = Camera {
        pos: [8.0, 8.0, 0.0],
        right: [1.0, 0.0, 0.0],
        down: [0.0, 1.0, 0.0],
        forward: [0.0, 0.0, 1.0],
    };
    let (w, h) = (32u32, 32u32);
    let centre = (h / 2 * w + w / 2) as usize;

    let (fb_op, _) = render_brickmap(grid, &cam, w, h);
    assert_eq!(
        fb_op[centre] & 0x00ff_ffff,
        0x0040_C0E0,
        "opaque glass first-hit"
    );

    let mut table = MaterialTable::default();
    table.set(1, Material::alpha_blend(128));
    let env = DdaEnv {
        materials: Some(&table),
        terrain_materials: &[(glass & 0x00ff_ffff, 1)],
        ..DdaEnv::default()
    };
    let (fb_tr, _) = render_brickmap_env(grid, &cam, w, h, &env);
    assert_ne!(
        fb_tr[centre], fb_op[centre],
        "glass should composite over the floor, not stay opaque"
    );
    let r_op = (fb_op[centre] >> 16) & 0xff;
    let r_tr = (fb_tr[centre] >> 16) & 0xff;
    assert!(
        r_tr > r_op,
        "floor red tints through the glass (op={r_op:02x} tr={r_tr:02x})"
    );
}

#[test]
fn distance_fog_blends_toward_fog_color() {
    let vxl =
        from_dense(64, |_, _, z| (z >= 40).then_some(0x80_FF_FF_FF));
    let grid = GridView::from_single_vxl(&vxl);
    let cam = Camera {
        pos: [32.0, 2.0, 38.0],
        right: [1.0, 0.0, 0.0],
        down: [0.0, 0.0, 1.0],
        forward: [0.0, 1.0, 0.0],
    };
    let env = DdaEnv {
        sky: None,
        fog_color: 0x00_00_00_00,
        fog_max_dist: 64.0,
        side_shades: [0; 6],
        materials: None,
        terrain_materials: &[],
        ..DdaEnv::default()
    };
    let (w, h) = (64u32, 64u32);
    let (fog, _) = render_brickmap_env(grid, &cam, w, h, &env);
    let (nofog, zb) = render_brickmap(grid, &cam, w, h);
    let (idx, depth) = zb.iter().enumerate().filter(|(_, z)| z.is_finite()).fold(
        (0usize, 0.0f32),
        |acc, (i, &z)| {
            if z > acc.1 {
                (i, z)
            } else {
                acc
            }
        },
    );
    assert!(depth > 20.0, "need a deep pixel to test fog (got {depth})");
    let lum = |c: u32| (c & 0xff) + ((c >> 8) & 0xff) + ((c >> 16) & 0xff);
    assert!(
        lum(fog[idx]) < lum(nofog[idx]),
        "fogged pixel {:08x} not darker than {:08x}",
        fog[idx],
        nofog[idx]
    );
}

#[test]
fn textured_sky_fills_misses() {
    let sky = blue_gradient();
    let vxl = from_dense(32, |_, _, _| None);
    let grid = GridView::from_single_vxl(&vxl);
    let env = DdaEnv {
        sky: Some(&sky),
        fog_color: 0,
        fog_max_dist: 0.0,
        side_shades: [0; 6],
        materials: None,
        terrain_materials: &[],
        ..DdaEnv::default()
    };
    let cam = Camera::from_yaw_pitch([16.0, 16.0, 128.0], 0.3, -0.4);
    let (w, h) = (48u32, 48u32);
    let (fb, _) = render_brickmap_env(grid, &cam, w, h, &env);
    assert!(fb.iter().all(|&c| c >> 24 == 0x80), "all misses sky-filled");
    let top = fb[0];
    let bottom = fb[(h - 1) as usize * w as usize];
    assert_ne!(top, bottom, "sky gradient should vary with elevation");
}

#[test]
fn sky_elevation_zenith_at_column_zero() {
    let mut pixels = vec![0i32; 8];
    pixels[0] = 0x0011_1111;
    pixels[7] = 0x0099_9999;
    let sky = sky_from_pixels(pixels, 8, 1);
    let up = sample_sky(&sky, [0.0, 0.0, -1.0]);
    let down = sample_sky(&sky, [0.0, 0.0, 1.0]);
    assert_eq!(
        up & 0x00ff_ffff,
        0x0011_1111,
        "looking up → column 0 (zenith)"
    );
    assert_eq!(
        down & 0x00ff_ffff,
        0x0099_9999,
        "looking down → last column (nadir)"
    );
}

#[test]
fn sky_fill_paints_panorama_gridless() {
    let sky = blue_gradient();
    let cam = Camera::from_yaw_pitch([0.0, 0.0, 0.0], 0.3, -0.4);
    let (w, h) = (48u32, 48u32);
    let cs = camera_state(&cam, w, h, 24.0, 24.0, 24.0);
    let settings = whole_frame(w, h);
    let mut fb = vec![0u32; (w * h) as usize];
    render_sky_fill(&mut fb, w as usize, w, h, &cs, &settings, &sky);
    assert!(
        fb.iter().all(|&c| c >> 24 == 0x80),
        "every pixel sky-filled with the brightness byte set"
    );
    let top = fb[0];
    let bottom = fb[(h - 1) as usize * w as usize];
    assert_ne!(top, bottom, "sky gradient should vary with elevation");
}

#[test]
fn side_shades_darken_hit_face() {
    let vxl =
        from_dense(16, |_, _, z| (z >= 8).then_some(0x80_FF_FF_FF));
    let grid = GridView::from_single_vxl(&vxl);
    let cam = Camera {
        pos: [8.0, 8.0, 2.0],
        right: [1.0, 0.0, 0.0],
        down: [0.0, 1.0, 0.0],
        forward: [0.0, 0.0, 1.0],
    };
    let centre = 16 * 32 + 16;
    let (plain, _) = render_brickmap(grid, &cam, 32, 32);
    let env = DdaEnv {
        sky: None,
        fog_color: 0,
        fog_max_dist: 0.0,
        side_shades: [0, 0, 0, 0, 0x40, 0],
        materials: None,
        terrain_materials: &[],
        ..DdaEnv::default()
    };
    let (shaded, _) = render_brickmap_env(grid, &cam, 32, 32, &env);
    let lum = |c: u32| (c & 0xff) + ((c >> 8) & 0xff) + ((c >> 16) & 0xff);
    assert!(
        lum(shaded[centre]) < lum(plain[centre]),
        "side-shaded face {:08x} not darker than {:08x}",
        shaded[centre],
        plain[centre]
    );
}

#[test]
fn brickmap_approximates_dense_reference() {
    let vxl = from_dense(64, |x, y, z| {
        let surf = 30 + ((x / 5 + y / 7) % 11);
        let ground = z >= surf;
        let block = (20..=24).contains(&z) && (10..20).contains(&x) && (40..50).contains(&y);
        (ground || block).then_some(0x80_30_50_70 + (x ^ y) % 0x40)
    });
    let grid = GridView::from_single_vxl(&vxl);

    let (w, h) = (80u32, 80u32);
    let poses = [
        Camera::orbit(0.6, 0.5, 90.0, [32.0, 32.0, 40.0]),
        Camera::orbit(2.1, 0.2, 70.0, [32.0, 32.0, 35.0]),
        Camera::orbit(-1.0, 0.9, 120.0, [32.0, 32.0, 45.0]),
    ];
    let n = (w * h) as usize;
    for (i, cam) in poses.iter().enumerate() {
        let (fb_b, zb_b) = render_brickmap(grid, cam, w, h);
        let (fb_r, _zb_r) = render_reference(grid, cam, w, h);

        let cov_b = fb_b.iter().filter(|&&c| c != 0).count();
        let cov_r = fb_r.iter().filter(|&&c| c != 0).count();
        assert!(cov_b > 200, "pose {i} rendered ~empty (cov {cov_b})");
        let cov_diff = cov_b.abs_diff(cov_r);
        assert!(
            cov_diff * 100 <= n,
            "pose {i} coverage diverged: brick {cov_b} vs dense {cov_r}"
        );

        let diffs = fb_b.iter().zip(&fb_r).filter(|(a, b)| a != b).count();
        assert!(
            diffs * 100 <= n * 3,
            "pose {i} too many pixel diffs vs dense: {diffs}/{n}"
        );

        for k in 0..n {
            if fb_b[k] != 0 {
                assert!(zb_b[k].is_finite(), "pose {i} px {k} non-finite depth");
            }
        }
    }
}

#[test]
fn baked_brightness_darkens_color() {
    let dim =
        from_dense(16, |_, _, z| (z >= 8).then_some(0x40_FF_FF_FF));
    let grid = GridView::from_single_vxl(&dim);
    let cam = Camera {
        pos: [8.0, 8.0, 2.0],
        right: [1.0, 0.0, 0.0],
        down: [0.0, 1.0, 0.0],
        forward: [0.0, 0.0, 1.0],
    };
    let (fb, _) = render_brickmap(grid, &cam, 32, 32);
    let centre = 16 * 32 + 16;

    assert_eq!(fb[centre], 0x80_7F_7F_7F, "got {:08x}", fb[centre]);

    let full =
        from_dense(16, |_, _, z| (z >= 8).then_some(0x80_FF_FF_FF));
    let gridf = GridView::from_single_vxl(&full);
    let (fbf, _) = render_brickmap(gridf, &cam, 32, 32);
    assert_eq!(fbf[centre], 0x80_FF_FF_FF, "got {:08x}", fbf[centre]);
}

#[test]
fn cross_chunk_lookdown_sees_lower_stacked_floor() {
    const FLOOR_LOCAL_Z: u32 = 40;
    const FLOOR_COL: u32 = 0x80_22_88_44;
    let upper = from_dense(32, |_, _, _| None);
    let lower = from_dense(32, |_, _, z| {
        (z >= FLOOR_LOCAL_Z).then_some(FLOOR_COL)
    });
    let v_up = GridView::from_single_vxl(&upper);
    let v_lo = GridView::from_single_vxl(&lower);

    let chunks = [Some(v_up), Some(v_lo)];
    let cg = ChunkGrid {
        chunks: &chunks,
        origin_chunk_xy: [0, 0],
        origin_chunk_z: 0,
        chunks_x: 1,
        chunks_y: 1,
        chunks_z: 2,
    };
    let grid = GridView::from_chunk_grid(&cg, 32);

    let cam = Camera {
        pos: [16.0, 16.0, 100.0],
        right: [1.0, 0.0, 0.0],
        down: [0.0, 1.0, 0.0],
        forward: [0.0, 0.0, 1.0],
    };
    let (w, h) = (48u32, 48u32);
    let (fb, zb) = render_brickmap(grid, &cam, w, h);
    let centre = 24 * 48 + 24;
    assert!(
        fb[centre] & 0x00ff_ffff == FLOOR_COL & 0x00ff_ffff,
        "centre ray must reach the lower-chunk floor (got {:08x})",
        fb[centre]
    );

    let expected = 296.0 - 100.0;
    assert!(
        (zb[centre] - expected).abs() < 2.0,
        "look-down depth {} not ≈ {expected}",
        zb[centre]
    );
}

#[test]
fn cross_chunk_xy_floor_is_seamless() {
    let mk = || {
        from_dense(32, |_, _, z| (z >= 20).then_some(0x80_50_50_50))
    };
    let (c0, c1) = (mk(), mk());
    let v0 = GridView::from_single_vxl(&c0);
    let v1 = GridView::from_single_vxl(&c1);
    let chunks = [Some(v0), Some(v1)];
    let cg = ChunkGrid {
        chunks: &chunks,
        origin_chunk_xy: [0, 0],
        origin_chunk_z: 0,
        chunks_x: 2,
        chunks_y: 1,
        chunks_z: 1,
    };
    let grid = GridView::from_chunk_grid(&cg, 32);

    let cam = Camera {
        pos: [32.0, 16.0, 4.0],
        right: [1.0, 0.0, 0.0],
        down: [0.0, 1.0, 0.0],
        forward: [0.0, 0.0, 1.0],
    };
    let (w, h) = (64u32, 64u32);
    let mask = render_mask(grid, &cam, w, h);

    let row = (h / 2) as usize * w as usize;
    let left = (0..w as usize / 2).filter(|&x| mask[row + x]).count();
    let right = (w as usize / 2..w as usize)
        .filter(|&x| mask[row + x])
        .count();
    assert!(
        left > 5 && right > 5,
        "seam not continuous: left={left} right={right}"
    );
}

fn render_mask_mip(grid: GridView<'_>, camera: &Camera, w: u32, h: u32, mip: u32) -> Vec<bool> {
    let n = (w as usize) * (h as usize);
    let mut fb = vec![0u32; n];
    let mut zb = vec![f32::INFINITY; n];
    let settings = whole_frame(w, h);
    {
        let mut sink = RasterSink::new(&mut fb, &mut zb);
        render_dda(
            camera,
            &settings,
            grid,
            w as usize,
            &DdaEnv::default(),
            mip,
            &mut sink,
        );
    }
    fb.iter().map(|&c| c != 0).collect()
}

#[test]
fn mip_render_is_coarse_but_complete() {
    let vxl = with_mips(64, 4, |x, y, z| {
        let surf = 24 + ((x / 3 + y / 5) % 17);
        (z >= surf).then_some(0x80_50_70_90)
    });
    let grid = GridView::from_single_vxl(&vxl);
    assert!(grid.mip_count() >= 3, "need mips built for this test");
    let (w, h) = (96u32, 96u32);
    let cam = Camera::orbit(0.7, 0.6, 110.0, [32.0, 32.0, 36.0]);

    let m0 = render_mask_mip(grid, &cam, w, h, 0);
    let m2 = render_mask_mip(grid, &cam, w, h, 2);

    let c0 = m0.iter().filter(|&&b| b).count();
    let c2 = m2.iter().filter(|&&b| b).count();
    assert!(c0 > 200 && c2 > 200, "both mips visible (c0={c0} c2={c2})");

    let ratio = c2 as f32 / c0 as f32;
    assert!(
        (0.7..1.4).contains(&ratio),
        "mip-2 coverage {c2} vs mip-0 {c0} (ratio {ratio:.2}) diverged"
    );
}

#[test]
fn parallel_matches_sequential() {
    let vxl = from_dense(64, |x, y, z| {
        let surf = 28 + ((x / 4 + y / 6) % 13);
        (z >= surf).then_some(0x80_40_60_80 + (x ^ y) % 0x30)
    });
    let grid = GridView::from_single_vxl(&vxl);
    let (w, h) = (96u32, 96u32);
    let cam = Camera::orbit(0.8, 0.55, 100.0, [32.0, 32.0, 40.0]);
    let env = DdaEnv {
        sky: None,
        fog_color: 0x00_20_30_40,
        fog_max_dist: 120.0,
        side_shades: [0, 0, 0, 0, 0x30, 0x10],
        materials: None,
        terrain_materials: &[],
        ..DdaEnv::default()
    };

    let (seq_fb, seq_zb) = render_brickmap_env(grid, &cam, w, h, &env);

    let n = (w * h) as usize;
    let mut par_fb = vec![0u32; n];
    let mut par_zb = vec![f32::INFINITY; n];
    let settings = whole_frame(w, h);
    let (cache, mip) = local_cache(&grid, 0);
    render_dda_parallel(
        &cam,
        &settings,
        grid,
        &mut par_fb,
        &mut par_zb,
        w as usize,
        &env,
        &cache,
        mip,
    );
    assert!(par_fb == seq_fb, "parallel colour differs from sequential");
    assert!(
        par_zb
            .iter()
            .zip(&seq_zb)
            .all(|(a, b)| a.to_bits() == b.to_bits()),
        "parallel depth differs from sequential"
    );
}

#[test]
fn cliff_side_is_solid_not_see_through() {
    const TOP_Z: u32 = 50;
    const COL: u32 = 0x80_77_88_99;
    let vxl = from_dense(8, |_, _, z| (z >= TOP_Z).then_some(COL));
    let grid = GridView::from_single_vxl(&vxl);

    assert_eq!(grid.voxel_color(4, 4, TOP_Z), Some(VoxColor(COL)));

    assert_eq!(grid.voxel_color(4, 4, 150), None);

    assert_eq!(
        grid.surface_color(4, 4, 150, FALLBACK),
        Some(VoxColor(COL))
    );

    assert_eq!(grid.surface_color(4, 4, 10, FALLBACK), None);
}

#[test]
fn camera_inside_solid_hits_everywhere() {
    let vxl = from_dense(16, |_, _, _| Some(0x80_55_55_55));
    let grid = GridView::from_single_vxl(&vxl);
    let cam = Camera {
        pos: [8.0, 8.0, 128.0],
        right: [1.0, 0.0, 0.0],
        down: [0.0, 1.0, 0.0],
        forward: [0.0, 0.0, 1.0],
    };
    let (w, h) = (32u32, 32u32);
    let mask = render_mask(grid, &cam, w, h);
    assert!(
        mask.iter().all(|&b| b),
        "every ray must hit when the camera is inside solid"
    );
}

#[test]
fn single_voxel_silhouette_has_no_notch() {
    const C: u32 = 0x80_FF_80_40;
    let vxl = from_dense(16, |x, y, z| {
        (x == 8 && y == 8 && z == 8).then_some(C)
    });
    let grid = GridView::from_single_vxl(&vxl);

    let cam = Camera::orbit(0.7, 0.6, 4.0, [8.5, 8.5, 8.5]);
    let (w, h) = (96u32, 96u32);
    let mask = render_mask(grid, &cam, w, h);

    let hits = mask.iter().filter(|&&b| b).count();
    assert!(
        hits > 30,
        "silhouette too small to be meaningful: {hits} px"
    );
    assert!(
        rows_have_no_holes(&mask, w, h),
        "row-interior gap in single-voxel silhouette (notch)"
    );
    assert!(
        cols_have_no_holes(&mask, w, h),
        "column-interior gap in single-voxel silhouette (notch)"
    );
}
