//! Cutting a sphere out of the map.
use roxlap_core::grid_view::GridView;
use roxlap_core::meltsphere::{
    can_cut, lightvox, meltsphere, sphere_box, MeltsphereOutput, PowerTables, SphereBox, SETSPHMAXRAD,
};
use roxlap_core::world_query::{getcube, Cube};

#[test]
fn lightvox_neutral_brightness_passes_rgb_through() {
    assert_eq!(lightvox(0x80ff_4030), 0x00ff_4030);
    assert_eq!(lightvox(0x80ff_ffff), 0x00ff_ffff);
    assert_eq!(lightvox(0x8000_0000), 0x0000_0000);
}

#[test]
fn lightvox_zero_alpha_blackens() {
    assert_eq!(lightvox(0x00ff_ffff), 0);
    assert_eq!(lightvox(0x0080_4020), 0);
}

#[test]
fn lightvox_clamps_at_255() {
    assert_eq!(lightvox(0xffff_ffff), 0x00ff_ffff);

    assert_eq!(lightvox(0xc080_8080), 0x00c0_c0c0);

    assert_eq!(lightvox(0xc0ff_4030), 0x00ff_6048);
}

#[test]
fn lightvox_half_brightness() {
    assert_eq!(lightvox(0x4080_8080), 0x0040_4040);
}

#[test]
fn factr_known_primes_have_zero_factor() {
    let pt = PowerTables::new();

    for &p in &[
        2u32, 3, 5, 7, 11, 13, 17, 19, 23, 29, 31, 37, 41, 43, 47, 251,
    ] {
        assert_eq!(
            pt.factr[p as usize][0], 0,
            "prime {p} should have factr[{p}][0] == 0"
        );
    }
}

#[test]
fn factr_composites_decompose_to_their_factors() {
    let pt = PowerTables::new();

    let cases = [
        (4u32, 2u32, 2u32),
        (6, 3, 2),
        (8, 4, 2),
        (9, 3, 3),
        (10, 5, 2),
        (12, 6, 2),
        (15, 3, 5),
        (21, 3, 7),
        (25, 5, 5),
        (27, 3, 9),
        (35, 5, 7),
        (49, 7, 7),
        (121, 11, 11),
        (169, 13, 13),

        (255, 3, 85),
    ];
    for (z, a, b) in cases {
        assert_eq!(
            pt.factr[z as usize],
            [a, b],
            "factr[{z}] should be [{a}, {b}]"
        );
    }
}

#[test]
fn factr_invariant_holds_for_all_composites() {
    let pt = PowerTables::new();
    for z in 2..SETSPHMAXRAD as u32 {
        let a = pt.factr[z as usize][0];
        if a != 0 {
            let b = pt.factr[z as usize][1];
            assert_eq!(a * b, z, "factr[{z}] = [{a}, {b}], product {}", a * b);
        }
    }
}

/// Distances raised to `curpow`, built from the factor table, with the
/// largest finite number past the end.
fn powers(tables: &PowerTables, hitrad: i32, curpow: f32) -> Vec<f32> {
    let mut buf = vec![0.0f32; SETSPHMAXRAD];
    let h = (hitrad.max(0) as usize).min(SETSPHMAXRAD - 2);
    if h >= 1 {
        buf[1] = 1.0;
    }
    for i in 2..=h {
        let [a, b] = tables.factr[i];
        buf[i] = if a == 0 {
            ((i as f64).ln() * f64::from(curpow)).exp() as f32
        } else {
            buf[a as usize] * buf[b as usize]
        };
    }
    buf[h + 1] = f32::MAX;
    buf
}

/// How far the sphere reaches in each column of its box.
fn reach_of(b: &SphereBox, hit: [i32; 3], hitrad: i32, buf: &[f32]) -> Vec<i32> {
    let mut reach = Vec::new();
    let mut sq = 0usize;
    for x in b.xs..=b.xe {
        let ff = buf[hitrad as usize] - buf[(x - hit[0]).unsigned_abs() as usize];
        for y in b.ys..=b.ye {
            let f = ff - buf[(y - hit[1]).unsigned_abs() as usize];
            if f > 0.0 {
                while buf[sq] < f {
                    sq += 1;
                }
                while sq > 0 && buf[sq] >= f {
                    sq -= 1;
                }
                reach.push(sq as i32);
            } else {
                reach.push(-1);
            }
        }
    }
    reach
}

fn cut(
    slab_buf: &[u8],
    column_offsets: &[u32],
    vsid: u32,
    hit: [i32; 3],
    hitrad: i32,
    curpow: f32,
    tables: &PowerTables,
) -> Option<MeltsphereOutput> {
    let mips = [0usize, column_offsets.len()];
    let grid = GridView::from_parts(vsid, slab_buf, column_offsets, &mips);
    let reach = match sphere_box(vsid, hit, hitrad) {
        Some(b) => reach_of(&b, hit, hitrad, &powers(tables, hitrad, curpow)),
        None => Vec::new(),
    };
    meltsphere(&grid, hit, hitrad, &reach)
}

fn centroid(hit: [i32; 3], out: &MeltsphereOutput) -> [f32; 3] {
    let f = (1.0f64 / f64::from(out.weight.cw)) as f32;
    [
        hit[0] as f32 + out.weight.cx as f32 * f,
        hit[1] as f32 + out.weight.cy as f32 * f,
        hit[2] as f32 + out.weight.cz as f32 * f,
    ]
}

fn synth_world(paints: &[(i32, i32, i32, u32)]) -> (Vec<u8>, Vec<u32>) {
    const VSID: u32 = 16;

    let empty_col: [u8; 8] = [0, 255, 255, 0, 0xff, 0xff, 0xff, 0x80];
    let n_cols = (VSID * VSID) as usize;
    let mut data: Vec<u8> = Vec::new();
    let mut offsets: Vec<u32> = Vec::with_capacity(n_cols + 1);

    let mut overrides: std::collections::HashMap<usize, (i32, u32)> =
        std::collections::HashMap::new();
    for &(x, y, z, c) in paints {
        let idx = y as usize * VSID as usize + x as usize;
        overrides.insert(idx, (z, c));
    }

    for i in 0..n_cols {
        offsets.push(u32::try_from(data.len()).unwrap());
        if let Some(&(z, c)) = overrides.get(&i) {
            let z_u8 = z as u8;
            data.extend_from_slice(&[2, z_u8, z_u8, 0]);
            data.extend_from_slice(&c.to_le_bytes());
            data.extend_from_slice(&[0, 255, 255, z_u8 + 1]);
            data.extend_from_slice(&[0xff, 0xff, 0xff, 0x80]);
        } else {
            data.extend_from_slice(&empty_col);
        }
    }
    offsets.push(u32::try_from(data.len()).unwrap());
    (data, offsets)
}

#[test]
fn meltsphere_empty_region_returns_none() {
    let (buf, off) = synth_world(&[]);
    let pt = PowerTables::new();
    let r = cut(&buf, &off, 16, [8, 8, 4], 2, 2.0, &pt);
    assert!(r.is_none(), "expected None, got {r:?}");
}

#[test]
fn meltsphere_single_voxel_at_center_extracts_one() {
    let (buf, off) = synth_world(&[(8, 8, 4, 0x8011_2233)]);
    let pt = PowerTables::new();
    let out = cut(&buf, &off, 16, [8, 8, 4], 2, 2.0, &pt)
        .expect("sphere should hit the painted voxel");

    assert_eq!(out.kv6.voxels.len(), 1);
    let v = out.kv6.voxels[0];

    assert_eq!(v.col, 0x0011_2233);
    assert_eq!(v.vis, 63);
    assert_eq!(v.dir, 0);

    assert_eq!(v.z, 2);

    assert_eq!(out.kv6.xsiz, 5);
    assert_eq!(out.kv6.ysiz, 5);
    assert_eq!(out.kv6.zsiz, 5);

    let xsum: u32 = out.kv6.xlen.iter().sum();
    assert_eq!(xsum, 1);

    assert_eq!(out.kv6.ylen.len(), 5);
    for row in &out.kv6.ylen {
        assert_eq!(row.len(), 5);
    }
}

#[test]
fn meltsphere_returns_none_when_aabb_off_map() {
    let (buf, off) = synth_world(&[]);
    let pt = PowerTables::new();

    let r = cut(&buf, &off, 16, [-100, 8, 4], 2, 2.0, &pt);
    assert!(r.is_none());
}

#[test]
fn meltsphere_centroid_is_on_painted_voxel() {
    let (buf, off) = synth_world(&[(8, 8, 4, 0x8011_2233)]);
    let pt = PowerTables::new();
    let out = cut(&buf, &off, 16, [8, 8, 4], 2, 2.0, &pt).unwrap();

    assert_eq!(centroid([8, 8, 4], &out)[0].to_bits(), 8.0f32.to_bits());
    assert_eq!(centroid([8, 8, 4], &out)[1].to_bits(), 8.0f32.to_bits());
    assert_eq!(centroid([8, 8, 4], &out)[2].to_bits(), 4.0f32.to_bits());
    assert_eq!(out.weight.cw, 1);
}

#[test]
fn meltsphere_skips_unexposed_solid_but_counts_for_centroid() {
    let (buf, off) = synth_world(&[(8, 8, 4, 0x8000_ff00), (9, 8, 4, 0x8000_00ff)]);
    let pt = PowerTables::new();
    let out = cut(&buf, &off, 16, [8, 8, 4], 2, 2.0, &pt).unwrap();
    assert_eq!(out.kv6.voxels.len(), 2);
    assert_eq!(out.weight.cw, 2);

    let expected_px = 8.0f32 + 1.0 * (1.0 / 2.0f64) as f32;
    assert_eq!(centroid([8, 8, 4], &out)[0].to_bits(), expected_px.to_bits());
}

#[test]
fn meltsphere_xlen_ylen_partition_voxels() {
    let paints = [
        (8, 8, 4, 0x8011_2233),
        (9, 8, 4, 0x8044_5566),
        (8, 9, 4, 0x8077_8899),
    ];
    let (buf, off) = synth_world(&paints);
    let pt = PowerTables::new();
    let out = cut(&buf, &off, 16, [8, 8, 4], 2, 2.0, &pt).unwrap();
    assert_eq!(out.kv6.voxels.len(), 3);
    let xsum: u32 = out.kv6.xlen.iter().sum();
    assert_eq!(xsum, 3);
    for (x_i, ylen_row) in out.kv6.ylen.iter().enumerate() {
        let row_sum: u32 = ylen_row.iter().map(|&v| u32::from(v)).sum();
        assert_eq!(
            row_sum, out.kv6.xlen[x_i],
            "ylen row {x_i} sum {row_sum} != xlen[{x_i}] {}",
            out.kv6.xlen[x_i]
        );
    }
}

#[test]
fn sphere_box_is_clipped_to_the_map() {
    assert_eq!(
        sphere_box(16, [1, 14, 250], 4),
        Some(SphereBox { xs: 0, xe: 5, ys: 10, ye: 15, zs: 246, ze: 254 })
    );
    assert_eq!(sphere_box(16, [8, 8, -10], 4), None);
    assert_eq!(sphere_box(16, [8, 30, 4], 4), None);
}

#[test]
fn solid_without_colour_weighs_but_is_not_cut_out() {
    // One column of solid from height 2 on; only heights 2 and 3 have a
    // colour of their own.
    let mut slab: Vec<u8> = vec![0, 2, 3, 0];
    slab.extend_from_slice(&0x8011_2233u32.to_le_bytes());
    slab.extend_from_slice(&0x8044_5566u32.to_le_bytes());
    let offsets = [0u32, slab.len() as u32];
    let mips = [0usize, 2];
    let grid = GridView::from_parts(1, &slab, &offsets, &mips);
    assert_eq!(getcube(&grid, 0, 0, 1), Cube::Air);
    assert_eq!(getcube(&grid, 0, 0, 2), Cube::Color(0x8011_2233));
    assert_eq!(getcube(&grid, 0, 0, 5), Cube::UnexposedSolid);
    let out = meltsphere(&grid, [0, 0, 4], 3, &[2]).expect("the column has colours");
    assert_eq!(out.kv6.voxels.len(), 2);
    assert_eq!(out.kv6.voxels[0].z, 1);
    assert_eq!(out.kv6.voxels[1].z, 2);
    assert_eq!(out.weight.cw, 5);
    assert_eq!((out.weight.cx, out.weight.cy, out.weight.cz), (0, 0, 0));
}

#[test]
fn a_sphere_needs_only_the_columns_that_it_touches() {
    // The second column breaks off.
    let slab = [0u8, 2, 2, 0, 0x33, 0x22, 0x11, 0x80, 9, 2, 2, 0];
    let offsets = [0u32, 8, 0, 0, 12];
    let mips = [0usize, 4];
    let grid = GridView::from_parts(2, &slab, &offsets, &mips);
    assert!(!can_cut(&grid, [0, 0, 4], 3, &[2, 2, 2, 2]));
    assert!(can_cut(&grid, [0, 0, 4], 3, &[2, 2, -1, 2]));
    let out = meltsphere(&grid, [0, 0, 4], 3, &[2, 2, -1, 2]).expect("it has colours");
    assert_eq!(out.kv6.voxels.len(), 3);
    // One reach for each column of the box, and none past the limit.
    assert!(!can_cut(&grid, [0, 0, 4], 3, &[2, 2, -1]));
    assert!(!can_cut(&grid, [0, 0, 4], 3, &[2, 256, -1, 2]));
    // The corners leave the range, or the sphere misses the map.
    assert!(!can_cut(&grid, [i32::MAX, 0, 4], 3, &[]));
    assert!(can_cut(&grid, [900, 0, 4], 3, &[]));
    assert!(!can_cut(&grid, [400, 0, 4], 500, &[1, 1, 1, 1]));
}
