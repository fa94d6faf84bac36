//! The camera in fixed point, for one frame.
use roxlap_core::opticast_prelude::{derive_prelude, recompute_camera_chunk, OpticastPrelude, PREC};

fn bits2(a: [f32; 2]) -> [u32; 2] {
    a.map(f32::to_bits)
}

/// What the prelude reads of a camera.
struct Seen {
    pos: [f32; 3],
    forward: [f32; 3],
}

fn oracle_north_state() -> Seen {
    Seen {
        pos: [1024.0, 1024.0, 128.0],
        forward: [0.0, 1.0, 0.0],
    }
}

fn prelude(s: &Seen, vsid: u32, mips: u32, mip_dist: i32, max_dist: i32) -> OpticastPrelude {
    let li_pos = s.pos.map(|p| p.floor() as i32);
    let pos_z = (s.pos[2] * PREC as f32 - 0.5).round_ties_even() as i64 as i32;
    derive_prelude(s.forward[2] < 0.0, li_pos, pos_z, vsid, mips, mip_dist, max_dist)
}

/// Distances to the column's far and near edge along one axis.
fn frac(pos: f32, li_pos: i32) -> [f32; 2] {
    let f = pos - li_pos as f32;
    [1.0 - f, f]
}

#[test]
fn integer_position_and_column_index() {
    let s = oracle_north_state();
    let p = prelude(&s, 2048, 1, 4, 1024);
    assert_eq!(p.li_pos, [1024, 1024, 128]);
    assert_eq!(p.column_index, 1024 * 2048 + 1024);
    assert_eq!(p.forward_z_sign, 1);
}

#[test]
fn integer_position_pos_at_voxel_centre() {
    let s = Seen {
        pos: [10.25, 20.75, 30.5],
        forward: [0.0, 1.0, 0.0],
    };
    let p = prelude(&s, 2048, 1, 4, 1024);
    assert_eq!(p.li_pos, [10, 20, 30]);

    assert_eq!(bits2(frac(s.pos[0], p.li_pos[0])), bits2([0.75, 0.25]));
    assert_eq!(bits2(frac(s.pos[1], p.li_pos[1])), bits2([0.25, 0.75]));

    let want_pz = (30.5_f32 * PREC as f32 - 0.5).round_ties_even() as i32;
    assert_eq!(p.pos_z, want_pz);
}

#[test]
fn forward_z_sign_negative_when_looking_down() {
    let s = Seen {
        pos: [0.0, 0.0, 0.0],
        forward: [0.0, 0.0, -1.0],
    };
    let p = prelude(&s, 2048, 1, 4, 1024);
    assert_eq!(p.forward_z_sign, -1);
}

#[test]
fn y_lookup_table_for_pos_z_at_voxel_grid() {
    let s = oracle_north_state();
    let p = prelude(&s, 2048, 1, 4, 1024);

    assert_eq!(p.y_lookup.len(), 516);

    assert_eq!(p.y_lookup[0], 2048);

    assert_eq!(p.y_lookup[128], 0);

    assert_eq!(p.y_lookup[129], 65520);
}

#[test]
fn y_lookup_two_mip_levels_have_correct_lengths() {
    let s = oracle_north_state();
    let p = prelude(&s, 2048, 2, 4, 1024);

    assert_eq!(p.y_lookup.len(), 516 + 260);
}

#[test]
fn recompute_camera_chunk_single_chunk_in_bounds_is_no_op() {
    let s = oracle_north_state();
    let mut p = prelude(&s, 2048, 1, 4, 1024);
    let before_idx = p.camera_chunk_idx;
    let before_local = p.camera_local_xyz;
    recompute_camera_chunk(&mut p, 2048);
    assert_eq!(p.camera_chunk_idx, before_idx);
    assert_eq!(p.camera_local_xyz, before_local);
    assert_eq!(p.camera_chunk_idx, [0, 0, 0]);
    assert_eq!(p.camera_local_xyz, [1024, 1024, 128]);
}

#[test]
fn recompute_camera_chunk_multi_chunk_splits_li_pos() {
    let s = Seen {
        pos: [1024.0, 100.0, 50.0],
        forward: [0.0, 1.0, 0.0],
    };
    let mut p = prelude(&s, 2048, 1, 4, 1024);
    recompute_camera_chunk(&mut p, 128);
    assert_eq!(p.camera_chunk_idx, [8, 0, 0]);
    assert_eq!(p.camera_local_xyz, [0, 100, 50]);
}

#[test]
fn recompute_camera_chunk_oob_xy_yields_negative_chunk_idx() {
    let s = Seen {
        pos: [-5.0, 100.0, 50.0],
        forward: [0.0, 1.0, 0.0],
    };
    let mut p = prelude(&s, 2048, 1, 4, 1024);
    recompute_camera_chunk(&mut p, 128);
    assert!(!p.in_bounds_xy);

    assert_eq!(p.camera_chunk_idx, [-1, 0, 0]);
    assert_eq!(p.camera_local_xyz, [123, 100, 50]);
}

#[test]
fn xmip_and_maxscandist_clamping() {
    let s = oracle_north_state();

    let p = prelude(&s, 2048, 1, 0, 99999);
    assert_eq!(p.x_mip, 4 * PREC);

    assert_eq!(p.max_scan_dist, 4095_i32.wrapping_mul(PREC));
    let q = prelude(&s, 2048, 1, 16, 0);
    assert_eq!(q.x_mip, 16 * PREC);

    assert_eq!(q.max_scan_dist, PREC);

    let r = prelude(&s, 2048, 1, 4, 1024);
    assert_eq!(r.max_scan_dist, 1024 * PREC);
}

#[test]
fn rows_step_by_one_voxel() {
    let p = prelude(&oracle_north_state(), 2048, 1, 4, 1024);
    for i in 0..515usize {
        assert_eq!((p.y_lookup[i] - p.y_lookup[i + 1]) & 0xffff, 16);
    }
}
