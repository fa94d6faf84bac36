//! The air that a camera stands in.
use roxlap_core::column_walk::{camera_chunk_air_gap, camera_column_air_gap};
use roxlap_core::grid_view::{ChunkGrid, GridView};
use roxlap_core::opticast_prelude::OpticastPrelude;

fn single_slab_5_15() -> Vec<u8> {
    vec![0, 5, 14, 0]
}

fn two_slabs_air_at_20_30() -> Vec<u8> {
    let mut col = Vec::new();

    col.extend_from_slice(&[6, 10, 14, 0]);

    col.resize(col.len() + 5 * 4, 0xab);

    col.extend_from_slice(&[0, 30, 39, 20]);

    col.resize(col.len() + 10 * 4, 0xcd);
    col
}

#[test]
fn camera_above_first_slab_returns_zero_to_z1() {
    let col = single_slab_5_15();
    assert_eq!(camera_column_air_gap(&col, 0, false), Some((0, 5, 0)));
    assert_eq!(camera_column_air_gap(&col, 4, false), Some((0, 5, 0)));
}

#[test]
fn camera_inside_solid_returns_none() {
    let col = single_slab_5_15();

    assert_eq!(camera_column_air_gap(&col, 10, false), None);

    assert_eq!(camera_column_air_gap(&col, 100, false), None);
}

#[test]
fn camera_above_first_slab_in_two_slab_column() {
    let col = two_slabs_air_at_20_30();

    assert_eq!(camera_column_air_gap(&col, 5, false), Some((0, 10, 0)));
}

#[test]
fn camera_in_air_gap_between_slabs() {
    let col = two_slabs_air_at_20_30();

    assert_eq!(camera_column_air_gap(&col, 25, false), Some((20, 30, 24)));
    assert_eq!(camera_column_air_gap(&col, 20, false), Some((20, 30, 24)));
    assert_eq!(camera_column_air_gap(&col, 29, false), Some((20, 30, 24)));
}

#[test]
fn camera_in_first_slabs_hidden_interior_returns_none() {
    let col = two_slabs_air_at_20_30();

    assert_eq!(camera_column_air_gap(&col, 12, false), None);
}

#[test]
fn camera_in_last_slab_returns_none() {
    let col = two_slabs_air_at_20_30();

    assert_eq!(camera_column_air_gap(&col, 35, false), None);

    assert_eq!(camera_column_air_gap(&col, 1000, false), None);
}

#[test]
fn malformed_too_short_returns_none() {
    assert_eq!(camera_column_air_gap(&[1, 2, 3], 10, false), None);
}

#[test]
fn malformed_nextptr_overruns_returns_none() {
    let col = vec![99, 10, 14, 0];

    assert_eq!(camera_column_air_gap(&col, 100, false), None);
}

#[test]
fn camera_chunk_air_gap_inbounds_matches_column_path() {
    let col = two_slabs_air_at_20_30();
    let column_offsets = [0u32, col.len() as u32];
    let mip_base = [0usize, column_offsets.len()];
    let grid = GridView::from_parts(1, &col, &column_offsets, &mip_base);

    let prelude = OpticastPrelude {
        forward_z_sign: 1,
        li_pos: [0, 0, 25],
        column_index: 0,
        pos_z: 0,
        y_lookup: Vec::new(),
        mip_levels: 1,
        x_mip: 0,
        max_scan_dist: 0,
        cx: 0,
        cy: 0,
        in_bounds_xy: true,
        camera_chunk_idx: [0, 0, 0],
        camera_local_xyz: [0, 0, 25],
    };
    let chunk_path = camera_chunk_air_gap(grid, &prelude, false);
    let column_path = camera_column_air_gap(&col, 25, false);
    assert_eq!(chunk_path, column_path);
    assert_eq!(chunk_path, Some((20, 30, 24)));
}

#[test]
fn camera_chunk_air_gap_oob_synthesises_bedrock_seed() {
    let mip_base = [0usize, 0];
    let grid = GridView::from_parts(1, &[], &[], &mip_base);
    let prelude = OpticastPrelude {
        forward_z_sign: 1,
        li_pos: [-5, 0, 30],
        column_index: u32::MAX,
        pos_z: 0,
        y_lookup: Vec::new(),
        mip_levels: 1,
        x_mip: 0,
        max_scan_dist: 0,
        cx: -5,
        cy: 0,
        in_bounds_xy: false,
        camera_chunk_idx: [0, 0, 0],
        camera_local_xyz: [-5, 0, 30],
    };
    assert_eq!(
        camera_chunk_air_gap(grid, &prelude, true),
        Some((0, 255, 0))
    );
}

#[test]
fn camera_chunk_air_gap_inbounds_in_solid_returns_none() {
    let col = single_slab_5_15();
    let column_offsets = [0u32, col.len() as u32];
    let mip_base = [0usize, column_offsets.len()];
    let grid = GridView::from_parts(1, &col, &column_offsets, &mip_base);
    let prelude = OpticastPrelude {
        forward_z_sign: 1,
        li_pos: [0, 0, 10],
        column_index: 0,
        pos_z: 0,
        y_lookup: Vec::new(),
        mip_levels: 1,
        x_mip: 0,
        max_scan_dist: 0,
        cx: 0,
        cy: 0,
        in_bounds_xy: true,
        camera_chunk_idx: [0, 0, 0],
        camera_local_xyz: [0, 0, 10],
    };
    assert_eq!(camera_chunk_air_gap(grid, &prelude, false), None);
}

#[test]
fn below_bedrock_synthesises_air_when_flag_set() {
    let mut col = Vec::new();
    col.extend_from_slice(&[2, 200, 200, 0]);
    col.extend_from_slice(&[0xff; 4]);
    col.extend_from_slice(&[0, 255, 255, 201]);
    col.extend_from_slice(&[0xff; 4]);

    assert_eq!(camera_column_air_gap(&col, 261, false), None);

    assert_eq!(camera_column_air_gap(&col, 261, true), Some((201, 255, 8)));
}

#[test]
fn a_camera_over_an_empty_chunk_or_column_is_in_air() {
    let col = single_slab_5_15();
    let column_offsets = [0u32, col.len() as u32];
    let mip_base = [0usize, column_offsets.len()];
    let chunk = GridView::from_parts(1, &col, &column_offsets, &mip_base);
    let chunks = [Some(chunk), None];
    let cg = ChunkGrid {
        chunks: &chunks,
        origin_chunk_xy: [0, 0],
        origin_chunk_z: 0,
        chunks_x: 2,
        chunks_y: 1,
        chunks_z: 1,
    };
    let grid = GridView::from_chunk_grid(&cg, 1);
    let at = |x: i32, y: i32| OpticastPrelude {
        forward_z_sign: 1,
        li_pos: [x, 0, 10],
        column_index: 0,
        pos_z: 0,
        y_lookup: Vec::new(),
        mip_levels: 1,
        x_mip: 0,
        max_scan_dist: 0,
        cx: x,
        cy: 0,
        in_bounds_xy: true,
        camera_chunk_idx: [x, 0, 0],
        camera_local_xyz: [0, y, 10],
    };
    // Solid in the first chunk, an empty slot in the second.
    assert_eq!(camera_chunk_air_gap(grid, &at(0, 0), false), None);
    assert_eq!(camera_chunk_air_gap(grid, &at(1, 0), false), Some((0, 255, 0)));
    // A column that the chunk's table does not have.
    assert_eq!(camera_chunk_air_gap(grid, &at(0, 7), false), Some((0, 255, 0)));
}
