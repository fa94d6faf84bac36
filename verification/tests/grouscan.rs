//! Phases of a ray scan, one by one and from the seed on.
use roxlap_core::grid_view::GridView;
use roxlap_core::grouscan::fill::{phase_draw_ceil, phase_draw_flor};
use roxlap_core::grouscan::mip::phase_remiporend;
use roxlap_core::grouscan::run::grouscan_run;
use roxlap_core::grouscan::skyfill::phase_startsky;
use roxlap_core::grouscan::stack::{
    phase_after_delete, phase_delete_z, phase_findslabloop, phase_intoslabloop,
    phase_pre_delete_z, phase_pre_draw_ceil, phase_pre_draw_flor, phase_skipixy3,
    phase_skipixy_with_presync, phase_sync_from_presync,
};
use roxlap_core::grouscan::step::phase_after_delete_kept_presync;
use roxlap_core::grouscan::walls::{phase_draw_cwall, phase_draw_fwall};
use roxlap_core::grouscan::{
    grouscan_cross_sign, grouscan_shade, CfNarrowing, CfType, GrouscanInputs, GrouscanState,
    InitialDispatch, Phase, CF_SEED_INDEX,
};
use roxlap_core::rasterizer::ScanScratch;
use roxlap_core::slab::{
    build_owned_column_from_chain, build_owned_column_from_chain_translated,
    install_owned_column, slab_chain_byte_len,
};

const NO_NARROWING: CfNarrowing = CfNarrowing {
    at_mip: false,
    per_column: false,
    keep_slots: false,
};

#[test]
fn vc2_builder_matches_bulk_slice_byte_for_byte() {
    fn bulk_install(target: &mut Vec<u8>, slab_buf: &[u8], off: usize) {
        target.clear();
        if off >= slab_buf.len() {
            return;
        }
        let tail = &slab_buf[off..];
        let len = slab_chain_byte_len(tail);
        target.extend_from_slice(&tail[..len]);
    }
    fn assert_match(slab_buf: &[u8], off: usize, label: &str) {
        let mut bulk = Vec::new();
        let mut built = Vec::new();
        bulk_install(&mut bulk, slab_buf, off);
        install_owned_column(&mut built, slab_buf, off);
        assert_eq!(bulk, built, "{label}: bulk != builder output");
    }

    let single = vec![0u8, 255, 255, 0, 0xAA, 0xBB, 0xCC, 0xDD];
    assert_match(&single, 0, "single-slab bedrock");

    let mut multi = vec![4u8, 0, 0, 0];

    multi.extend_from_slice(&[
        0xDE, 0xAD, 0xBE, 0xEF, 0xCA, 0xFE, 0xBA, 0xBE, 0x11, 0x22, 0x33, 0x44,
    ]);
    multi.extend_from_slice(&[0, 10, 12, 0]);
    multi.extend_from_slice(&[1, 2, 3, 4, 5, 6, 7, 8, 9, 10, 11, 12]);
    assert_match(&multi, 0, "two-slab column");

    let truncated_body = vec![0u8, 10, 12, 0, 1, 2, 3, 4];
    assert_match(&truncated_body, 0, "last-slab body truncated");

    let empty: Vec<u8> = vec![];
    assert_match(&empty, 0, "empty slab_buf");
    assert_match(&single, single.len() + 5, "off past end");

    let malformed = vec![1u8, 99, 100, 101];
    let mut bulk_malformed = Vec::new();
    let mut built_malformed = Vec::new();
    bulk_install(&mut bulk_malformed, &malformed, 0);
    install_owned_column(&mut built_malformed, &malformed, 0);

    assert_eq!(bulk_malformed, malformed);

    assert_eq!(built_malformed, malformed);
}

#[test]
fn vc3_translation_with_zero_base_is_identity() {
    let single = vec![0u8, 100, 105, 0, 0xAA, 0xBB, 0xCC, 0xDD];
    let mut multi = vec![4u8, 5, 10, 0];
    multi.extend_from_slice(&[1, 2, 3, 4, 5, 6, 7, 8, 9, 10, 11, 12]);
    multi.extend_from_slice(&[0, 50, 60, 40]);
    multi.extend_from_slice(&[
        0x11, 0x12, 0x13, 0x14, 0x21, 0x22, 0x23, 0x24, 0x31, 0x32, 0x33, 0x34, 0x41, 0x42,
        0x43, 0x44, 0x51, 0x52, 0x53, 0x54, 0x61, 0x62, 0x63, 0x64, 0x71, 0x72, 0x73, 0x74,
        0x81, 0x82, 0x83, 0x84, 0x91, 0x92, 0x93, 0x94, 0xA1, 0xA2, 0xA3, 0xA4, 0xB1, 0xB2,
        0xB3, 0xB4,
    ]);

    for (label, slab_buf) in [("single", &single[..]), ("multi", &multi[..])] {
        let mut untranslated = Vec::new();
        let mut translated = Vec::new();
        build_owned_column_from_chain(&mut untranslated, slab_buf, 0);
        build_owned_column_from_chain_translated(&mut translated, slab_buf, 0, 0);
        assert_eq!(
            untranslated, translated,
            "{label}: world_z_base=0 must produce byte-identical output"
        );
    }
}

#[test]
fn vc3_translation_with_positive_base_shifts_z_bytes() {
    let mut col = vec![4u8, 5, 10, 0];
    col.extend_from_slice(&[
        0xA1, 0xA2, 0xA3, 0xA4, 0xB1, 0xB2, 0xB3, 0xB4, 0xC1, 0xC2, 0xC3, 0xC4,
    ]);
    col.extend_from_slice(&[0, 20, 22, 18]);
    col.extend_from_slice(&[
        0xD1, 0xD2, 0xD3, 0xD4, 0xE1, 0xE2, 0xE3, 0xE4, 0xF1, 0xF2, 0xF3, 0xF4,
    ]);

    let mut out = Vec::new();
    build_owned_column_from_chain_translated(&mut out, &col, 0, 100);

    assert_eq!(out[0], 4);
    assert_eq!(out[1], 105);
    assert_eq!(out[2], 110);
    assert_eq!(out[3], 100);

    assert_eq!(&out[4..16], &col[4..16]);

    assert_eq!(out[16], 0);
    assert_eq!(out[17], 120);
    assert_eq!(out[18], 122);
    assert_eq!(out[19], 118);

    assert_eq!(&out[20..32], &col[20..32]);

    assert_eq!(out.len(), col.len());
}

fn fresh_scratch() -> ScanScratch {
    let mut s = ScanScratch::new(4096);

    s.cf[CF_SEED_INDEX] = CfType {
        i0: 10,
        i1: 20,
        z0: 5,
        z1: 50,
        cx0: 100,
        cy0: 200,
        cx1: 300,
        cy1: 400,
        chz_layer: 0,
    };
    s
}

const DUMMY_GYLOOKUP: [i32; 64] = [0; 64];
const DUMMY_GCSUB: [i64; 9] = [0; 9];
const DUMMY_COLUMN: [u8; 4] = [0, 0, 0, 0];
const DUMMY_SLAB_BUF: [u8; 0] = [];
const DUMMY_COLUMN_OFFSETS: [u32; 0] = [];

const DUMMY_MIP_OFFSETS: [usize; 2] = [0, 0];

fn dummy_inputs<'a>() -> GrouscanInputs<'a> {
    GrouscanInputs {
        column: &DUMMY_COLUMN,
        gylookup: &DUMMY_GYLOOKUP,
        gcsub: &DUMMY_GCSUB,
        slab_buf: &DUMMY_SLAB_BUF,
        column_offsets: &DUMMY_COLUMN_OFFSETS,
        mip_base_offsets: &DUMMY_MIP_OFFSETS,
        vsid: 64,
        sky: None,
        grid_view: GridView::from_parts(
            64,
            &DUMMY_SLAB_BUF,
            &DUMMY_COLUMN_OFFSETS,
            &DUMMY_MIP_OFFSETS,
        ),
        camera_chunk_z: 0,
        chunk_world_z_base: 0,
        chunk_size_z: 256,
        narrowing: NO_NARROWING,
    }
}

#[test]
fn prologue_caches_cf_seed_state() {
    let mut s = fresh_scratch();
    s.gpz = [1_000, 2_000];
    s.gdz = [10, 20];
    s.gxmax = 999_999;
    let p = grouscan_run(&mut s, &dummy_inputs(), 0, 0, 0, 0, 50_000, 1);
    assert_eq!(p.z0, 5);
    assert_eq!(p.z1, 50);
    assert_eq!(p.cx0, 100);
    assert_eq!(p.cy0, 200);
    assert_eq!(p.cx1, 300);
    assert_eq!(p.cy1, 400);
}

#[test]
fn prologue_picks_leading_lane_with_smaller_gpz() {
    let mut s = fresh_scratch();
    s.gpz = [1_000, 2_000];
    s.gdz = [10, 20];
    let p = grouscan_run(&mut s, &dummy_inputs(), 0, 0, 0, 0, 1, 1);
    assert_eq!(p.lane, 0);

    let mut s = fresh_scratch();
    s.gpz = [800, 500];
    s.gdz = [10, 20];
    let p = grouscan_run(&mut s, &dummy_inputs(), 0, 0, 0, 0, 1, 1);
    assert_eq!(p.lane, 1);
}

#[test]
fn prologue_advances_winning_lane_by_gdz() {
    let mut s = fresh_scratch();
    s.gpz = [1_000, 2_000];
    s.gdz = [256, 999];
    let _ = grouscan_run(&mut s, &dummy_inputs(), 0, 0, 0, 0, 1, 1);
    assert_eq!(s.gpz[0], 1_256);

    assert_eq!(s.gpz[1], 2_000);
}

#[test]
fn prologue_ngxmax_clamps_to_gxmip_when_multimip() {
    let mut s = fresh_scratch();
    s.gpz = [1_000, 2_000];
    s.gdz = [10, 20];
    s.gxmax = 1_000_000;
    let p = grouscan_run(&mut s, &dummy_inputs(), 0, 0, 0, 0, 50_000, 2);
    assert_eq!(p.ngxmax, 50_000);

    let mut s = fresh_scratch();
    s.gpz = [1_000, 2_000];
    s.gdz = [10, 20];
    s.gxmax = 1_000_000;
    let p = grouscan_run(&mut s, &dummy_inputs(), 0, 0, 0, 0, 50_000, 1);
    assert_eq!(p.ngxmax, 1_000_000);
}

#[test]
fn shade_zero_csub_passes_voxel_through_unchanged_intensity() {
    let mut tail: u32 = 0x8011_2233;
    let _ = grouscan_shade(0x80aa_bbcc, &mut tail, 0);

    assert_ne!(tail, 0x8011_2233);
}

#[test]
fn shade_max_csub_produces_zero_intensity_blackout() {
    let mut tail: u32 = 0xdead_beef;
    let out = grouscan_shade(0xffff_ffff, &mut tail, !0_i64);
    assert_eq!(out, 0);
    assert_eq!(tail, 0);
}

#[test]
fn cross_sign_basic_signs() {
    assert_eq!(grouscan_cross_sign(1 << 16, 1 << 16, 1 << 16, 1), 2);
}

#[test]
fn cross_sign_negative_high_word_uses_signed_extension() {
    assert_eq!(grouscan_cross_sign(-(1 << 16), 0, 0, 1), -1);
}

#[test]
fn cross_sign_drops_low_16_of_cx_cy() {
    let r1 = grouscan_cross_sign(0x0003_0000, 0, 1 << 16, 1);
    let r2 = grouscan_cross_sign(0x0003_FFFF, 0, 1 << 16, 1);
    assert_eq!(r1, r2);
}

fn state_for_drawfwall<'a>(
    scratch: &'a mut ScanScratch,
    column: &'a [u8],
    gylookup: &'a [i32],
    gcsub: &'a [i64; 9],
) -> GrouscanState<'a> {
    let inputs = GrouscanInputs {
        column,
        gylookup,
        gcsub,
        slab_buf: &DUMMY_SLAB_BUF,
        column_offsets: &DUMMY_COLUMN_OFFSETS,
        mip_base_offsets: &DUMMY_MIP_OFFSETS,
        vsid: 64,
        sky: None,
        grid_view: GridView::from_parts(
            64,
            &DUMMY_SLAB_BUF,
            &DUMMY_COLUMN_OFFSETS,
            &DUMMY_MIP_OFFSETS,
        ),
        camera_chunk_z: 0,
        chunk_world_z_base: 0,
        chunk_size_z: 256,
        narrowing: NO_NARROWING,
    };
    GrouscanState::from_seed(scratch, &inputs, 0, 0, 0, 0, 1)
}

fn state_for_drawcwall<'a>(
    scratch: &'a mut ScanScratch,
    column: &'a [u8],
    gylookup: &'a [i32],
    gcsub: &'a [i64; 9],
    vptr_offset: usize,
) -> GrouscanState<'a> {
    let inputs = GrouscanInputs {
        column,
        gylookup,
        gcsub,
        slab_buf: &DUMMY_SLAB_BUF,
        column_offsets: &DUMMY_COLUMN_OFFSETS,
        mip_base_offsets: &DUMMY_MIP_OFFSETS,
        vsid: 64,
        sky: None,
        grid_view: GridView::from_parts(
            64,
            &DUMMY_SLAB_BUF,
            &DUMMY_COLUMN_OFFSETS,
            &DUMMY_MIP_OFFSETS,
        ),
        camera_chunk_z: 0,
        chunk_world_z_base: 0,
        chunk_size_z: 256,
        narrowing: NO_NARROWING,
    };
    GrouscanState::from_seed(scratch, &inputs, vptr_offset, 0, 0, 0, 1)
}

#[test]
fn drawfwall_early_exit_when_v1_above_z1() {
    let mut s = fresh_scratch();
    s.cf[CF_SEED_INDEX].z1 = 30;
    s.cf[CF_SEED_INDEX].i0 = 0;
    s.cf[CF_SEED_INDEX].i1 = 100;
    let column = [0u8, 50, 51, 0];
    let gylookup = [0i32; 64];
    let gcsub = [0i64; 9];
    let mut state = state_for_drawfwall(&mut s, &column, &gylookup, &gcsub);
    assert_eq!(phase_draw_fwall(&mut state), Phase::DrawCwall);

    assert_eq!(state.ebx, 0);
}

#[test]
fn drawfwall_iterates_until_z1_hits_v1() {
    let mut s = fresh_scratch();
    s.cf[CF_SEED_INDEX].z1 = 13;
    s.cf[CF_SEED_INDEX].i0 = 0;
    s.cf[CF_SEED_INDEX].i1 = 100;
    s.cf[CF_SEED_INDEX].cx1 = 0;
    s.cf[CF_SEED_INDEX].cy1 = 0;
    let mut column = vec![0u8, 10, 12, 0];
    column.extend_from_slice(&[
        0xaa, 0xbb, 0xcc, 0x80, 0x11, 0x22, 0x33, 0x80, 0x44, 0x55, 0x66, 0x80,
    ]);
    let gylookup = [0i32; 64];
    let gcsub = [0i64; 9];
    let mut state = state_for_drawfwall(&mut s, &column, &gylookup, &gcsub);
    assert_eq!(phase_draw_fwall(&mut state), Phase::DrawCwall);
    assert_eq!(state.z1, 10);
    assert_eq!(state.ebx, 100);
    assert_eq!(state.scratch.cf[CF_SEED_INDEX].i1, 100);
}

#[test]
fn drawfwall_writes_pixel_when_cross_sign_positive() {
    let mut s = fresh_scratch();
    s.cf[CF_SEED_INDEX].z1 = 11;
    s.cf[CF_SEED_INDEX].i0 = 0;
    s.cf[CF_SEED_INDEX].i1 = 50;
    s.cf[CF_SEED_INDEX].cx1 = 1 << 16;
    s.cf[CF_SEED_INDEX].cy1 = 0;
    s.gi0 = 1 << 16;
    s.gi1 = 0;

    let mut column = vec![0u8, 10, 11, 0];
    column.extend_from_slice(&[0x00, 0x00, 0xff, 0x80]);

    let mut gylookup = [0i32; 64];
    gylookup[10] = 100;

    let gcsub = [0i64; 9];
    let mut state = state_for_drawfwall(&mut s, &column, &gylookup, &gcsub);
    state.ogx = 0;

    let next = phase_draw_fwall(&mut state);
    assert_eq!(next, Phase::DrawCwall);

    assert_ne!(state.scratch.radar[50].col, 0);

    assert_eq!(state.ebx, 49);
}

#[test]
fn drawcwall_column_top_jumps_to_predrawflor() {
    let mut s = fresh_scratch();
    let column = [0u8, 10, 12, 0];
    let gylookup = [0i32; 64];
    let gcsub = [0i64; 9];
    let mut state = state_for_drawcwall(&mut s, &column, &gylookup, &gcsub, 0);
    assert_eq!(phase_draw_cwall(&mut state), Phase::PreDrawFlor);

    assert_eq!(state.z1, 10);
}

#[test]
fn drawcwall_dv3_le_z0_jumps_to_predrawceil() {
    let mut s = fresh_scratch();
    s.cf[CF_SEED_INDEX].z0 = 20;
    let mut column = vec![0u8; 32];

    column[0] = 8;
    column.extend_from_slice(&[0, 10, 12, 5]);
    let gylookup = [0i32; 64];
    let gcsub = [0i64; 9];
    let mut state = state_for_drawcwall(&mut s, &column, &gylookup, &gcsub, 32);
    assert_eq!(phase_draw_cwall(&mut state), Phase::PreDrawCeil);
    assert_eq!(state.z0, 5);
}

#[test]
fn drawcwall_inner_loop_reads_previous_slab_tail() {
    let mut s = fresh_scratch();
    s.cf[CF_SEED_INDEX].z0 = 0;
    s.cf[CF_SEED_INDEX].i0 = 0;
    s.cf[CF_SEED_INDEX].i1 = 100;
    s.cf[CF_SEED_INDEX].cx0 = 1 << 16;
    s.cf[CF_SEED_INDEX].cy0 = 0;

    let mut column = vec![0u8; 16];

    column[0] = 4;
    column.extend_from_slice(&[0, 10, 12, 2]);

    let mut gylookup = [0i32; 64];
    gylookup[1] = 1;
    gylookup[2] = 1;
    let gcsub = [0i64; 9];

    let mut state = state_for_drawcwall(&mut s, &column, &gylookup, &gcsub, 16);
    state.ogx = 0;
    assert_eq!(phase_draw_cwall(&mut state), Phase::PreDrawCeil);

    assert_eq!(state.z0, 2);
}

fn state_for_drawceil<'a>(
    scratch: &'a mut ScanScratch,
    column: &'a [u8],
    gylookup: &'a [i32],
    gcsub: &'a [i64; 9],
    vptr_offset: usize,
) -> GrouscanState<'a> {
    let inputs = GrouscanInputs {
        column,
        gylookup,
        gcsub,
        slab_buf: &DUMMY_SLAB_BUF,
        column_offsets: &DUMMY_COLUMN_OFFSETS,
        mip_base_offsets: &DUMMY_MIP_OFFSETS,
        vsid: 64,
        sky: None,
        grid_view: GridView::from_parts(
            64,
            &DUMMY_SLAB_BUF,
            &DUMMY_COLUMN_OFFSETS,
            &DUMMY_MIP_OFFSETS,
        ),
        camera_chunk_z: 0,
        chunk_world_z_base: 0,
        chunk_size_z: 256,
        narrowing: NO_NARROWING,
    };
    GrouscanState::from_seed(scratch, &inputs, vptr_offset, 0, 0, 0, 1)
}

#[test]
fn predrawceil_swaps_ogx_and_gx() {
    let mut s = fresh_scratch();
    let inputs = dummy_inputs();
    let mut state = GrouscanState::from_seed(&mut s, &inputs, 0, 0, 0, 0, 1);
    state.ogx = 0x1111;
    state.gx = 0x2222;
    assert_eq!(phase_pre_draw_ceil(&mut state), Phase::DrawCeil);
    assert_eq!(state.ogx, 0x2222);
    assert_eq!(state.gx, 0x1111);
}

#[test]
fn drawceil_cross_sign_positive_jumps_to_drawflor() {
    let mut s = fresh_scratch();
    s.cf[CF_SEED_INDEX].z0 = 5;
    s.cf[CF_SEED_INDEX].cx0 = 1 << 16;
    s.cf[CF_SEED_INDEX].cy0 = 0;
    s.cf[CF_SEED_INDEX].i0 = 10;
    s.cf[CF_SEED_INDEX].i1 = 20;

    let mut column = vec![0u8; 8];
    column[0..4].copy_from_slice(&[0x44, 0x55, 0x66, 0x80]);
    let mut gylookup = [0i32; 64];
    gylookup[5] = 1;
    let gcsub = [0i64; 9];

    let mut state = state_for_drawceil(&mut s, &column, &gylookup, &gcsub, 4);
    state.ogx = 0;
    assert_eq!(phase_draw_ceil(&mut state), Phase::DrawFlor);

    assert_eq!(state.scratch.cf[CF_SEED_INDEX].i0, 10);
}

#[test]
fn drawceil_writes_pixel_then_exhausts_radar() {
    let mut s = fresh_scratch();
    s.cf[CF_SEED_INDEX].z0 = 5;
    s.cf[CF_SEED_INDEX].cx0 = 0;
    s.cf[CF_SEED_INDEX].cy0 = 0;
    s.cf[CF_SEED_INDEX].i0 = 20;
    s.cf[CF_SEED_INDEX].i1 = 20;
    s.gi0 = 0;
    s.gi1 = 0;

    let mut column = vec![0u8; 8];
    column[0..4].copy_from_slice(&[0x00, 0x00, 0xff, 0x80]);
    let mut gylookup = [0i32; 64];
    gylookup[5] = 0;
    let gcsub = [0i64; 9];

    let mut state = state_for_drawceil(&mut s, &column, &gylookup, &gcsub, 4);
    state.ogx = 0;
    assert_eq!(phase_draw_ceil(&mut state), Phase::DeleteZ);
    assert_ne!(state.scratch.radar[20].col, 0);
    assert_eq!(state.scratch.cf[CF_SEED_INDEX].i0, 21);
}

#[test]
fn drawceil_bails_when_z0_out_of_gylookup() {
    let mut s = fresh_scratch();
    s.cf[CF_SEED_INDEX].z0 = 64;
    let column = vec![0u8; 8];
    let gylookup = [0i32; 64];
    let gcsub = [0i64; 9];
    let mut state = state_for_drawceil(&mut s, &column, &gylookup, &gcsub, 4);
    assert_eq!(phase_draw_ceil(&mut state), Phase::AfterDelete);
}

#[test]
fn predrawflor_swaps_ogx_and_gx() {
    let mut s = fresh_scratch();
    let inputs = dummy_inputs();
    let mut state = GrouscanState::from_seed(&mut s, &inputs, 0, 0, 0, 0, 1);
    state.ogx = 0x3333;
    state.gx = 0x4444;
    assert_eq!(phase_pre_draw_flor(&mut state), Phase::DrawFlor);
    assert_eq!(state.ogx, 0x4444);
    assert_eq!(state.gx, 0x3333);
}

#[test]
fn drawflor_cross_sign_non_positive_returns_after_delete() {
    let mut s = fresh_scratch();
    s.cf[CF_SEED_INDEX].z1 = 5;
    s.cf[CF_SEED_INDEX].cx1 = 0;
    s.cf[CF_SEED_INDEX].cy1 = 0;
    s.cf[CF_SEED_INDEX].i0 = 10;
    s.cf[CF_SEED_INDEX].i1 = 20;

    let mut column = vec![0u8; 8];
    column[4..8].copy_from_slice(&[0x77, 0x88, 0x99, 0x80]);
    let gylookup = [0i32; 64];
    let gcsub = [0i64; 9];

    let mut state = state_for_drawceil(&mut s, &column, &gylookup, &gcsub, 0);
    state.ogx = 0;
    assert_eq!(phase_draw_flor(&mut state), Phase::AfterDelete);
    assert_eq!(state.scratch.cf[CF_SEED_INDEX].i1, 20);
}

#[test]
fn drawflor_writes_pixel_then_exhausts_radar() {
    let mut s = fresh_scratch();
    s.cf[CF_SEED_INDEX].z1 = 5;
    s.cf[CF_SEED_INDEX].cx1 = 1 << 16;
    s.cf[CF_SEED_INDEX].cy1 = 0;
    s.cf[CF_SEED_INDEX].i0 = 20;
    s.cf[CF_SEED_INDEX].i1 = 20;
    s.gi0 = 0;
    s.gi1 = 0;

    let mut column = vec![0u8; 8];
    column[4..8].copy_from_slice(&[0x00, 0x00, 0xff, 0x80]);
    let mut gylookup = [0i32; 64];
    gylookup[5] = 1;
    let gcsub = [0i64; 9];

    let mut state = state_for_drawceil(&mut s, &column, &gylookup, &gcsub, 0);
    state.ogx = 0;
    assert_eq!(phase_draw_flor(&mut state), Phase::DeleteZ);
    assert_ne!(state.scratch.radar[20].col, 0);
    assert_eq!(state.scratch.cf[CF_SEED_INDEX].i1, 19);
}

#[test]
fn drawflor_bails_when_z1_out_of_gylookup() {
    let mut s = fresh_scratch();
    s.cf[CF_SEED_INDEX].z1 = 64;
    let column = vec![0u8; 8];
    let gylookup = [0i32; 64];
    let gcsub = [0i64; 9];
    let mut state = state_for_drawceil(&mut s, &column, &gylookup, &gcsub, 0);
    assert_eq!(phase_draw_flor(&mut state), Phase::AfterDelete);
}

#[test]
fn predeletez_swaps_ogx_and_gx() {
    let mut s = fresh_scratch();
    let inputs = dummy_inputs();
    let mut state = GrouscanState::from_seed(&mut s, &inputs, 0, 0, 0, 0, 1);
    state.ogx = 0xAAAA;
    state.gx = 0xBBBB;
    assert_eq!(phase_pre_delete_z(&mut state), Phase::DeleteZ);
    assert_eq!(state.ogx, 0xBBBB);
    assert_eq!(state.gx, 0xAAAA);
}

#[test]
fn deletez_at_seed_slot_returns_done() {
    let mut s = fresh_scratch();
    let inputs = dummy_inputs();
    let mut state = GrouscanState::from_seed(&mut s, &inputs, 0, 0, 0, 0, 1);
    assert_eq!(state.ce_idx, CF_SEED_INDEX);
    assert_eq!(phase_delete_z(&mut state), Phase::Done);
}

#[test]
fn deletez_pops_top_when_c_equals_ce() {
    let mut s = fresh_scratch();
    let inputs = dummy_inputs();
    let mut state = GrouscanState::from_seed(&mut s, &inputs, 0, 0, 0, 0, 1);
    state.ce_idx = CF_SEED_INDEX + 2;
    state.c_idx = CF_SEED_INDEX + 2;
    assert_eq!(phase_delete_z(&mut state), Phase::AfterDelete);
    assert_eq!(state.ce_idx, CF_SEED_INDEX + 1);
    assert_eq!(state.c_idx, CF_SEED_INDEX + 2);
    assert_eq!(state.c_presync_idx, usize::MAX);
}

#[test]
fn deletez_shifts_down_when_c_below_ce() {
    let mut s = fresh_scratch();

    s.cf[CF_SEED_INDEX + 1] = CfType {
        i0: 1,
        i1: 1,
        ..Default::default()
    };
    s.cf[CF_SEED_INDEX + 2] = CfType {
        i0: 2,
        i1: 2,
        ..Default::default()
    };
    let inputs = dummy_inputs();
    let mut state = GrouscanState::from_seed(&mut s, &inputs, 0, 0, 0, 0, 1);
    state.ce_idx = CF_SEED_INDEX + 2;
    state.c_idx = CF_SEED_INDEX + 1;
    assert_eq!(phase_delete_z(&mut state), Phase::AfterDeleteKeptPresync);
    assert_eq!(state.ce_idx, CF_SEED_INDEX + 1);
    assert_eq!(state.c_presync_idx, CF_SEED_INDEX + 2);

    assert_eq!(state.scratch.cf[CF_SEED_INDEX + 1].i0, 2);
}

#[test]
fn from_seed_initialises_cf_indices_to_seed() {
    let mut s = fresh_scratch();
    let inputs = dummy_inputs();
    let state = GrouscanState::from_seed(&mut s, &inputs, 0, 0, 0, 0, 1);
    assert_eq!(state.c_idx, CF_SEED_INDEX);
    assert_eq!(state.ce_idx, CF_SEED_INDEX);
    assert_eq!(state.c_presync_idx, usize::MAX);
}

#[test]
fn afterdelete_sets_presync_and_routes_to_kept() {
    let mut s = fresh_scratch();
    let inputs = dummy_inputs();
    let mut state = GrouscanState::from_seed(&mut s, &inputs, 0, 0, 0, 0, 1);
    state.c_idx = CF_SEED_INDEX + 1;
    state.c_presync_idx = usize::MAX;
    assert_eq!(
        phase_after_delete(&mut state),
        Phase::AfterDeleteKeptPresync
    );
    assert_eq!(state.c_presync_idx, CF_SEED_INDEX + 1);
}

#[test]
fn afterdelete_kept_presync_routes_to_skipixy_when_c_above_seed() {
    let mut s = fresh_scratch();
    let inputs = dummy_inputs();
    let mut state = GrouscanState::from_seed(&mut s, &inputs, 0, 0, 0, 0, 1);
    state.c_idx = CF_SEED_INDEX + 1;
    assert_eq!(
        phase_after_delete_kept_presync(&mut state),
        Phase::SkipixyWithPresync
    );
    assert_eq!(state.c_idx, CF_SEED_INDEX);
}

#[test]
fn afterdelete_kept_presync_below_seed_runs_column_step() {
    let mut s = fresh_scratch();
    let inputs = dummy_inputs();
    let mut state = GrouscanState::from_seed(&mut s, &inputs, 0, 0, 0, 0, 1);
    state.c_idx = CF_SEED_INDEX;
    assert_eq!(
        phase_after_delete_kept_presync(&mut state),
        Phase::SyncFromPresync
    );

    assert_eq!(state.c_idx, CF_SEED_INDEX);
}

fn build_4x4_world() -> (Vec<u8>, Vec<u32>) {
    let mut buf = Vec::with_capacity(16 * 4);
    for col in 0..16u8 {
        buf.extend_from_slice(&[col, 10, 12, 0]);
    }
    let offsets: Vec<u32> = (0..16u32).map(|c| c * 4).collect();
    (buf, offsets)
}

#[test]
fn column_step_advances_ixy_and_reslices_column() {
    let (slab_buf, column_offsets) = build_4x4_world();
    let gylookup = DUMMY_GYLOOKUP;
    let gcsub = DUMMY_GCSUB;
    let mip_base = [0usize, column_offsets.len()];
    let inputs = GrouscanInputs {
        column: &slab_buf[20..],
        gylookup: &gylookup,
        gcsub: &gcsub,
        slab_buf: &slab_buf,
        column_offsets: &column_offsets,
        mip_base_offsets: &mip_base,
        vsid: 4,
        sky: None,
        grid_view: GridView::from_parts(
            4,
            &slab_buf,
            &column_offsets,
            &mip_base,
        ),
        camera_chunk_z: 0,
        chunk_world_z_base: 0,
        chunk_size_z: 256,
        narrowing: NO_NARROWING,
    };
    let mut s = fresh_scratch();
    s.gixy = [1, 4];

    let mut state = GrouscanState::from_seed(&mut s, &inputs, 0, 5, 1, 1, 1);
    state.c_idx = CF_SEED_INDEX;
    state.lane = 0;

    let next = phase_after_delete_kept_presync(&mut state);
    assert!(matches!(
        next,
        Phase::SyncFromPresync | Phase::Skipixy3 | Phase::Remiporend
    ));

    assert_eq!(state.ixy_sptr_col_idx, 6);

    assert_eq!(state.column[0], 6);

    assert_eq!(state.wall_lane, 0);
}

#[test]
fn column_step_routes_to_remiporend_when_gpz_exceeds_ngxmax() {
    let (slab_buf, column_offsets) = build_4x4_world();
    let gylookup = DUMMY_GYLOOKUP;
    let gcsub = DUMMY_GCSUB;
    let mip_base = [0usize, column_offsets.len()];
    let inputs = GrouscanInputs {
        column: &slab_buf[..],
        gylookup: &gylookup,
        gcsub: &gcsub,
        slab_buf: &slab_buf,
        column_offsets: &column_offsets,
        mip_base_offsets: &mip_base,
        vsid: 4,
        sky: None,
        grid_view: GridView::from_parts(
            4,
            &slab_buf,
            &column_offsets,
            &mip_base,
        ),
        camera_chunk_z: 0,
        chunk_world_z_base: 0,
        chunk_size_z: 256,
        narrowing: NO_NARROWING,
    };
    let mut s = fresh_scratch();

    s.gpz = [0x100, 0x200];
    let mut state = GrouscanState::from_seed(&mut s, &inputs, 0, 0, 0, 0, 1);
    state.ngxmax = 0xFF;
    state.c_idx = CF_SEED_INDEX;

    assert_eq!(
        phase_after_delete_kept_presync(&mut state),
        Phase::Remiporend
    );
}

#[test]
fn remiporend_routes_to_startsky_when_no_more_mips() {
    let mut s = fresh_scratch();
    let inputs = dummy_inputs();
    let mut state = GrouscanState::from_seed(&mut s, &inputs, 0, 0, 0, 0, 1);
    state.gmipcnt = 0;
    assert_eq!(phase_remiporend(&mut state), Phase::Startsky);
}

#[test]
fn remiporend_multimip_falls_through_to_startsky() {
    let mut s = fresh_scratch();
    let inputs = dummy_inputs();
    let mut state = GrouscanState::from_seed(&mut s, &inputs, 0, 0, 0, 0, 4);
    state.gmipcnt = 0;
    assert_eq!(phase_remiporend(&mut state), Phase::Startsky);
}

#[test]
fn startsky_returns_done_when_stack_below_seed() {
    let mut s = fresh_scratch();
    let inputs = dummy_inputs();
    let mut state = GrouscanState::from_seed(&mut s, &inputs, 0, 0, 0, 0, 1);

    state.ce_idx = CF_SEED_INDEX - 1;
    assert_eq!(phase_startsky(&mut state), Phase::Done);
}

#[test]
fn startsky_solid_fills_radar_with_skycast() {
    let mut s = fresh_scratch();
    let sky_col_bits: u32 = 0x80AB_CDEF;
    s.set_skycast(sky_col_bits.cast_signed(), 0x7FFF_FFFF);

    s.cf[CF_SEED_INDEX].i0 = 10;
    s.cf[CF_SEED_INDEX].i1 = 13;
    let inputs = dummy_inputs();
    let mut state = GrouscanState::from_seed(&mut s, &inputs, 0, 0, 0, 0, 1);

    state.ce_idx = CF_SEED_INDEX;

    assert_eq!(phase_startsky(&mut state), Phase::Done);

    for p in 10usize..=13 {
        assert_eq!(state.scratch.radar[p].col, sky_col_bits.cast_signed());
        assert_eq!(state.scratch.radar[p].dist, 0x7FFF_FFFF);
    }

    assert_eq!(state.scratch.radar[9].col, 0);
    assert_eq!(state.scratch.radar[14].col, 0);
}

#[test]
fn startsky_walks_multiple_cf_entries() {
    let mut s = fresh_scratch();
    s.set_skycast(0x1234_5678, 0);
    s.cf[CF_SEED_INDEX].i0 = 0;
    s.cf[CF_SEED_INDEX].i1 = 1;
    s.cf[CF_SEED_INDEX + 1].i0 = 5;
    s.cf[CF_SEED_INDEX + 1].i1 = 6;
    let inputs = dummy_inputs();
    let mut state = GrouscanState::from_seed(&mut s, &inputs, 0, 0, 0, 0, 1);
    state.ce_idx = CF_SEED_INDEX + 1;

    assert_eq!(phase_startsky(&mut state), Phase::Done);

    assert_eq!(state.scratch.radar[0].col, 0x1234_5678);
    assert_eq!(state.scratch.radar[1].col, 0x1234_5678);

    assert_eq!(state.scratch.radar[2].col, 0);
    assert_eq!(state.scratch.radar[5].col, 0x1234_5678);
    assert_eq!(state.scratch.radar[6].col, 0x1234_5678);
}

#[test]
fn column_step_routes_to_skipixy3_when_presync_equals_c() {
    let (slab_buf, column_offsets) = build_4x4_world();
    let gylookup = DUMMY_GYLOOKUP;
    let gcsub = DUMMY_GCSUB;
    let mip_base = [0usize, column_offsets.len()];
    let inputs = GrouscanInputs {
        column: &slab_buf[..],
        gylookup: &gylookup,
        gcsub: &gcsub,
        slab_buf: &slab_buf,
        column_offsets: &column_offsets,
        mip_base_offsets: &mip_base,
        vsid: 4,
        sky: None,
        grid_view: GridView::from_parts(
            4,
            &slab_buf,
            &column_offsets,
            &mip_base,
        ),
        camera_chunk_z: 0,
        chunk_world_z_base: 0,
        chunk_size_z: 256,
        narrowing: NO_NARROWING,
    };
    let mut s = fresh_scratch();
    let mut state = GrouscanState::from_seed(&mut s, &inputs, 0, 0, 0, 0, 1);
    state.c_idx = CF_SEED_INDEX;

    state.ce_idx = CF_SEED_INDEX;
    state.c_presync_idx = CF_SEED_INDEX;
    assert_eq!(phase_after_delete_kept_presync(&mut state), Phase::Skipixy3);
}

#[test]
fn column_step_resets_vptr_offset_to_zero() {
    let (slab_buf, column_offsets) = build_4x4_world();
    let gylookup = DUMMY_GYLOOKUP;
    let gcsub = DUMMY_GCSUB;
    let mip_base = [0usize, column_offsets.len()];
    let inputs = GrouscanInputs {
        column: &slab_buf[..],
        gylookup: &gylookup,
        gcsub: &gcsub,
        slab_buf: &slab_buf,
        column_offsets: &column_offsets,
        mip_base_offsets: &mip_base,
        vsid: 4,
        sky: None,
        grid_view: GridView::from_parts(
            4,
            &slab_buf,
            &column_offsets,
            &mip_base,
        ),
        camera_chunk_z: 0,
        chunk_world_z_base: 0,
        chunk_size_z: 256,
        narrowing: NO_NARROWING,
    };
    let mut s = fresh_scratch();
    let mut state = GrouscanState::from_seed(&mut s, &inputs, 32, 0, 0, 0, 1);
    state.c_idx = CF_SEED_INDEX;
    let _ = phase_after_delete_kept_presync(&mut state);
    assert_eq!(state.vptr_offset, 0);
}

#[test]
fn skipixy3_routes_to_drawfwall_when_v0_zero() {
    let mut s = fresh_scratch();
    let column = [0u8, 10, 12, 0];
    let gylookup = [0i32; 64];
    let gcsub = [0i64; 9];
    let mut state = state_for_drawcwall(&mut s, &column, &gylookup, &gcsub, 0);
    assert_eq!(phase_skipixy3(&mut state), Phase::DrawFwall);
}

#[test]
fn skipixy3_routes_to_intoslabloop_when_v0_nonzero() {
    let mut s = fresh_scratch();

    let column = [2u8, 10, 12, 0, 0, 0, 0, 0, 0, 20, 22, 0];
    let gylookup = [0i32; 64];
    let gcsub = [0i64; 9];
    let mut state = state_for_drawcwall(&mut s, &column, &gylookup, &gcsub, 0);
    assert_eq!(phase_skipixy3(&mut state), Phase::Intoslabloop);
}

#[test]
fn intoslabloop_routes_to_findslabloop_when_test_hi_positive() {
    let mut s = fresh_scratch();
    s.cf[CF_SEED_INDEX].cx0 = 1 << 16;
    let column = [2u8, 10, 12, 0, 0, 0, 0, 0, 0, 20, 22, 0];
    let mut gylookup = [0i32; 64];
    gylookup[13] = 1;
    let gcsub = [0i64; 9];
    let mut state = state_for_drawcwall(&mut s, &column, &gylookup, &gcsub, 0);
    state.ogx = 0;
    assert_eq!(phase_intoslabloop(&mut state), Phase::Findslabloop);
}

#[test]
fn intoslabloop_routes_to_drawfwall_when_test_hi_and_test_next_nonpositive() {
    let mut s = fresh_scratch();
    let column = [2u8, 10, 12, 0, 0, 0, 0, 0, 0, 20, 22, 0];
    let gylookup = [0i32; 64];
    let gcsub = [0i64; 9];
    let mut state = state_for_drawcwall(&mut s, &column, &gylookup, &gcsub, 0);
    state.ogx = 0;
    assert_eq!(phase_intoslabloop(&mut state), Phase::DrawFwall);
}

#[test]
fn intoslabloop_pushes_split_when_test_next_positive() {
    let mut s = fresh_scratch();
    s.cf[CF_SEED_INDEX].i0 = 0;
    s.cf[CF_SEED_INDEX].i1 = 5;
    s.cf[CF_SEED_INDEX].cx1 = 1 << 16;
    s.cf[CF_SEED_INDEX].cy1 = 0;
    s.gi0 = 0;
    s.gi1 = 0;
    let column = [
        2u8, 10, 12, 0, 0, 0, 0, 0,
        0u8, 20, 22, 5,
    ];
    let mut gylookup = [0i32; 64];
    gylookup[5] = 1;

    let gcsub = [0i64; 9];
    let mut state = state_for_drawcwall(&mut s, &column, &gylookup, &gcsub, 0);
    state.cx1 = 1 << 16;
    state.cy1 = 0;
    state.ogx = 0;
    state.z0 = 0;
    state.z1 = 99;

    assert_eq!(phase_intoslabloop(&mut state), Phase::DrawFwall);

    assert_eq!(state.ce_idx, CF_SEED_INDEX + 1);
    assert_eq!(state.c_idx, CF_SEED_INDEX + 1);
    assert_eq!(state.z1, 5);
    assert_eq!(state.z0, 0);

    assert_eq!(state.scratch.cf[CF_SEED_INDEX].z0, 5);
    assert_eq!(state.scratch.cf[CF_SEED_INDEX].i0, 6);

    assert_eq!(state.scratch.cf[CF_SEED_INDEX + 1].i1, 5);
}

#[test]
fn slab_split_returns_done_when_stack_full() {
    let mut s = fresh_scratch();
    s.cf[CF_SEED_INDEX].i0 = 0;
    s.cf[CF_SEED_INDEX].i1 = 5;
    s.cf[CF_SEED_INDEX].cx1 = 1 << 16;
    let column = [2u8, 10, 12, 0, 0, 0, 0, 0, 0u8, 20, 22, 5];
    let mut gylookup = [0i32; 64];
    gylookup[5] = 1;
    let gcsub = [0i64; 9];
    let mut state = state_for_drawcwall(&mut s, &column, &gylookup, &gcsub, 0);
    state.cx1 = 1 << 16;
    state.ce_idx = 191;
    state.ogx = 0;
    assert_eq!(phase_intoslabloop(&mut state), Phase::Done);

    assert_eq!(state.ce_idx, 191);
}

#[test]
fn findslabloop_advances_vptr_then_intoslabloop_when_next_nonzero() {
    let mut s = fresh_scratch();
    let column = [
        2u8, 10, 12, 0, 0, 0, 0, 0,
        2u8, 20, 22, 0, 0, 0, 0, 0,
        0u8, 30, 32, 0,
    ];
    let gylookup = [0i32; 64];
    let gcsub = [0i64; 9];
    let mut state = state_for_drawcwall(&mut s, &column, &gylookup, &gcsub, 0);
    assert_eq!(phase_findslabloop(&mut state), Phase::Intoslabloop);
    assert_eq!(state.vptr_offset, 8);
}

#[test]
fn findslabloop_routes_to_drawfwall_when_next_v0_zero() {
    let mut s = fresh_scratch();
    let column = [1u8, 10, 12, 0, 0u8, 20, 22, 0];
    let gylookup = [0i32; 64];
    let gcsub = [0i64; 9];
    let mut state = state_for_drawcwall(&mut s, &column, &gylookup, &gcsub, 0);
    assert_eq!(phase_findslabloop(&mut state), Phase::DrawFwall);
    assert_eq!(state.vptr_offset, 4);
}

#[test]
fn skipixy_with_presync_swaps_ogx_and_routes_to_sync() {
    let mut s = fresh_scratch();
    let inputs = dummy_inputs();
    let mut state = GrouscanState::from_seed(&mut s, &inputs, 0, 0, 0, 0, 1);
    state.ogx = 0xAAAA;
    state.gx = 0xBBBB;

    assert_eq!(
        phase_skipixy_with_presync(&mut state),
        Phase::SyncFromPresync
    );

    assert_eq!(state.ogx, 0xBBBB);
    assert_eq!(state.gx, 0xAAAA);
}

#[test]
fn sync_from_presync_saves_to_presync_and_loads_from_c() {
    let mut s = fresh_scratch();
    s.cf[CF_SEED_INDEX + 1] = CfType {
        i0: 0,
        i1: 0,
        z0: 100,
        z1: 200,
        cx0: 300,
        cy0: 400,
        cx1: 500,
        cy1: 600,
        chz_layer: 0,
    };
    let inputs = dummy_inputs();
    let mut state = GrouscanState::from_seed(&mut s, &inputs, 0, 0, 0, 0, 1);

    state.z0 = 1;
    state.z1 = 2;
    state.cx0 = 3;
    state.cy0 = 4;
    state.cx1 = 5;
    state.cy1 = 6;
    state.ogx = 0xAAAA;
    state.gx = 0xBBBB;
    state.c_idx = CF_SEED_INDEX + 1;
    state.c_presync_idx = CF_SEED_INDEX + 2;

    assert_eq!(phase_sync_from_presync(&mut state), Phase::Skipixy3);

    assert_eq!(state.ogx, 0xAAAA);
    assert_eq!(state.gx, 0xBBBB);

    let presync = state.scratch.cf[CF_SEED_INDEX + 2];
    assert_eq!(presync.z0, 1);
    assert_eq!(presync.z1, 2);
    assert_eq!(presync.cx0, 3);
    assert_eq!(presync.cy0, 4);
    assert_eq!(presync.cx1, 5);
    assert_eq!(presync.cy1, 6);

    assert_eq!(state.z0, 100);
    assert_eq!(state.z1, 200);
    assert_eq!(state.cx0, 300);
    assert_eq!(state.cy0, 400);
    assert_eq!(state.cx1, 500);
    assert_eq!(state.cy1, 600);
}

#[test]
fn from_seed_carries_ixy_sptr_col_idx() {
    let mut s = fresh_scratch();
    let inputs = dummy_inputs();
    let state = GrouscanState::from_seed(&mut s, &inputs, 0, 42, 0, 0, 1);
    assert_eq!(state.ixy_sptr_col_idx, 42);
}

#[test]
fn dispatch_drawflor_when_camera_at_top_of_column() {
    let mut s = fresh_scratch();
    s.gpz = [1_000, 2_000];
    s.gdz = [10, 20];
    let p = grouscan_run(&mut s, &dummy_inputs(), 0, 0, 0, 0, 1, 1);
    assert_eq!(p.dispatch, InitialDispatch::DrawFlor);
}

#[test]
fn dispatch_drawceil_when_camera_in_interior_air_gap() {
    let mut s = fresh_scratch();
    s.gpz = [1_000, 2_000];
    s.gdz = [10, 20];

    let p = grouscan_run(&mut s, &dummy_inputs(), 16, 0, 0, 0, 1, 1);
    assert_eq!(p.dispatch, InitialDispatch::DrawCeil);
}

#[test]
fn prologue_ogx_keeps_integer_part_of_gpz() {
    let mut s = fresh_scratch();
    s.gpz = [0x1234_5678, 0x7FFF_FFFF];
    s.gdz = [0, 0];
    let p = grouscan_run(&mut s, &dummy_inputs(), 0, 0, 0, 0, 1, 1);
    assert_eq!(p.lane, 0);

    assert_eq!(p.ogx, 0x1234_0000_i32);
    assert_eq!(p.gx, 0);
}
