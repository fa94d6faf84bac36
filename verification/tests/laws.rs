//! What holds across the library, on chosen values.
use roxlap_core::color::{bytes_of, pack};
use roxlap_core::dda::brick::{BrickCache, BrickMap};
use roxlap_core::dda::level::local_cache;
use roxlap_core::dda::sampler::Sampler;
use roxlap_core::dda::sound::{can_hit, can_paint, can_sample, chunk_is_mappable, grid_is_mappable};
use roxlap_core::dda::walk::CellWalk;
use roxlap_core::dda::{fog_mix, row_bands, shade, side_shade_sub};
use roxlap_core::drawtile::{drawtile, DrawTarget};
use roxlap_core::edit::{delslab, insslab, MAXZDIM};
use roxlap_core::engine::{Engine, DEFAULT_KV6COL};
use roxlap_core::grid_view::{ChunkGrid, GridView};
use roxlap_core::grouscan::run::grouscan_run;
use roxlap_core::grouscan::skyfill::phase_startsky;
use roxlap_core::grouscan::stack::phase_pre_draw_ceil;
use roxlap_core::grouscan::within::grouscan_run_within;
use roxlap_core::grouscan::{
    grouscan_cross_sign, grouscan_shade, CfNarrowing, CfType, GrouscanInputs, GrouscanState,
    InitialDispatch, Phase, SkyRef, CF_SEED_INDEX,
};
use roxlap_core::material::material_for_color;
use roxlap_core::opticast::OpticastSettings;
use roxlap_core::powers::PowerTables;
use roxlap_core::ptfaces16::PTFACES16;
use roxlap_core::rasterizer::{CastDat, ScanScratch};
use roxlap_core::sky::Sky;
use roxlap_core::slab::{
    build_owned_column_from_chain, build_owned_column_from_chain_translated, is_linked_chain,
    is_sound_chain, slab_chain_byte_len,
};
use roxlap_core::vxl::VoxColor;

const NO_NARROWING: CfNarrowing = CfNarrowing {
    at_mip: false,
    per_column: false,
    keep_slots: false,
};

const GYLOOKUP: [i32; 64] = [0; 64];
const GCSUB: [i64; 9] = [0; 9];
const MIPS: [usize; 2] = [0, 0];

fn inputs<'a>(column: &'a [u8], sky: Option<SkyRef<'a>>) -> GrouscanInputs<'a> {
    GrouscanInputs {
        column,
        gylookup: &GYLOOKUP,
        gcsub: &GCSUB,
        slab_buf: &[],
        column_offsets: &[],
        mip_base_offsets: &MIPS,
        vsid: 64,
        sky,
        grid_view: GridView::from_parts(64, &[], &[], &MIPS),
        camera_chunk_z: 0,
        chunk_world_z_base: 0,
        chunk_size_z: 256,
        narrowing: NO_NARROWING,
    }
}

#[test]
fn bytes_pack_back_to_the_colour() {
    assert_eq!(bytes_of(0x1234_5678), [0x78, 0x56, 0x34, 0x12]);
    assert_eq!(pack([0x78, 0x56, 0x34, 0x12]), 0x1234_5678);
}

#[test]
fn carving_undoes_filling() {
    let mut b2 = vec![10, 20, 60, 70, MAXZDIM, MAXZDIM, 0, 0, 0, 0];
    let before = b2.clone();
    insslab(&mut b2, 30, 40);
    assert_eq!(&b2[..8], &[10, 20, 30, 40, 60, 70, MAXZDIM, MAXZDIM]);
    delslab(&mut b2, 30, 40);
    assert_eq!(&b2[..6], &before[..6]);
}

#[test]
fn an_empty_scan_shows_the_sky() {
    let mut s = ScanScratch::new(16);
    s.cf[CF_SEED_INDEX].i0 = 3;
    s.cf[CF_SEED_INDEX].i1 = 9;
    s.cf[CF_SEED_INDEX].z1 = 40;
    s.gpz = [0x8000, 0x1_8000];
    s.gdz = [0x1_0000, 0x2_0000];
    s.gixy = [1, 64];
    s.gxmax = 0x20_0000;
    s.set_skycast(0x0012_3456, 0x7fff_ffff);
    let p = grouscan_run(&mut s, &inputs(&[], None), 0, 0, 5, 5, 0, 1);
    assert_eq!(p.lane, 0);
    for (i, slot) in s.radar.iter().enumerate() {
        let want = if (3..=9).contains(&i) {
            CastDat { col: 0x0012_3456, dist: 0x7fff_ffff }
        } else {
            CastDat { col: 0, dist: 0 }
        };
        assert_eq!(*slot, want, "slot {i}");
    }
}

#[test]
fn a_scan_in_order_fills_its_segment() {
    let ahead = [1; 64];
    let column = [0u8, 10, 10, 0, 0x11, 0x22, 0x33, 0x80];
    let mut inp = inputs(&column, None);
    inp.gylookup = &ahead;
    let mut s = ScanScratch::new(16);
    s.cf[CF_SEED_INDEX].i0 = 3;
    s.cf[CF_SEED_INDEX].i1 = 9;
    s.cf[CF_SEED_INDEX].z1 = 10;
    s.cf[CF_SEED_INDEX].cx1 = 0x1_0000;
    s.gpz = [0x5_8000, 0x6_8000];
    s.gdz = [0x1_0000, 0x2_0000];
    s.gixy = [1, 64];
    s.gxmax = 0x20_0000;
    let p = grouscan_run(&mut s, &inp, 0, 0, 5, 5, 0, 1);
    assert_eq!(p.dispatch, InitialDispatch::DrawFlor);
    assert_eq!(s.radar[9].col as u32, 0x8033_2211);
    for (i, slot) in s.radar.iter().enumerate() {
        let dist = if (3..=9).contains(&i) { 0x5_0000 } else { 0 };
        assert_eq!(slot.dist, dist, "slot {i}");
    }
}

#[test]
fn a_scan_with_a_limit_ends_as_one_without() {
    let ahead = [1; 64];
    let column = [0u8, 10, 10, 0, 0x11, 0x22, 0x33, 0x80];
    let mut inp = inputs(&column, None);
    inp.gylookup = &ahead;
    let seed = || {
        let mut s = ScanScratch::new(16);
        s.cf[CF_SEED_INDEX].i0 = 3;
        s.cf[CF_SEED_INDEX].i1 = 9;
        s.cf[CF_SEED_INDEX].z1 = 10;
        s.cf[CF_SEED_INDEX].cx1 = 0x1_0000;
        s.gpz = [0x5_8000, 0x6_8000];
        s.gdz = [0x1_0000, 0x2_0000];
        s.gixy = [1, 64];
        s.gxmax = 0x20_0000;
        s
    };
    let mut free = seed();
    let p = grouscan_run(&mut free, &inp, 0, 0, 5, 5, 0, 1);
    let mut limited = seed();
    let q = grouscan_run_within(&mut limited, &inp, 0, 0, 5, 5, 0, 1, 100);
    assert_eq!(q, Some(p));
    assert_eq!(limited.radar, free.radar);
    assert_eq!(limited.cf, free.cf);

    // The floor alone takes one phase, and the end another.
    let mut short = seed();
    assert_eq!(grouscan_run_within(&mut short, &inp, 0, 0, 5, 5, 0, 1, 1), None);
    assert_eq!(short.radar, free.radar);

    // A segment that reaches to the end of its range stops the scan before
    // its first phase: only the first grid line was crossed.
    let mut far = seed();
    far.cf[CF_SEED_INDEX].i0 = isize::MIN;
    assert_eq!(grouscan_run_within(&mut far, &inp, 0, 0, 5, 5, 0, 1, 100), None);
    assert_eq!(far.radar, seed().radar);
    assert_eq!(far.gpz, [0x6_8000, 0x6_8000]);

    // Tables that make a cross product overflow: nothing changes.
    let mut unwatched = seed();
    let mut low = [1; 64];
    low[63] = 0x8000;
    inp.gylookup = &low;
    assert_eq!(grouscan_run_within(&mut unwatched, &inp, 0, 0, 5, 5, 0, 1, 100), None);
    assert_eq!(unwatched.gpz, seed().gpz);
    inp.gylookup = &ahead;
    let lat = [0, -0x7fff_0001];
    inp.sky = Some(SkyRef { pixels: &[], lat: &lat, xsiz_post: 1, row_stride: 2 });
    assert_eq!(grouscan_run_within(&mut unwatched, &inp, 0, 0, 5, 5, 0, 1, 100), None);
    assert_eq!(unwatched.gpz, seed().gpz);
}

#[test]
fn a_scan_with_a_limit_changes_level() {
    let seed = || {
        let mut s = ScanScratch::new(16);
        s.cf[CF_SEED_INDEX].i0 = 3;
        s.cf[CF_SEED_INDEX].i1 = 9;
        s.cf[CF_SEED_INDEX].z1 = 10;
        s.gpz = [0x1_0000, 0x7fff_ffff];
        s.gdz = [0x1_0000, 0];
        s.gixy = [1, 64];
        s.gxmax = 0x10_0000;
        s.skycast = CastDat { col: 77, dist: 88 };
        s
    };
    let mips = [0usize, 4096, 5120];
    let mut inp = inputs(&[], None);
    inp.mip_base_offsets = &mips;
    let mut free = seed();
    let p = grouscan_run(&mut free, &inp, 0, 325, 5, 5, 0x4_0000, 2);
    let mut limited = seed();
    let q = grouscan_run_within(&mut limited, &inp, 0, 325, 5, 5, 0x4_0000, 2, 1000);
    assert_eq!(q, Some(p));
    assert_eq!(limited.radar, free.radar);
    assert_eq!(limited.radar[3..=9], [CastDat { col: 77, dist: 88 }; 7]);
    assert_eq!(limited.gdz, [0x2_0000, 0]);
    assert_eq!((limited.gpz, limited.cf), (free.gpz, free.cf));

    // At one level the grid lines keep their distance.
    let mut single = seed();
    assert!(grouscan_run_within(&mut single, &inp, 0, 325, 5, 5, 0x4_0000, 1, 1000).is_some());
    assert_eq!(single.gdz, [0x1_0000, 0]);

    // Without a table for the second level the scan stops before the level
    // change, and no sky is drawn.
    inp.mip_base_offsets = &mips[..1];
    let mut stopped = seed();
    assert_eq!(
        grouscan_run_within(&mut stopped, &inp, 0, 325, 5, 5, 0x4_0000, 2, 1000),
        None
    );
    assert_eq!(stopped.gdz, [0x1_0000, 0]);
    assert_eq!(stopped.radar, seed().radar);
}

fn ground_seed() -> ScanScratch {
    let mut s = ScanScratch::new(16);
    s.cf[CF_SEED_INDEX].i0 = 3;
    s.cf[CF_SEED_INDEX].i1 = 9;
    s.cf[CF_SEED_INDEX].z1 = 30;
    s.cf[CF_SEED_INDEX].cx0 = 0x1_0000;
    s.cf[CF_SEED_INDEX].cx1 = 0x1_0000;
    s.gpz = [0x1_0000, 0x7fff_ffff];
    s.gdz = [0x1_0000, 0];
    s.gixy = [1, 64];
    s.gxmax = 0x10_0000;
    s
}

#[test]
fn a_scan_over_plain_ground_ends_within_its_phases() {
    // Sixteen grid lines, and no screen position that draws anything.
    let behind = [-1; 64];
    let column = [0u8, 40, 40, 0, 1, 2, 3, 0x80];
    let mut inp = inputs(&column, None);
    inp.gylookup = &behind;
    let mut s = ground_seed();
    let phases = 20 + 13 * 16;
    assert!(grouscan_run_within(&mut s, &inp, 0, 0, 5, 5, 0, 1, phases).is_some());
    assert!(s.gpz[0] > s.gxmax);
}

#[test]
fn a_scan_that_splits_without_end_does_not_end() {
    // The right edge is past the ray at the next ceiling and not past it
    // below the slab, so each split takes no slot; the lower part is then
    // filled and taken off the stack, and the same slab is met again.
    let mut column = vec![2u8, 5, 5, 0, 1, 2, 3, 0x80, 0, 40, 60, 20];
    column.resize(12 + 21 * 4, 7);
    let mut looks = [-1; 64];
    looks[19] = 1;
    looks[20] = 1;
    let mut inp = inputs(&column, None);
    inp.gylookup = &looks;
    for limit in [1_000, 100_000] {
        let mut s = ground_seed();
        assert_eq!(grouscan_run_within(&mut s, &inp, 0, 0, 5, 5, 0, 1, limit), None);
        assert_eq!(s.gpz, [0x3_0000, 0x7fff_ffff]);
    }
    // With one table entry less the same scan ends.
    let mut fewer = looks;
    fewer[20] = -1;
    inp.gylookup = &fewer;
    assert!(grouscan_run_within(&mut ground_seed(), &inp, 0, 0, 5, 5, 0, 1, 1_000).is_some());
}

#[test]
fn a_seed_that_cannot_be_read_changes_nothing() {
    let offsets = [0u32; 5];
    let mips = [0usize, 5];
    let slab = [0u8, 10, 10, 0, 0x11, 0x22, 0x33, 0x80];
    let chunk = GridView::from_parts(2, &slab, &offsets, &mips);
    let chunks = [Some(chunk)];
    let mut grid = ChunkGrid {
        chunks: &chunks,
        origin_chunk_xy: [0, 0],
        origin_chunk_z: 0,
        chunks_x: 1,
        chunks_y: 1,
        chunks_z: 1,
    };
    let crosses = |grid: &ChunkGrid<'_>, side: u32| {
        let mut s = ScanScratch::new(4);
        s.gpz = [1, 2];
        s.gdz = [10, 10];
        s.gxmax = 1;
        let mut inp = inputs(&[], None);
        inp.grid_view = GridView::from_chunk_grid(grid, side);
        assert_eq!(grouscan_run_within(&mut s, &inp, 0, 0, 1, 1, 0, 1, 0), None);
        s.gpz == [11, 2]
    };
    assert!(crosses(&grid, 2));
    assert!(!crosses(&grid, 3));
    assert!(!crosses(&grid, 0));
    grid.origin_chunk_xy = [i32::MIN, 0];
    assert!(!crosses(&grid, 2));
    grid.origin_chunk_xy = [0, 0];
    let empty: [usize; 0] = [];
    let bare = [Some(GridView::from_parts(2, &slab, &offsets, &empty))];
    grid.chunks = &bare;
    assert!(!crosses(&grid, 2));
}

#[test]
fn a_textured_sky_leaves_other_slots_alone() {
    let sky = Sky {
        pixels: vec![11, 22, 33, 44],
        lat: vec![0, 0, 0, 0],
        xsiz: 3,
        bpl: 8,
        ysiz: 2,
    };
    let view = SkyRef::from_sky(&sky);
    assert_eq!(view.row_stride, 2);
    let mut s = ScanScratch::new(8);
    s.cf[CF_SEED_INDEX].i0 = 2;
    s.cf[CF_SEED_INDEX].i1 = 4;
    s.sky_off = 4;
    s.set_skycast(77, 9);
    let inp = inputs(&[], Some(view));
    let mut state = GrouscanState::from_seed(&mut s, &inp, 0, 0, 0, 0, 1);
    assert_eq!(phase_startsky(&mut state), Phase::Done);
    // The search stays at the last column; the row before it is one texel in,
    // so the column after the last texel shows the plain colour.
    for i in 2..=4 {
        assert_eq!(s.radar[i], CastDat { col: 77, dist: 9 });
    }
    assert_eq!(s.radar[1], CastDat { col: 0, dist: 0 });
    assert_eq!(s.radar[5], CastDat { col: 0, dist: 0 });
}

#[test]
fn a_sky_row_is_counted_in_whole_texels() {
    let mut sky = Sky { pixels: Vec::new(), lat: Vec::new(), xsiz: 0, bpl: -7, ysiz: 1 };
    assert_eq!(SkyRef::from_sky(&sky).row_stride, -1);
    sky.bpl = 7;
    assert_eq!(SkyRef::from_sky(&sky).row_stride, 1);
}

#[test]
fn neutral_brightness_keeps_a_scanned_colour() {
    let mut tail = 0u32;
    assert_eq!(grouscan_shade(0x8012_ab34, &mut tail, 0), 0x8012_ab34);
    assert_eq!(tail, 0x8012_ab34);
}

#[test]
fn a_cross_product_reaches_the_ends_of_its_range() {
    // Three of the four factors at their lowest.
    assert_eq!(
        grouscan_cross_sign(i32::MIN, i32::MIN, i32::MIN, 0x7fff),
        0x4000_0000 - 0x8000 * 0x7fff
    );
    assert_eq!(grouscan_cross_sign(i32::MIN, 0, 0, 0x8000), 0x4000_0000);
}

#[test]
fn exchanging_depths_twice_changes_nothing() {
    let mut s = ScanScratch::new(4);
    let inp = inputs(&[], None);
    let mut state = GrouscanState::from_seed(&mut s, &inp, 0, 0, 0, 0, 1);
    state.ogx = 5;
    state.gx = 9;
    phase_pre_draw_ceil(&mut state);
    phase_pre_draw_ceil(&mut state);
    assert_eq!((state.ogx, state.gx), (5, 9));
}

#[test]
fn scratch_starts_empty() {
    let s = ScanScratch::new(3);
    assert_eq!(s.radar, vec![CastDat { col: 0, dist: 0 }; 3]);
    assert!(s.cf.iter().all(|c| *c == CfType::default()));
}

#[test]
fn lowering_undoes_raising() {
    let mut col = vec![2u8, 5, 5, 0, 1, 2, 3, 4];
    col.extend_from_slice(&[0, 20, 21, 18, 5, 6, 7, 8, 9, 10, 11, 12]);
    let mut up = Vec::new();
    build_owned_column_from_chain_translated(&mut up, &col, 0, 100);
    assert_eq!(slab_chain_byte_len(&up), slab_chain_byte_len(&col));
    let mut down = Vec::new();
    build_owned_column_from_chain_translated(&mut down, &up, 0, -100);
    let mut plain = Vec::new();
    build_owned_column_from_chain(&mut plain, &col, 0);
    assert_eq!(down, plain);
}

#[test]
fn chains_that_break_off_are_not_sound() {
    assert!(is_sound_chain(&[0, 255, 253, 0]));
    assert!(is_sound_chain(&[2, 5, 5, 0, 1, 2, 3, 4, 0, 20, 20, 18]));
    assert!(!is_sound_chain(&[2, 5, 5, 0, 1, 2, 3, 4]));
    assert!(!is_sound_chain(&[1, 9, 5, 0, 0, 20, 20, 18]));
    assert!(!is_sound_chain(&[0, 1, 2]));
}

#[test]
fn a_tail_shorter_than_a_header_is_no_chain() {
    assert_eq!(slab_chain_byte_len(&[]), 0);
    assert_eq!(slab_chain_byte_len(&[1, 2, 3]), 0);
    assert_eq!(slab_chain_byte_len(&[0, 255, 254, 0, 9]), 4);
    let buf = [0u8, 255, 254, 0, 1, 2, 3];
    let mut target = vec![5u8];
    build_owned_column_from_chain(&mut target, &buf, 4);
    assert_eq!(target, vec![5]);
    build_owned_column_from_chain_translated(&mut target, &buf, 4, 7);
    assert_eq!(target, vec![5]);
}

#[test]
fn ceiling_colours_may_start_at_the_first_byte() {
    assert!(is_sound_chain(&[1, 7, 5, 0, 0, 20, 20, 18]));
    assert!(!is_sound_chain(&[1, 8, 5, 0, 0, 20, 20, 18]));
    assert!(is_linked_chain(&[1, 8, 5, 0, 0, 20, 20, 18]));
    assert!(!is_linked_chain(&[2, 8, 5, 0, 0, 20, 20, 18]));
}

#[test]
fn grids_with_broken_columns_cannot_be_mapped() {
    let good = [0u8, 255, 253, 0];
    let bad = [9u8, 255, 253, 0];
    let cols = [0u32];
    let mips = [0usize, 1];
    let g = GridView::from_parts(1, &good, &cols, &mips);
    let b = GridView::from_parts(1, &bad, &cols, &mips);
    assert!(chunk_is_mappable(&g, 0));
    assert!(!chunk_is_mappable(&b, 0));
    assert!(!chunk_is_mappable(&g, 32));
    assert!(grid_is_mappable(&g, 0));
    assert!(can_sample(&g, 0));
    assert!(!can_sample(&g.with_chunk_size_xy(3), 0));
    assert!(!can_sample(&g, 32));
    assert!(can_paint(&g, 0, 0, 0));
    assert!(!can_paint(&b, 0, 0, 0));
    assert!(can_paint(&b, 1, 0, 0));
    let chunks = [Some(g), None, Some(b)];
    let mut cg = ChunkGrid {
        chunks: &chunks,
        origin_chunk_xy: [0, 0],
        origin_chunk_z: 0,
        chunks_x: 3,
        chunks_y: 1,
        chunks_z: 1,
    };
    assert!(!grid_is_mappable(&GridView::from_chunk_grid(&cg, 1), 0));
    // The box ends before the broken chunk.
    cg.chunks_x = 2;
    assert!(grid_is_mappable(&GridView::from_chunk_grid(&cg, 1), 0));
    cg.origin_chunk_z = i32::MAX;
    assert!(grid_is_mappable(&GridView::from_chunk_grid(&cg, 1), 0));
    cg.origin_chunk_xy = [i32::MAX, 0];
    cg.chunks = &chunks[1..];
    assert!(!grid_is_mappable(&GridView::from_chunk_grid(&cg, 1), 0));
    cg.chunks_x = u32::MAX;
    assert!(!grid_is_mappable(&GridView::from_chunk_grid(&cg, 1), 0));
}

#[test]
fn indices_and_bounds_that_leave_their_range_are_told() {
    let g = GridView::from_parts(1, &[], &[], &[]);
    assert!(g.has_bounds());
    assert!(g.can_index([i32::MAX, i32::MIN, 0]));
    let chunks = [Some(g)];
    let mut cg = ChunkGrid {
        chunks: &chunks,
        origin_chunk_xy: [5, -1],
        origin_chunk_z: -1,
        chunks_x: 1,
        chunks_y: 1,
        chunks_z: 2,
    };
    let v = GridView::from_chunk_grid(&cg, 16);
    assert!(v.has_bounds());
    assert_eq!(v.voxel_bounds(), ([80, -16, -256], [96, 0, 256]));
    assert!(v.can_index([i32::MIN + 5, 0, 0]));
    assert!(!v.can_index([i32::MIN + 4, 0, 0]));
    assert!(!v.can_index([0, i32::MAX, 0]));
    assert!(!v.can_index([0, 0, i32::MAX]));
    cg.origin_chunk_xy = [0x0800_0000, 0];
    assert!(!GridView::from_chunk_grid(&cg, 16).has_bounds());
    cg.origin_chunk_xy = [0x07ff_ffff, 0];
    assert!(!GridView::from_chunk_grid(&cg, 16).has_bounds());
    cg.origin_chunk_xy = [0x07ff_fffe, 0];
    assert!(GridView::from_chunk_grid(&cg, 16).has_bounds());
    cg.origin_chunk_z = 0x0080_0000;
    assert!(!GridView::from_chunk_grid(&cg, 16).has_bounds());
}

#[test]
fn a_cell_is_read_only_where_its_brick_is_marked() {
    // The second column's ceiling colours would start before it.
    let slab = [0u8, 255, 255, 0, 1, 2, 3, 4, 1, 250, 240, 0, 0, 255, 255, 252, 1, 2, 3, 4];
    let cols = [0u32, 8, 0, 0, 0];
    let mips = [0usize, 4];
    let g = GridView::from_parts(2, &slab, &cols, &mips).with_chunk_size_xy(2);
    assert!(grid_is_mappable(&g, 0) && can_sample(&g, 0));
    assert!(can_paint(&g, 0, 0, 0) && !can_paint(&g, 1, 0, 0));
    let (cache, mip) = local_cache(&g, 0);
    let mut s = Sampler::new(g, &cache, mip, VoxColor(7));
    assert!(s.is_marked([0, 0, 255]) && !s.is_marked([0, 0, 10]));
    assert!(can_hit(&s, [0, 0, 255]));
    assert!(!can_hit(&s, [1, 0, 255]));
    assert!(can_hit(&s, [1, 0, 10]));
    assert_eq!(s.hit([1, 0, 10]), None);
    assert_eq!(s.hit([0, 0, 255]), Some(VoxColor(0x0403_0201)));

    let chunks = [Some(g)];
    let cg = ChunkGrid {
        chunks: &chunks,
        origin_chunk_xy: [i32::MAX, 0],
        origin_chunk_z: 0,
        chunks_x: 1,
        chunks_y: 1,
        chunks_z: 1,
    };
    let none = BrickCache::new();
    let far = Sampler::new(GridView::from_chunk_grid(&cg, 2), &none, 0, VoxColor(7));
    let walk = |x: i32| CellWalk::new([x, 0, 0], [x + 1, 1, 1], [1, 1, 1], [x, 0, 0]);
    assert!(walk(0).can_look(&far) && can_hit(&far, [0, 0, 0]));
    assert!(!walk(-100).can_look(&far) && !can_hit(&far, [-100, 0, 0]));
}

#[test]
fn an_empty_run_marks_no_brick() {
    // The ceiling of the second slab is where the first slab begins, so
    // the run between them holds nothing.
    let slab = [1u8, 8, 7, 0, 0, 100, 100, 8, 1, 2, 3, 4];
    let cols = [0u32, 0];
    let mips = [0usize, 1];
    let g = GridView::from_parts(1, &slab, &cols, &mips);
    assert_eq!(g.for_each_run_mip(0, 0, 0), vec![(8, 8), (100, 256)]);
    let map = BrickMap::build(&g, 0);
    assert!(!map.occupied([0, 0, 1]));
    assert!(!map.occupied([0, 0, 0]));
    assert!(map.occupied([0, 0, 12]));
}

#[test]
fn runs_come_top_to_bottom_and_their_tops_are_coloured() {
    let mut slab = vec![3u8, 10, 10, 0];
    slab.extend_from_slice(&0x8000_0011u32.to_le_bytes());
    slab.extend_from_slice(&0x8000_0022u32.to_le_bytes());
    slab.extend_from_slice(&[0, 40, 40, 30]);
    slab.extend_from_slice(&0x8000_0033u32.to_le_bytes());
    let cols = [0u32, slab.len() as u32];
    let mips = [0usize, 1];
    let g = GridView::from_parts(1, &slab, &cols, &mips);
    let runs = g.for_each_run_mip(0, 0, 0);
    assert_eq!(runs, vec![(10, 30), (40, 256)]);
    assert_eq!(g.voxel_color(0, 0, 10), Some(VoxColor(0x8000_0011)));
    assert_eq!(g.voxel_color(0, 0, 40), Some(VoxColor(0x8000_0033)));
    assert_eq!(g.voxel_color(0, 0, 29), Some(VoxColor(0x8000_0022)));

    // A last slab without floor colours has a buried bottom and no more.
    let buried = [0u8, 100, 99, 0];
    let b = GridView::from_parts(1, &buried, &cols, &mips);
    assert_eq!(b.for_each_run_mip(0, 0, 0), vec![(100, 256)]);
    assert_eq!(b.voxel_color(0, 0, 100), None);
}

#[test]
fn levels_that_are_not_there_have_no_runs() {
    let slab = [0u8, 100, 99, 0];
    let cols = [0u32];
    let mips = [0usize, 1];
    let g = GridView::from_parts(1, &slab, &cols, &mips);
    assert_eq!(g.for_each_run_mip(0, 0, 40), vec![]);
    assert_eq!(g.for_each_run_mip(0, 0, 1), vec![]);
    assert_eq!(g.for_each_run_mip(3, 0, 0), vec![]);
}

#[test]
fn full_brightness_keeps_and_shade_darkens() {
    assert_eq!(shade(0x8012_ab34, 0), 0x8012_ab34);
    assert_eq!(shade(0x8080_8080, 0x40), 0x8040_4040);
    assert_eq!(shade(0x8080_8080, 0x90), 0x8000_0000);
    assert_eq!(shade(0xff80_4020, 0), 0x80ff_7f3f);
}

#[test]
fn fog_goes_from_the_colour_to_the_fog() {
    assert_eq!(fog_mix(0x8010_2030, 0x00ff_ee00, 0), 0x8010_2030);
    assert_eq!(fog_mix(0x8010_2030, 0x00ff_ee00, 256), 0x80ff_ee00);
    assert_eq!(fog_mix(0x8000_0000, 0x00ff_0080, 128), 0x807f_0040);
}

#[test]
fn faces_are_shaded_by_side() {
    let shades = [1, 2, 3, 4, 5, -6];
    assert_eq!(side_shade_sub(shades, 0, [1, 0, 0]), 1);
    assert_eq!(side_shade_sub(shades, 0, [-1, 0, 0]), 2);
    assert_eq!(side_shade_sub(shades, 2, [0, 0, 1]), 5);
    assert_eq!(side_shade_sub(shades, 2, [0, 0, -1]), 0);
    assert_eq!(side_shade_sub(shades, 3, [1, 1, 1]), 0);
}

#[test]
fn bands_share_out_every_row_once() {
    assert_eq!(row_bands(2, 12, 3), [(2, 6), (6, 10), (10, 12)]);
    assert_eq!(row_bands(2, 4, 9), [(2, 3), (3, 4)]);
    assert_eq!(row_bands(0, 5, 0), [(0, 5)]);
    assert!(row_bands(5, 5, 3).is_empty());
    assert!(row_bands(6, 5, 3).is_empty());
}

#[test]
fn a_material_goes_by_red_green_and_blue() {
    let map = [(0x80aa_bbcc, 3), (0x0011_2233, 4), (0x00aa_bbcc, 5)];
    assert_eq!(material_for_color(&map, 0x00aa_bbcc), 3);
    assert_eq!(material_for_color(&map, 0xff11_2233), 4);
    assert_eq!(material_for_color(&map, 0x0000_0001), 0);
    assert_eq!(material_for_color(&[], 0), 0);
}

#[test]
fn a_chunk_slot_holds_one_chunk() {
    let a = [1u8, 0, 0, 0];
    let b = [2u8, 0, 0, 0];
    let chunks: Vec<Option<GridView<'_>>> = (0..12)
        .map(|i| {
            let slab: &[u8] = if i == 9 { &b } else { &a };
            Some(GridView::from_parts(1, slab, &[], &MIPS))
        })
        .collect();
    let cg = ChunkGrid {
        chunks: &chunks,
        origin_chunk_xy: [-1, 5],
        origin_chunk_z: 3,
        chunks_x: 2,
        chunks_y: 3,
        chunks_z: 2,
    };
    let gv = GridView::from_chunk_grid(&cg, 1);
    let mut found = Vec::new();
    for z in 3..5 {
        for y in 5..8 {
            for x in -1..1 {
                let c = gv.chunk_at_xyz([x, y, z]).expect("in the box");
                if c.slab_buf == b {
                    found.push([x, y, z]);
                }
            }
        }
    }
    assert_eq!(found, [[0, 6, 4]]);
}

#[test]
fn a_stored_black_shows_as_air() {
    let mut slab = vec![0u8, 2, 3, 0];
    slab.extend_from_slice(&0x8000_0000u32.to_le_bytes());
    slab.extend_from_slice(&0x8000_0001u32.to_le_bytes());
    let cols = [0u32];
    let mips = [0usize, 1];
    let g = GridView::from_parts(1, &slab, &cols, &mips);
    let fallback = VoxColor(0x8011_1111);
    assert_eq!(g.surface_color(0, 0, 1, fallback), None);
    assert_eq!(g.surface_color(0, 0, 2, fallback), None);
    assert_eq!(g.surface_color(0, 0, 3, fallback), Some(VoxColor(0x8000_0001)));
    assert_eq!(g.surface_color(0, 0, 9, fallback), Some(fallback));
    assert_eq!(g.voxel_run_top(0, 0, 9), Some(2));
    assert_eq!(g.for_each_run(0, 0), [(2, 256)]);
    assert_eq!(g.voxel_color(0, 0, 2), None);
    assert_eq!(g.voxel_color_raw_mip(0, 0, 2, 0), Some(VoxColor(0x8000_0000)));
    assert_eq!(g.voxel_bounds(), ([0, 0, 0], [1, 1, 256]));
}

#[test]
fn a_tinted_tile_is_laid_over_the_screen() {
    let tile = [0x80c0_c0c0u32 as i32, 0x00ff_ffff, 0xff12_3456u32 as i32, 0];
    let mut fb = vec![0x5540_4040u32; 4];
    let mut target = DrawTarget { framebuffer: &mut fb, pitch_pixels: 4, width: 4, height: 1 };
    drawtile(&mut target, &tile, 16, 3, 1, 0, 0, 0, 0, 1 << 16, 1 << 16, 0, -1);
    assert_eq!(fb, [0x4080_8080, 0x5540_4040, 0xff12_3456, 0x5540_4040]);
}

#[test]
fn a_tile_of_no_size_draws_nothing() {
    let mut fb = vec![7u32; 4];
    let mut target = DrawTarget { framebuffer: &mut fb, pitch_pixels: 2, width: 2, height: 2 };
    drawtile(&mut target, &[], 8, 2, 2, 0, 0, 0, 0, 1 << 16, 1 << 16, 0, 0);
    drawtile(&mut target, &[1, 2, 3, 4], 8, 2, 2, 0, 0, 0, 0, 0, 1 << 16, 0, 0);
    assert_eq!(fb, [7; 4]);
}

#[test]
fn the_engine_keeps_its_settings() {
    let mut e: Engine<u8, i64> = Engine::new(1);
    assert_eq!(e.sky_color(), 0x8087_ceeb);
    assert_eq!(e.kv6col(), DEFAULT_KV6COL);
    e.set_camera(2);
    e.set_side_shades(1, 2, 3, 4, 5, 6);
    e.set_kv6col(9);
    e.set_lightmode(2);
    e.add_light(-5);
    e.add_light(6);
    assert_eq!(e.camera(), 2);
    assert_eq!(e.side_shades(), [1, 2, 3, 4, 5, 6]);
    assert_eq!((e.kv6col(), e.lightmode()), (9, 2));
    assert_eq!(e.lights(), [-5, 6]);
    e.clear_lights();
    assert!(e.lights().is_empty());
    assert!(e.sky().is_none());
    let sky = Sky { pixels: vec![1], lat: vec![2], xsiz: 0, bpl: 4, ysiz: 1 };
    e.set_sky(Some(sky));
    assert_eq!(e.sky().map(|s| s.pixels.len()), Some(1));
}

#[test]
fn a_frame_is_drawn_whole_unless_cut() {
    let s = OpticastSettings::for_oracle_framebuffer(640, 480, 3, 2, 1);
    assert_eq!((s.hx, s.hy, s.hz, s.anginc), (3, 2, 3, 1));
    assert_eq!((s.y_start, s.y_end, s.x_start, s.x_end), (0, 480, 0, 640));
    assert_eq!((s.mip_levels, s.mip_scan_dist, s.max_scan_dist), (1, 4, 1024));
    let t = s.with_focal_length(9).with_y_range(10, 20).with_x_range(30, 40);
    assert_eq!((t.hz, t.y_start, t.y_end, t.x_start, t.x_end), (9, 10, 20, 30, 40));
}

#[test]
fn a_power_factors_into_its_tables() {
    let t = PowerTables::new();
    assert_eq!(t.factr[1][0], 0);
    assert_eq!(t.factr[250], [125, 2]);
    assert_eq!(t.factr[221], [13, 17]);
}

#[test]
fn an_outline_has_four_or_six_corners() {
    assert_eq!(PTFACES16[1], [4, 0, 32, 96, 64, 0, 32, 0]);
    assert!(PTFACES16.iter().all(|f| [0, 4, 6].contains(&f[0])));
}
