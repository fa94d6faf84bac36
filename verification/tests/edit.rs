//! Carving and filling runs of a column.
use roxlap_core::edit::{delslab, insslab, MAXZDIM};

fn build_b2(slabs: &[(i32, i32)]) -> Vec<i32> {
    let mut buf: Vec<i32> = Vec::new();
    for &(top, bot) in slabs {
        assert!(top < bot, "slab top must be < bot");
        assert!(bot < MAXZDIM, "slab bot must fit below MAXZDIM");
        buf.push(top);
        buf.push(bot);
    }

    buf.push(MAXZDIM);
    buf.push(MAXZDIM);

    buf.resize(buf.len() + 32, 0);
    buf
}

fn read_slabs(b2: &[i32]) -> Vec<(i32, i32)> {
    let mut out = Vec::new();
    let mut i = 0;
    while b2[i + 1] < MAXZDIM {
        out.push((b2[i], b2[i + 1]));
        i += 2;
    }
    out
}

#[test]
fn delslab_noop_y0_ge_y1() {
    let mut b2 = build_b2(&[(10, 20)]);
    delslab(&mut b2, 15, 15);
    assert_eq!(read_slabs(&b2), [(10, 20)]);
    delslab(&mut b2, 20, 10);
    assert_eq!(read_slabs(&b2), [(10, 20)]);
}

#[test]
fn delslab_split_inside_one_slab() {
    let mut b2 = build_b2(&[(10, 30)]);
    delslab(&mut b2, 15, 20);
    assert_eq!(read_slabs(&b2), [(10, 15), (20, 30)]);
}

#[test]
fn delslab_shrink_bot_of_slab() {
    let mut b2 = build_b2(&[(10, 30)]);
    delslab(&mut b2, 20, 30);
    assert_eq!(read_slabs(&b2), [(10, 20)]);
}

#[test]
fn delslab_shrink_top_of_slab() {
    let mut b2 = build_b2(&[(10, 30)]);
    delslab(&mut b2, 5, 15);
    assert_eq!(read_slabs(&b2), [(15, 30)]);
}

#[test]
fn delslab_carve_full_slab() {
    let mut b2 = build_b2(&[(10, 30)]);
    delslab(&mut b2, 5, 35);
    assert_eq!(read_slabs(&b2), Vec::<(i32, i32)>::new());
}

#[test]
fn delslab_in_air_noop() {
    let mut b2 = build_b2(&[(10, 30)]);
    delslab(&mut b2, 0, 8);
    assert_eq!(read_slabs(&b2), [(10, 30)]);
    delslab(&mut b2, 35, 50);
    assert_eq!(read_slabs(&b2), [(10, 30)]);
}

#[test]
fn delslab_span_two_slabs_carve_middle() {
    let mut b2 = build_b2(&[(10, 30), (50, 70)]);
    delslab(&mut b2, 20, 60);
    assert_eq!(read_slabs(&b2), [(10, 20), (60, 70)]);
}

#[test]
fn delslab_carve_two_full_slabs_keep_third() {
    let mut b2 = build_b2(&[(10, 20), (30, 40), (50, 60)]);
    delslab(&mut b2, 5, 45);
    assert_eq!(read_slabs(&b2), [(50, 60)]);
}

#[test]
fn delslab_y1_clamped_to_maxzdim_minus_1() {
    let mut b2 = build_b2(&[(10, 200)]);
    delslab(&mut b2, 100, MAXZDIM);
    assert_eq!(read_slabs(&b2), [(10, 100)]);
}

#[test]
fn delslab_carve_top_edge_of_slab() {
    let mut b2 = build_b2(&[(10, 30)]);
    delslab(&mut b2, 5, 10);
    assert_eq!(read_slabs(&b2), [(10, 30)]);
}

#[test]
fn delslab_carve_bot_edge_of_slab() {
    let mut b2 = build_b2(&[(10, 30)]);
    delslab(&mut b2, 30, 35);
    assert_eq!(read_slabs(&b2), [(10, 30)]);
}

#[test]
fn delslab_carve_exact_full_slab_keeps_neighbors() {
    let mut b2 = build_b2(&[(10, 20), (30, 40), (50, 60)]);
    delslab(&mut b2, 30, 40);
    assert_eq!(read_slabs(&b2), [(10, 20), (50, 60)]);
}

#[test]
fn insslab_noop_y0_ge_y1() {
    let mut b2 = build_b2(&[(10, 20)]);
    insslab(&mut b2, 15, 15);
    assert_eq!(read_slabs(&b2), [(10, 20)]);
    insslab(&mut b2, 20, 10);
    assert_eq!(read_slabs(&b2), [(10, 20)]);
}

#[test]
fn insslab_into_pure_air() {
    let mut b2 = build_b2(&[]);
    insslab(&mut b2, 10, 30);
    assert_eq!(read_slabs(&b2), [(10, 30)]);
}

#[test]
fn insslab_into_air_gap_above_slab() {
    let mut b2 = build_b2(&[(50, 70)]);
    insslab(&mut b2, 10, 30);
    assert_eq!(read_slabs(&b2), [(10, 30), (50, 70)]);
}

#[test]
fn insslab_into_air_gap_between_slabs() {
    let mut b2 = build_b2(&[(10, 20), (60, 70)]);
    insslab(&mut b2, 30, 50);
    assert_eq!(read_slabs(&b2), [(10, 20), (30, 50), (60, 70)]);
}

#[test]
fn insslab_into_air_gap_below_all_slabs() {
    let mut b2 = build_b2(&[(10, 20)]);
    insslab(&mut b2, 30, 50);
    assert_eq!(read_slabs(&b2), [(10, 20), (30, 50)]);
}

#[test]
fn insslab_extend_top_of_slab() {
    let mut b2 = build_b2(&[(50, 70)]);
    insslab(&mut b2, 30, 60);
    assert_eq!(read_slabs(&b2), [(30, 70)]);
}

#[test]
fn insslab_extend_bot_of_slab() {
    let mut b2 = build_b2(&[(50, 70)]);
    insslab(&mut b2, 60, 80);
    assert_eq!(read_slabs(&b2), [(50, 80)]);
}

#[test]
fn insslab_touch_top_merges() {
    let mut b2 = build_b2(&[(50, 70)]);
    insslab(&mut b2, 30, 50);
    assert_eq!(read_slabs(&b2), [(30, 70)]);
}

#[test]
fn insslab_touch_bot_merges() {
    let mut b2 = build_b2(&[(50, 70)]);
    insslab(&mut b2, 70, 80);
    assert_eq!(read_slabs(&b2), [(50, 80)]);
}

#[test]
fn insslab_merge_two_slabs() {
    let mut b2 = build_b2(&[(10, 30), (50, 70)]);
    insslab(&mut b2, 20, 60);
    assert_eq!(read_slabs(&b2), [(10, 70)]);
}

#[test]
fn insslab_engulf_inner_slabs() {
    let mut b2 = build_b2(&[(10, 20), (30, 40), (50, 60)]);
    insslab(&mut b2, 5, 70);
    assert_eq!(read_slabs(&b2), [(5, 70)]);
}

#[test]
fn insslab_engulf_then_keep_lower() {
    let mut b2 = build_b2(&[(10, 20), (30, 40), (60, 80)]);
    insslab(&mut b2, 5, 50);
    assert_eq!(read_slabs(&b2), [(5, 50), (60, 80)]);
}

#[test]
fn insslab_engulf_then_merge_lower() {
    let mut b2 = build_b2(&[(10, 20), (30, 40), (60, 80)]);
    insslab(&mut b2, 5, 60);
    assert_eq!(read_slabs(&b2), [(5, 80)]);
}

#[test]
fn insslab_chain_of_touching_inserts() {
    let mut b2 = build_b2(&[]);
    insslab(&mut b2, 10, 20);
    insslab(&mut b2, 20, 30);
    insslab(&mut b2, 30, 40);
    assert_eq!(read_slabs(&b2), [(10, 40)]);
}

#[test]
fn insslab_carve_then_insert_round_trip() {
    let original = [(10, 50)];
    let mut b2 = build_b2(&original);
    delslab(&mut b2, 20, 30);
    assert_eq!(read_slabs(&b2), [(10, 20), (30, 50)]);
    insslab(&mut b2, 20, 30);
    assert_eq!(read_slabs(&b2), original);
}

#[test]
fn insslab_into_sentinel_only_buffer_with_z_advance() {
    let mut b2 = build_b2(&[(10, 20)]);
    insslab(&mut b2, 100, 150);
    assert_eq!(read_slabs(&b2), [(10, 20), (100, 150)]);
}
