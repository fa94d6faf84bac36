//! Narrowing of segments where a ray moves to coarser columns.
use roxlap_core::cf_narrow::{cf_narrow_simulate, CfNarrowInputs};
use roxlap_core::grouscan::CfType;

fn cf(i0: isize, i1: isize, cx1: i32, cy1: i32, z1: i32) -> CfType {
    CfType {
        i0,
        i1,
        z0: 0,
        z1,
        cx0: 0,
        cy0: 0,
        cx1,
        cy1,
        chz_layer: 0,
    }
}

fn gylookup_with_one_at(z1: usize, gy: i32) -> Vec<i32> {
    let mut g = vec![0i32; (z1 + 1).max(8)];
    g[z1] = gy;
    g
}

#[test]
fn old_mip_zero_is_noop() {
    let mut cf_arr = [cf(0, 100, 0x0001_0000, 0, 10)];
    let gylookup = gylookup_with_one_at(10, 1);
    let inputs = CfNarrowInputs {
        gpz_at_entry: [0x0001_0000, i32::MAX],
        gdz_old: [0x0002_0000, 0],
        gi0: 0x0002_0000,
        gi1: 0,
        gylookup: &gylookup,
        old_mip: 0,
    };
    cf_narrow_simulate(&mut cf_arr, &inputs);
    assert_eq!(cf_arr[0].i1, 100);
    assert_eq!(cf_arr[0].cx1, 0x0001_0000);
    assert_eq!(cf_arr[0].cy1, 0);
}

#[test]
fn axis_aligned_one_step_narrows_once() {
    let mut cf_arr = [cf(0, 100, 0x0001_0000, 0, 10)];
    let gylookup = gylookup_with_one_at(10, 1);
    let inputs = CfNarrowInputs {
        gpz_at_entry: [0x0001_0000, i32::MAX],
        gdz_old: [0x0002_0000, 0],
        gi0: 0x0002_0000,
        gi1: 0,
        gylookup: &gylookup,
        old_mip: 1,
    };
    cf_narrow_simulate(&mut cf_arr, &inputs);
    assert_eq!(cf_arr[0].i1, 99);
    assert_eq!(cf_arr[0].cx1, -0x0001_0000);
    assert_eq!(cf_arr[0].cy1, 0);
}

#[test]
fn axis_aligned_negative_cross_sign_no_narrow() {
    let mut cf_arr = [cf(0, 100, 0x0001_0000, 0, 10)];
    let gylookup = gylookup_with_one_at(10, -1);
    let inputs = CfNarrowInputs {
        gpz_at_entry: [0x0001_0000, i32::MAX],
        gdz_old: [0x0002_0000, 0],
        gi0: 0x0002_0000,
        gi1: 0,
        gylookup: &gylookup,
        old_mip: 3,
    };
    cf_narrow_simulate(&mut cf_arr, &inputs);
    assert_eq!(cf_arr[0].i1, 100);
    assert_eq!(cf_arr[0].cx1, 0x0001_0000);
}

#[test]
fn cy_dominated_one_narrow_then_stops() {
    let mut cf_arr = [cf(0, 100, 0x0001_0000, 0x0001_0000, 10)];
    let gylookup = gylookup_with_one_at(10, 0);
    let inputs = CfNarrowInputs {
        gpz_at_entry: [0x0001_0000, i32::MAX],
        gdz_old: [0x0002_0000, 0],
        gi0: 0x0001_0000,
        gi1: 0x0001_0000,
        gylookup: &gylookup,
        old_mip: 2,
    };
    cf_narrow_simulate(&mut cf_arr, &inputs);
    assert_eq!(cf_arr[0].i1, 99);
    assert_eq!(cf_arr[0].cx1, 0);
    assert_eq!(cf_arr[0].cy1, 0);
}

#[test]
fn empty_inputs_are_noop() {
    let mut cf_arr: [CfType; 0] = [];
    let gylookup = vec![1i32; 16];
    let inputs = CfNarrowInputs {
        gpz_at_entry: [0, 0],
        gdz_old: [0, 0],
        gi0: 0,
        gi1: 0,
        gylookup: &gylookup,
        old_mip: 4,
    };
    cf_narrow_simulate(&mut cf_arr, &inputs);

    assert!(cf_arr.is_empty());

    let mut cf_arr2 = [cf(0, 100, 0x10000, 0, 0)];
    let inputs2 = CfNarrowInputs {
        gpz_at_entry: [0, 0],
        gdz_old: [0, 0],
        gi0: 0,
        gi1: 0,
        gylookup: &[],
        old_mip: 4,
    };
    cf_narrow_simulate(&mut cf_arr2, &inputs2);
    assert_eq!(cf_arr2[0].i1, 100);
}

#[test]
fn radar_exhaustion_stops_narrowing() {
    let mut cf_arr = [cf(50, 50, 0x0010_0000, 0, 10)];
    let gylookup = gylookup_with_one_at(10, 100);
    let inputs = CfNarrowInputs {
        gpz_at_entry: [0x0001_0000, i32::MAX],
        gdz_old: [0x0002_0000, 0],
        gi0: 0x0001_0000,
        gi1: 0,
        gylookup: &gylookup,
        old_mip: 5,
    };
    cf_narrow_simulate(&mut cf_arr, &inputs);

    assert!(
        cf_arr[0].i1 >= 50,
        "i1 should not go below i0; got {}",
        cf_arr[0].i1
    );
}

#[test]
fn cumulative_narrowing_stops_when_cx_s16_zero() {
    let mut cf_arr = [cf(0, 100, 0x0001_0000, 0, 10)];
    let gylookup = gylookup_with_one_at(10, 1);
    let inputs = CfNarrowInputs {
        gpz_at_entry: [0x0001_0000, i32::MAX],
        gdz_old: [0x0002_0000, 0],
        gi0: 0x0000_4000,
        gi1: 0,
        gylookup: &gylookup,
        old_mip: 3,
    };
    cf_narrow_simulate(&mut cf_arr, &inputs);
    assert_eq!(cf_arr[0].i1, 99);
    assert_eq!(cf_arr[0].cx1, 0x0000_C000);
}

#[test]
fn ogx_evolution_can_re_trigger_narrowing() {
    let mut cf_arr = [cf(0, 100, 0x0001_0000, 0x0001_0000, 10)];
    let gylookup = gylookup_with_one_at(10, -1);
    let inputs = CfNarrowInputs {
        gpz_at_entry: [0x0001_0000, i32::MAX],

        gdz_old: [0x0002_0000, 0],
        gi0: 0x0001_0000,
        gi1: 0,
        gylookup: &gylookup,
        old_mip: 2,
    };
    let before_i1 = cf_arr[0].i1;
    let before_cx1 = cf_arr[0].cx1;
    cf_narrow_simulate(&mut cf_arr, &inputs);

    assert!(
        cf_arr[0].i1 < before_i1,
        "should have narrowed (i1: {} -> {})",
        before_i1,
        cf_arr[0].i1
    );
    assert!(cf_arr[0].cx1 < before_cx1, "cx1 should have decreased");
}

#[test]
fn one_step_narrows_until_the_edge_is_no_longer_past_the_ray() {
    let mut cf_arr = [cf(0, 100, 0x0003_0000, 0, 10)];
    let gylookup = gylookup_with_one_at(10, 1);
    let inputs = CfNarrowInputs {
        gpz_at_entry: [0x0001_0000, i32::MAX],
        gdz_old: [0x0002_0000, 0],
        gi0: 0x0001_0000,
        gi1: 0,
        gylookup: &gylookup,
        old_mip: 1,
    };
    cf_narrow_simulate(&mut cf_arr, &inputs);
    assert_eq!(cf_arr[0].i1, 97);
    assert_eq!((cf_arr[0].cx1, cf_arr[0].cy1), (0, 0));

    // One slot is left where the edge stays past the ray.
    let mut short = [cf(0, 2, 0x0003_0000, 0, 10)];
    cf_narrow_simulate(&mut short, &inputs);
    assert_eq!((short[0].i0, short[0].i1), (0, 0));
    assert_eq!(short[0].cx1, 0x0001_0000);
}
