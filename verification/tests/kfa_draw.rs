//! The order of the limbs of a jointed sprite.
use roxlap_core::kfa_draw::{limb_steps, HingeLink, LimbStep};

#[test]
fn limbs_are_placed_after_the_one_they_hang_on() {
    // Limb 2 is the root, 0 hangs on it, and 1 hangs on 0.
    let links = [
        HingeLink { parent: 2, htype: 0 },
        HingeLink { parent: 0, htype: 1 },
        HingeLink { parent: -1, htype: 0 },
    ];
    assert_eq!(
        limb_steps(&[1, 0, 2], &links),
        [
            LimbStep::Root { limb: 2 },
            LimbStep::Child { limb: 0, parent: 2, turns: true },
            LimbStep::Child { limb: 1, parent: 0, turns: false },
        ]
    );
}

#[test]
fn no_limbs_need_no_steps() {
    assert!(limb_steps(&[], &[]).is_empty());
}
