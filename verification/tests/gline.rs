//! Steps and lines of the grid along a ray.
use roxlap_core::gline::{column_steps, grid_lines};
use roxlap_core::opticast_prelude::PREC;

struct Steps {
    gixy: [i32; 2],
    gpz: [i32; 2],
    gdz: [i32; 2],
}

fn ftol(f: f32) -> i32 {
    f.round_ties_even() as i64 as i32
}

/// The steps of the right ray of a scanline that ends at `(x1, y1)` of a
/// screen whose first pixel looks along `(-320, -240)`.
fn steps_to(x1: f32, y1: f32, xfrac: [f32; 2], yfrac: [f32; 2]) -> Steps {
    let (vx1, vy1) = (x1 - 320.0, y1 - 240.0);
    let f = (vx1 * vx1 + vy1 * vy1).sqrt();
    let gap = |slope: f32| -> i32 {
        if slope.is_finite() {
            ftol(slope.abs() * PREC as f32)
        } else {
            -1
        }
    };
    let (gap_x, gap_y) = (gap(f / vx1), gap(f / vy1));
    let (x_back, y_back) = (vx1.is_sign_negative(), vy1.is_sign_negative());
    let (px, dx) = grid_lines(ftol(xfrac[usize::from(x_back)] * gap_x as f32), gap_x);
    let (py, dy) = grid_lines(ftol(yfrac[usize::from(y_back)] * gap_y as f32), gap_y);
    Steps {
        gixy: column_steps(x_back, y_back, 2048),
        gpz: [px, py],
        gdz: [dx, dy],
    }
}

#[test]
fn gixy_signs_match_ray_direction() {
    let g = steps_to(640.0, 0.0, [1.0, 0.0], [1.0, 0.0]);
    assert_eq!(g.gixy[0], 1);
    assert!(g.gixy[1] < 0, "gixy[1] = {}, expected negative", g.gixy[1]);
    assert_eq!(g.gixy[1].unsigned_abs(), 2048);
}

#[test]
fn gdz_lanes_for_known_scanline() {
    let g = steps_to(640.0, 0.0, [1.0, 0.0], [1.0, 0.0]);
    assert_eq!(g.gdz[0], (1.25_f32 * PREC as f32).round_ties_even() as i32);
    assert_eq!(
        g.gdz[1],
        ((400.0_f32 / 240.0_f32) * PREC as f32).round_ties_even() as i32
    );
}

#[test]
fn gdz_clamps_to_zero_on_overflow() {
    let g = steps_to(320.0, 480.0, [1.0, 0.0], [1.0, 0.0]);
    assert_eq!(g.gdz[0], 0);
    assert_eq!(g.gpz[0], i32::MAX);
}

#[test]
fn lines_without_a_gap_are_out_of_reach() {
    assert_eq!(grid_lines(77, 5), (77, 5));
    assert_eq!(grid_lines(77, 0), (i32::MAX, 0));
    assert_eq!(grid_lines(77, -3), (i32::MAX, 0));
    assert_eq!(column_steps(true, false, 16), [-1, 16]);
}
