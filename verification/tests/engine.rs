//! Settings of the engine and the frame that shows the sky alone.
use roxlap_core::engine::Engine;

#[derive(Clone, Copy)]
struct Camera {
    pos: [f64; 3],
    right: [f64; 3],
    down: [f64; 3],
    forward: [f64; 3],
}

fn engine() -> Engine<Camera, [i32; 3]> {
    Engine::new(Camera {
        pos: [1024.0, 1024.0, 128.0],
        right: [1.0, 0.0, 0.0],
        down: [0.0, 0.0, 1.0],
        forward: [0.0, 1.0, 0.0],
    })
}

#[test]
fn render_fills_with_sky_color() {
    let mut e = engine();
    e.set_sky_color(0xdead_beef);
    let mut buf = vec![0u32; 64 * 32];
    e.render(&mut buf, 64, 32, 64);
    assert!(buf.iter().all(|&p| p == 0xdead_beef));
}

#[test]
fn render_respects_pitch() {
    let mut e = engine();
    e.set_sky_color(0x1234_5678);
    let stride: u32 = 80;
    let width: u32 = 64;
    let height: u32 = 32;
    let mut buf = vec![0u32; (stride as usize) * (height as usize)];
    e.render(&mut buf, width, height, stride);
    for y in 0..height as usize {
        let row = &buf[y * stride as usize..(y + 1) * stride as usize];
        assert!(row[..width as usize].iter().all(|&p| p == 0x1234_5678));
        assert!(row[width as usize..].iter().all(|&p| p == 0));
    }
}

#[test]
fn fog_defaults_disabled() {
    let e = engine();
    assert_eq!(e.fog_color(), 0);
    assert_eq!(e.fog_max_scan_dist(), 0);
}

#[test]
fn set_fog_stores_color_and_distance() {
    let mut e = engine();
    e.set_fog(0xFF_AA_BB_CC, 1024);
    assert_eq!(e.fog_color(), 0xFF_AA_BB_CC);
    assert_eq!(e.fog_max_scan_dist(), 1024);
}

#[test]
fn set_fog_clamps_negative_distance_to_zero() {
    let mut e = engine();
    e.set_fog(0xFF, -100);
    assert_eq!(e.fog_max_scan_dist(), 0);
}

#[test]
fn camera_default_matches_oracle_placeholders() {
    let cam = engine().camera();
    let bits = |a: [f64; 3]| a.map(f64::to_bits);
    assert_eq!(bits(cam.pos), bits([1024.0, 1024.0, 128.0]));
    assert_eq!(bits(cam.right), bits([1.0, 0.0, 0.0]));
    assert_eq!(bits(cam.down), bits([0.0, 0.0, 1.0]));
    assert_eq!(bits(cam.forward), bits([0.0, 1.0, 0.0]));
}
