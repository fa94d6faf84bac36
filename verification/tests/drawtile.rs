//! Tiles drawn on a screen.
use roxlap_core::drawtile::{drawtile, DrawTarget};

fn alloc_fb(w: u32, h: u32, fill_col: u32) -> Vec<u32> {
    vec![fill_col; (w * h) as usize]
}

fn make_target(fb: &mut [u32], w: u32, h: u32) -> DrawTarget<'_> {
    DrawTarget {
        framebuffer: fb,
        pitch_pixels: w as usize,
        width: w,
        height: h,
    }
}

#[test]
fn one_x_no_alpha_copies_tile_pixels_unchanged() {
    let tile: Vec<i32> = (0..16).map(|i| 0x80_000000_u32 as i32 + i).collect();
    let mut fb = alloc_fb(16, 16, 0);
    let mut target = make_target(&mut fb, 16, 16);

    drawtile(
        &mut target,
        &tile,
        4 * 4,
        4,
        4,
        2 << 16,
        2 << 16,
        8 << 16,
        8 << 16,
        1 << 16,
        1 << 16,
        0,
        0,
    );

    assert_eq!(fb[7 * 16 + 7], 0x80_000005);

    assert_eq!(fb[9 * 16 + 9], 0x80_00000f);
}

#[test]
fn half_zoom_averages_2x2_blocks() {
    let tile: Vec<i32> = vec![0x80_ffffff_u32 as i32; 16];
    let mut fb = alloc_fb(16, 16, 0);
    let mut target = make_target(&mut fb, 16, 16);
    drawtile(
        &mut target,
        &tile,
        4 * 4,
        4,
        4,
        2 << 16,
        2 << 16,
        8 << 16,
        8 << 16,
        32768,
        32768,
        0,
        0,
    );

    let touched: Vec<u32> = fb.iter().copied().filter(|&p| p != 0).collect();
    assert!(!touched.is_empty(), "blit produced no pixels");
    for p in touched {
        assert_eq!(p, 0x80_ffffff, "averaged white tile must stay white");
    }
}

#[test]
fn fully_offscreen_is_noop() {
    let tile: Vec<i32> = vec![0x80_aabbcc_u32 as i32; 16];
    let mut fb = alloc_fb(16, 16, 0xdead_beef);
    let mut target = make_target(&mut fb, 16, 16);

    drawtile(
        &mut target,
        &tile,
        16,
        4,
        4,
        2 << 16,
        2 << 16,
        10000 << 16,
        10000 << 16,
        1 << 16,
        1 << 16,
        0,
        0,
    );
    assert!(fb.iter().all(|&p| p == 0xdead_beef));
}
