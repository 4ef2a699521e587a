use auge::edge::{isqrt, luma_image, EdgeFilter};
use auge::raster::{GrayBuffer, RasterBuffer, Rgba8};

fn gray_image(width: u32, height: u32, values: &[u8]) -> RasterBuffer {
    let pixels = values.iter().map(|&v| Rgba8 { r: v, g: v, b: v, a: 255 }).collect();
    RasterBuffer { width, height, has_alpha: false, pixels }
}

fn at(g: &GrayBuffer, x: u32, y: u32) -> u8 {
    g.pixels[(y * g.width + x) as usize]
}

/// Sobel magnitude the way a float square root computes it.
fn float_edges(width: u32, height: u32, luma: &[u8]) -> Vec<u8> {
    let mut out = vec![0u8; (width * height) as usize];
    let sx: [i32; 9] = [-1, 0, 1, -2, 0, 2, -1, 0, 1];
    let sy: [i32; 9] = [-1, -2, -1, 0, 0, 0, 1, 2, 1];
    for y in 1..height.saturating_sub(1) {
        for x in 1..width.saturating_sub(1) {
            let (mut gx, mut gy) = (0i32, 0i32);
            for ky in 0..3 {
                for kx in 0..3 {
                    let p = luma[((y + ky - 1) * width + x + kx - 1) as usize] as i32;
                    gx += p * sx[(ky * 3 + kx) as usize];
                    gy += p * sy[(ky * 3 + kx) as usize];
                }
            }
            out[(y * width + x) as usize] = ((gx * gx + gy * gy) as f32).sqrt() as u8;
        }
    }
    out
}

#[test]
fn integer_square_roots() {
    assert_eq!(isqrt(0), 0);
    assert_eq!(isqrt(1), 1);
    assert_eq!(isqrt(2), 1);
    assert_eq!(isqrt(4), 2);
    assert_eq!(isqrt(99), 9);
    assert_eq!(isqrt(2080800), 1442);
    assert_eq!(isqrt(4194303), 2047);
}

#[test]
fn luma_of_colour_pixels() {
    let img = RasterBuffer {
        width: 2,
        height: 1,
        has_alpha: true,
        pixels: vec![Rgba8 { r: 255, g: 0, b: 0, a: 0 }, Rgba8 { r: 10, g: 200, b: 30, a: 9 }],
    };
    let g = luma_image(&img);
    assert_eq!(g.pixels, vec![54, 147]);
}

#[test]
fn sharp_vertical_edge_saturates() {
    let img = gray_image(3, 3, &[0, 255, 255, 0, 255, 255, 0, 255, 255]);
    let out = EdgeFilter.apply(&img);
    assert_eq!(at(&out, 1, 1), 255);
    for (x, y) in [(0, 0), (1, 0), (2, 0), (0, 1), (2, 1), (0, 2), (1, 2), (2, 2)] {
        assert_eq!(at(&out, x, y), 0);
    }
}

#[test]
fn gentle_gradient() {
    let img = gray_image(3, 3, &[0, 0, 10, 0, 0, 10, 0, 0, 10]);
    let out = EdgeFilter.apply(&img);
    assert_eq!(at(&out, 1, 1), 40);
    let img = gray_image(3, 3, &[0, 0, 3, 0, 0, 0, 4, 0, 0]);
    // gx = 3 - 4 = -1, gy = -3 + 4 = 1: magnitude 1.41 rounds down.
    assert_eq!(at(&EdgeFilter.apply(&img), 1, 1), 1);
}

#[test]
fn small_images_have_no_interior() {
    for (w, h) in [(0, 0), (1, 5), (2, 2), (5, 2)] {
        let img = gray_image(w, h, &vec![200; (w * h) as usize]);
        let out = EdgeFilter.apply(&img);
        assert_eq!((out.width, out.height), (w, h));
        assert!(out.pixels.iter().all(|&v| v == 0));
    }
}

#[test]
fn matches_float_square_root() {
    let (w, h) = (23u32, 17u32);
    let mut state = 12345u64;
    let luma: Vec<u8> = (0..w * h)
        .map(|_| {
            state = state.wrapping_mul(6364136223846793005).wrapping_add(1442695040888963407);
            if (state >> 40) % 3 == 0 { 0 } else { (state >> 33) as u8 }
        })
        .collect();
    let out = EdgeFilter.apply(&gray_image(w, h, &luma));
    assert_eq!(out.pixels, float_edges(w, h, &luma));
}

#[test]
fn square_root_agrees_with_float_everywhere_it_is_used() {
    for n in (0u32..=2_080_800).step_by(7).chain(2_080_700..=2_080_800) {
        let r = isqrt(n);
        assert_eq!(r.min(255) as u8, (n as f32).sqrt() as u8, "n = {}", n);
    }
}
