use auge::blob::Blob;
use auge::filter::BlobDetectFilter;
use auge::raster::{RasterBuffer, Rgb8, Rgba8};
use auge::render::{blob_color, draw_blobs, heatmap_color, largest_size, rainbow_color, render, BlobBackground, BlobColorMode};
use auge::types::NoOpFilter;

const DARK: Rgba8 = Rgba8 { r: 0, g: 0, b: 0, a: 255 };
const LIGHT: Rgba8 = Rgba8 { r: 250, g: 240, b: 230, a: 200 };

fn image_with(width: u32, height: u32, dark: &[(u32, u32)]) -> RasterBuffer {
    let mut pixels = vec![LIGHT; (width * height) as usize];
    for &(x, y) in dark {
        pixels[(y * width + x) as usize] = DARK;
    }
    RasterBuffer { width, height, has_alpha: true, pixels }
}

fn at(img: &RasterBuffer, x: u32, y: u32) -> Rgba8 {
    img.pixels[(y * img.width + x) as usize]
}

fn rgb(r: u8, g: u8, b: u8) -> Rgb8 {
    Rgb8 { r, g, b }
}

#[test]
fn heatmap_endpoints() {
    assert_eq!(heatmap_color(0, 5), rgb(0, 0, 255));
    assert_eq!(heatmap_color(4, 5), rgb(255, 0, 0));
    assert_eq!(heatmap_color(5, 5), rgb(255, 255, 255));
    assert_eq!(heatmap_color(8, 10), rgb(255, 0, 0));
    assert_eq!(heatmap_color(10, 10), rgb(255, 255, 255));
}

#[test]
fn heatmap_in_between() {
    // t = 1/3: ratio 5/12 of the way from blue to red.
    assert_eq!(heatmap_color(1, 3), rgb(106, 0, 148));
    // t = 0.9: half way from red to white.
    assert_eq!(heatmap_color(9, 10), rgb(255, 127, 127));
    assert_eq!(heatmap_color(3, 0), rgb(0, 0, 255));
}

#[test]
fn rainbow_first_ranks() {
    assert_eq!(rainbow_color(0), rgb(50, 100, 150));
    assert_eq!(rainbow_color(1), rgb(150, 150, 170));
    assert_eq!(rainbow_color(3), rgb(95, 250, 210));
    assert_eq!(rainbow_color(255), rgb(50, 100, 150));
    assert_eq!(rainbow_color(usize::MAX), rainbow_color(usize::MAX % 255));
}

#[test]
fn solid_is_green() {
    assert_eq!(blob_color(BlobColorMode::Solid, 7, 3, 9), rgb(0, 255, 0));
    assert_eq!(blob_color(BlobColorMode::Rainbow, 0, 3, 9), rgb(50, 100, 150));
    assert_eq!(blob_color(BlobColorMode::Heatmap, 0, 9, 9), rgb(255, 255, 255));
}

#[test]
fn largest_size_of_blobs() {
    let blobs = vec![Blob::new(vec![(0, 0)]), Blob::new(vec![(1, 1), (2, 2), (3, 3)]), Blob::new(vec![(4, 4), (5, 5)])];
    assert_eq!(largest_size(&blobs), 3);
    assert_eq!(largest_size(&Vec::new()), 0);
}

#[test]
fn draw_paints_only_blob_pixels() {
    let mut canvas = image_with(3, 2, &[]);
    let blobs = vec![Blob::new(vec![(0, 0), (1, 0)]), Blob::new(vec![(2, 1)])];
    draw_blobs(&mut canvas, &blobs, BlobColorMode::Rainbow, 2);
    assert_eq!(at(&canvas, 0, 0), Rgba8 { r: 50, g: 100, b: 150, a: 255 });
    assert_eq!(at(&canvas, 1, 0), Rgba8 { r: 50, g: 100, b: 150, a: 255 });
    assert_eq!(at(&canvas, 2, 1), Rgba8 { r: 150, g: 150, b: 170, a: 255 });
    assert_eq!(at(&canvas, 2, 0), LIGHT);
    assert_eq!(at(&canvas, 0, 1), LIGHT);
}

#[test]
fn render_backgrounds() {
    let src = image_with(2, 2, &[(0, 0)]);
    let blobs = vec![Blob::new(vec![(0, 0)])];
    let black = render(&blobs, BlobColorMode::Solid, BlobBackground::Black, &src);
    assert!(!black.has_alpha);
    assert_eq!(at(&black, 0, 0), Rgba8 { r: 0, g: 255, b: 0, a: 255 });
    assert_eq!(at(&black, 1, 1), Rgba8 { r: 0, g: 0, b: 0, a: 255 });
    let clear = render(&blobs, BlobColorMode::Solid, BlobBackground::Transparent, &src);
    assert!(clear.has_alpha);
    assert_eq!(at(&clear, 1, 0), Rgba8 { r: 0, g: 0, b: 0, a: 0 });
    let orig = render(&blobs, BlobColorMode::Solid, BlobBackground::Original, &src);
    assert!(orig.has_alpha);
    assert_eq!(at(&orig, 0, 1), LIGHT);
    assert_eq!(at(&orig, 0, 0), Rgba8 { r: 0, g: 255, b: 0, a: 255 });
}

fn filter(mode: BlobColorMode, background: BlobBackground) -> BlobDetectFilter {
    BlobDetectFilter { threshold: 10, target_color: None, mode, background }
}

#[test]
fn apply_on_empty_image() {
    let img = RasterBuffer { width: 0, height: 4, has_alpha: false, pixels: Vec::new() };
    let out = filter(BlobColorMode::Rainbow, BlobBackground::Black).apply(&img);
    assert_eq!((out.width, out.height), (0, 0));
    assert!(out.pixels.is_empty());
    assert!(out.has_alpha);
}

#[test]
fn apply_on_all_background() {
    let img = image_with(5, 3, &[]);
    let out = filter(BlobColorMode::Rainbow, BlobBackground::Black).apply(&img);
    assert!(out.pixels.iter().all(|&p| p == Rgba8 { r: 0, g: 0, b: 0, a: 255 }));
    let out = filter(BlobColorMode::Heatmap, BlobBackground::Transparent).apply(&img);
    assert!(out.pixels.iter().all(|&p| p == Rgba8 { r: 0, g: 0, b: 0, a: 0 }));
    let out = filter(BlobColorMode::Solid, BlobBackground::Original).apply(&img);
    assert_eq!(out.pixels, img.pixels);
}

#[test]
fn apply_heatmap_ranks_by_size() {
    // Sizes 5 and 4: the larger is white, the smaller (t = 0.8) red.
    let dark = [(0, 0), (1, 0), (2, 0), (3, 0), (4, 0), (0, 2), (1, 2), (2, 2), (3, 2)];
    let img = image_with(9, 3, &dark);
    let out = filter(BlobColorMode::Heatmap, BlobBackground::Black).apply(&img);
    assert_eq!(at(&out, 4, 0), Rgba8 { r: 255, g: 255, b: 255, a: 255 });
    assert_eq!(at(&out, 0, 2), Rgba8 { r: 255, g: 0, b: 0, a: 255 });
    assert_eq!(at(&out, 8, 1), Rgba8 { r: 0, g: 0, b: 0, a: 255 });
}

#[test]
fn apply_rainbow_across_tiles() {
    let img = image_with(12, 12, &[(7, 5), (8, 5), (9, 5), (1, 1)]);
    let out = filter(BlobColorMode::Rainbow, BlobBackground::Transparent).apply(&img);
    for x in 7..10 {
        assert_eq!(at(&out, x, 5), Rgba8 { r: 50, g: 100, b: 150, a: 255 });
    }
    assert_eq!(at(&out, 1, 1), Rgba8 { r: 150, g: 150, b: 170, a: 255 });
}

#[test]
fn no_op_keeps_image() {
    let img = image_with(2, 1, &[(1, 0)]);
    let out = NoOpFilter.apply(img);
    assert_eq!(out.pixels, vec![LIGHT, DARK]);
}

#[test]
fn render_ranks_by_size_not_list_order() {
    let src = image_with(4, 1, &[]);
    let blobs = vec![Blob::new(vec![(0, 0)]), Blob::new(vec![(2, 0), (3, 0)])];
    let out = render(&blobs, BlobColorMode::Rainbow, BlobBackground::Black, &src);
    assert_eq!(at(&out, 2, 0), Rgba8 { r: 50, g: 100, b: 150, a: 255 });
    assert_eq!(at(&out, 3, 0), Rgba8 { r: 50, g: 100, b: 150, a: 255 });
    assert_eq!(at(&out, 0, 0), Rgba8 { r: 150, g: 150, b: 170, a: 255 });
}

#[test]
fn equal_sizes_rank_in_list_order() {
    let mut canvas = image_with(3, 1, &[]);
    let blobs = vec![Blob::new(vec![(0, 0)]), Blob::new(vec![(2, 0)]), Blob::new(vec![(1, 0)])];
    draw_blobs(&mut canvas, &blobs, BlobColorMode::Rainbow, 1);
    assert_eq!(at(&canvas, 0, 0), Rgba8 { r: 50, g: 100, b: 150, a: 255 });
    assert_eq!(at(&canvas, 2, 0), Rgba8 { r: 150, g: 150, b: 170, a: 255 });
    assert_eq!(at(&canvas, 1, 0), Rgba8 { r: 250, g: 200, b: 190, a: 255 });
}
