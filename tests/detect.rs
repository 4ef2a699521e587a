use auge::blob::Blob;
use auge::classify::is_foreground;
use auge::detect::find_blobs_tiled;
use auge::raster::{RasterBuffer, Rgb8, Rgba8};
use auge::tile::BitboardTile;
use auge::union_find::DisjointSet;

const DARK: Rgba8 = Rgba8 { r: 0, g: 0, b: 0, a: 255 };
const LIGHT: Rgba8 = Rgba8 { r: 255, g: 255, b: 255, a: 255 };

/// A light image with the given pixels dark.
fn image_with(width: u32, height: u32, dark: &[(u32, u32)]) -> RasterBuffer {
    let mut pixels = vec![LIGHT; (width * height) as usize];
    for &(x, y) in dark {
        pixels[(y * width + x) as usize] = DARK;
    }
    RasterBuffer { width, height, has_alpha: false, pixels }
}

fn sorted_points(blob: &Blob) -> Vec<(u32, u32)> {
    let mut p = blob.points.clone();
    p.sort();
    p
}

/// Component labels by breadth-first search over 4-neighbours, one whole
/// image at a time.
fn flood_labels(width: u32, height: u32, fg: &[bool]) -> Vec<usize> {
    let n = (width * height) as usize;
    let mut label = vec![0usize; n];
    let mut next = 1usize;
    for start in 0..n {
        if !fg[start] || label[start] != 0 {
            continue;
        }
        let mut queue = vec![start];
        label[start] = next;
        while let Some(i) = queue.pop() {
            let x = (i as u32) % width;
            let y = (i as u32) / width;
            let mut around = Vec::new();
            if x > 0 {
                around.push(i - 1);
            }
            if x + 1 < width {
                around.push(i + 1);
            }
            if y > 0 {
                around.push(i - width as usize);
            }
            if y + 1 < height {
                around.push(i + width as usize);
            }
            for j in around {
                if fg[j] && label[j] == 0 {
                    label[j] = next;
                    queue.push(j);
                }
            }
        }
        next += 1;
    }
    label
}

/// Checks the tiled result against a whole-image flood fill.
fn check_against_flood(width: u32, height: u32, fg: &[bool]) {
    let dark: Vec<(u32, u32)> = (0..width * height)
        .filter(|&i| fg[i as usize])
        .map(|i| (i % width, i / width))
        .collect();
    let img = image_with(width, height, &dark);
    let blobs = find_blobs_tiled(&img, 10, None);
    let label = flood_labels(width, height, fg);
    let mut owner = vec![usize::MAX; (width * height) as usize];
    let mut seen = 0usize;
    for (b, blob) in blobs.iter().enumerate() {
        assert_eq!(blob.size, blob.points.len());
        assert!(blob.size > 0);
        for &(x, y) in &blob.points {
            let i = (y * width + x) as usize;
            assert!(fg[i]);
            assert_eq!(owner[i], usize::MAX);
            owner[i] = b;
            seen += 1;
        }
    }
    assert_eq!(seen, dark.len());
    for i in 0..owner.len() {
        for j in 0..owner.len() {
            if fg[i] && fg[j] {
                assert_eq!(owner[i] == owner[j], label[i] == label[j]);
            }
        }
    }
    for w in blobs.windows(2) {
        assert!(w[0].size >= w[1].size);
    }
}

/// A small deterministic pseudo-random foreground.
fn noise(width: u32, height: u32, seed: u64, density: u64) -> Vec<bool> {
    let mut state = seed;
    (0..width * height)
        .map(|_| {
            state = state.wrapping_mul(6364136223846793005).wrapping_add(1442695040888963407);
            (state >> 33) % 100 < density
        })
        .collect()
}

#[test]
fn full_tile_is_one_blob() {
    let dark: Vec<(u32, u32)> = (0..64).map(|i| (i % 8, i / 8)).collect();
    let img = image_with(8, 8, &dark);
    let blobs = find_blobs_tiled(&img, 10, None);
    assert_eq!(blobs.len(), 1);
    assert_eq!(blobs[0].size, 64);
    assert_eq!(sorted_points(&blobs[0]).len(), 64);
}

#[test]
fn diagonal_across_tile_corner_stays_apart() {
    let img = image_with(16, 16, &[(7, 7), (8, 8)]);
    let blobs = find_blobs_tiled(&img, 10, None);
    assert_eq!(blobs.len(), 2);
    assert_eq!(blobs[0].size, 1);
    assert_eq!(blobs[1].size, 1);
}

#[test]
fn diagonal_inside_tile_stays_apart() {
    let img = image_with(8, 8, &[(1, 1), (2, 2)]);
    let blobs = find_blobs_tiled(&img, 10, None);
    assert_eq!(blobs.len(), 2);
}

#[test]
fn horizontal_neighbours_across_tile_edge_merge() {
    let img = image_with(16, 8, &[(7, 3), (8, 3)]);
    let blobs = find_blobs_tiled(&img, 10, None);
    assert_eq!(blobs.len(), 1);
    assert_eq!(sorted_points(&blobs[0]), vec![(7, 3), (8, 3)]);
}

#[test]
fn vertical_neighbours_across_tile_edge_merge() {
    let img = image_with(8, 16, &[(3, 7), (3, 8)]);
    let blobs = find_blobs_tiled(&img, 10, None);
    assert_eq!(blobs.len(), 1);
    assert_eq!(sorted_points(&blobs[0]), vec![(3, 7), (3, 8)]);
}

#[test]
fn u_shape_over_four_tiles_is_one_blob() {
    let mut dark = Vec::new();
    for y in 2..14 {
        dark.push((2, y));
        dark.push((13, y));
    }
    for x in 3..13 {
        dark.push((x, 13));
    }
    let img = image_with(16, 16, &dark);
    let blobs = find_blobs_tiled(&img, 10, None);
    assert_eq!(blobs.len(), 1);
    assert_eq!(blobs[0].size, dark.len());
}

#[test]
fn blobs_come_largest_first() {
    let img = image_with(20, 10, &[(0, 0), (5, 5), (5, 6), (5, 7), (12, 2), (13, 2)]);
    let blobs = find_blobs_tiled(&img, 10, None);
    let sizes: Vec<usize> = blobs.iter().map(|b| b.size).collect();
    assert_eq!(sizes, vec![3, 2, 1]);
    assert_eq!(sorted_points(&blobs[0]), vec![(5, 5), (5, 6), (5, 7)]);
}

#[test]
fn empty_image_has_no_blobs() {
    let img = RasterBuffer { width: 0, height: 5, has_alpha: false, pixels: Vec::new() };
    assert!(find_blobs_tiled(&img, 10, None).is_empty());
    let img = RasterBuffer { width: 3, height: 0, has_alpha: false, pixels: Vec::new() };
    assert!(find_blobs_tiled(&img, 10, None).is_empty());
}

#[test]
fn all_background_has_no_blobs() {
    let img = image_with(13, 9, &[]);
    assert!(find_blobs_tiled(&img, 10, None).is_empty());
}

#[test]
fn partial_edge_tiles() {
    let img = image_with(10, 11, &[(9, 10), (9, 9), (8, 10), (0, 10)]);
    let blobs = find_blobs_tiled(&img, 10, None);
    assert_eq!(blobs.len(), 2);
    assert_eq!(sorted_points(&blobs[0]), vec![(8, 10), (9, 9), (9, 10)]);
    assert_eq!(sorted_points(&blobs[1]), vec![(0, 10)]);
}

#[test]
fn matches_whole_image_flood_fill() {
    for (i, &(w, h)) in [(1, 1), (5, 3), (8, 8), (9, 7), (17, 12), (24, 24), (31, 5)].iter().enumerate() {
        for density in [20, 45, 60, 85] {
            let fg = noise(w, h, 7 + i as u64 * 31 + density, density);
            check_against_flood(w, h, &fg);
        }
    }
}

#[test]
fn checkerboard_is_all_single_pixels() {
    let fg: Vec<bool> = (0..16 * 16).map(|i| (i % 16 + i / 16) % 2 == 0).collect();
    check_against_flood(16, 16, &fg);
    let dark: Vec<(u32, u32)> = (0..256u32).filter(|i| (i % 16 + i / 16) % 2 == 0).map(|i| (i % 16, i / 16)).collect();
    let blobs = find_blobs_tiled(&image_with(16, 16, &dark), 10, None);
    assert_eq!(blobs.len(), 128);
}

#[test]
fn target_color_rule_uses_squared_distance() {
    let target = Some(Rgb8 { r: 100, g: 100, b: 100 });
    let near = Rgba8 { r: 103, g: 104, b: 100, a: 0 };
    assert!(is_foreground(near, 5, target));
    assert!(!is_foreground(near, 4, target));
    let mut img = image_with(4, 1, &[]);
    img.pixels[1] = near;
    img.pixels[2] = near;
    let blobs = find_blobs_tiled(&img, 5, target);
    assert_eq!(blobs.len(), 1);
    assert_eq!(sorted_points(&blobs[0]), vec![(1, 0), (2, 0)]);
}

#[test]
fn luminance_rule_weighs_channels() {
    let red = Rgba8 { r: 255, g: 0, b: 0, a: 255 };
    assert!(is_foreground(red, 54, None));
    assert!(!is_foreground(red, 53, None));
    let green = Rgba8 { r: 0, g: 255, b: 0, a: 255 };
    assert!(is_foreground(green, 182, None));
    assert!(!is_foreground(green, 181, None));
    let grey = Rgba8 { r: 100, g: 100, b: 100, a: 7 };
    assert!(is_foreground(grey, 100, None));
    assert!(!is_foreground(grey, 99, None));
}

#[test]
fn tile_labels_follow_lowest_bit_order() {
    // Two components: the top-left 2x2 square and a vertical bar in column 5.
    let mut mask: u64 = 0;
    for &i in &[0u64, 1, 8, 9, 5, 13, 21] {
        mask |= 1 << i;
    }
    let res = BitboardTile::new(mask).process((2, 3));
    assert_eq!(res.tile_pos, (2, 3));
    assert_eq!(res.blob_count, 2);
    for i in 0..64 {
        let expect = match i {
            0 | 1 | 8 | 9 => 1,
            5 | 13 | 21 => 2,
            _ => 0,
        };
        assert_eq!(res.labels[i], expect);
    }
}

#[test]
fn tile_fill_does_not_wrap_rows() {
    // Bit 7 ends row 0 and bit 8 starts row 1: not neighbours.
    let mask: u64 = (1 << 7) | (1 << 8);
    let res = BitboardTile::new(mask).process((0, 0));
    assert_eq!(res.blob_count, 2);
    assert_ne!(res.labels[7], res.labels[8]);
}

#[test]
fn tile_mask_from_image() {
    let img = image_with(10, 9, &[(8, 0), (9, 8), (2, 2)]);
    let t = BitboardTile::from_image(&img, 1, 1, 10, None);
    assert_eq!(t.pixels_mask, 1 << 1);
    let t = BitboardTile::from_image(&img, 1, 0, 10, None);
    assert_eq!(t.pixels_mask, 1 << 0);
    let t = BitboardTile::from_image(&img, 0, 0, 10, None);
    assert_eq!(t.pixels_mask, 1 << 18);
}

#[test]
fn disjoint_set_merges_classes() {
    let mut d = DisjointSet::new(6);
    for i in 0..6 {
        assert_eq!(d.find(i), i);
    }
    d.union(0, 1);
    d.union(2, 3);
    d.union(1, 3);
    let r = d.find(0);
    assert_eq!(d.find(2), r);
    assert_eq!(d.find(3), r);
    assert_ne!(d.find(4), r);
    assert_ne!(d.find(4), d.find(5));
    d.union(4, 4);
    assert_eq!(d.find(4), 4);
    assert_eq!(d.size[r], 4);
}

#[test]
fn union_hangs_smaller_class_and_compresses_paths() {
    let mut d = DisjointSet::new(5);
    d.union(0, 1);
    // Equal sizes: the second root goes under the first.
    assert_eq!(d.parent[1], 0);
    assert_eq!(d.size[0], 2);
    d.union(2, 0);
    // Class of 2 (size 1) is smaller than class of 0 (size 2).
    assert_eq!(d.parent[2], 0);
    assert_eq!(d.size[0], 3);
    d.union(3, 4);
    d.union(4, 1);
    // Class of 3 (size 2) goes under class of 0 (size 3).
    assert_eq!(d.parent[3], 0);
    assert_eq!(d.size[0], 5);
    assert_eq!(d.parent[4], 3);
    assert_eq!(d.find(4), 0);
    assert_eq!(d.parent[4], 0);
}
