//! Blob detection over a whole image.

use vstd::prelude::*;
use rayon::iter::{IntoParallelIterator, ParallelIterator};
use vstd::arithmetic::div_mod::lemma_fundamental_div_mod_converse;
use crate::assemble::{collect_points, groups_ok, scan_order};
use crate::blob::{is_blob_partition, pt, rank_blobs, sorted_by_size, Blob};
use crate::conn::connected;
use crate::grid::{gid_of, grid_fits, grid_ok, lemma_fg_pixel, lemma_same_gid, tile_ok};
use crate::raster::{RasterBuffer, Rgb8};
use crate::stitch::{lemma_root_iff_connected, stitch_tiles};
use crate::tile::{fg_set, is_fg_at, BitboardTile, TILE_DIM, TileResult};
use crate::union_find::{lemma_root, root_of, DisjointSet};

verus! {

/// Labels tile number `t` of a grid `tiles_x` tiles wide.
fn compute_tile(img: &RasterBuffer, threshold: u8, target: Option<Rgb8>, tiles_x: usize, t: usize) -> (r:
    TileResult)
    requires
        img.wf(),
        tiles_x > 0,
        tiles_x <= u32::MAX,
        t / tiles_x <= u32::MAX,
    ensures
        tile_ok(*img, threshold, target, tiles_x as int, t as int, r),
{
    let tx = (t % tiles_x) as u32;
    let ty = (t / tiles_x) as u32;
    let tile = BitboardTile::from_image(img, tx, ty, threshold, target);
    tile.process((tx, ty))
}

/// Relies on rayon: `into_par_iter` on a `usize` range followed by `map` and
/// `collect` into a `Vec` yields one item per index, in index order. Each item
/// is what the verified `compute_tile` returns for its index.
#[verifier::external_body]
fn process_tiles(img: &RasterBuffer, threshold: u8, target: Option<Rgb8>, tiles_x: usize, count: usize) -> (r:
    Vec<TileResult>)
    requires
        img.wf(),
        tiles_x > 0,
        tiles_x <= u32::MAX,
        count / tiles_x <= u32::MAX,
    ensures
        r@.len() == count,
        forall|t: int| 0 <= t < count ==> tile_ok(*img, threshold, target, tiles_x as int, t, #[trigger] r@[t]),
{
    (0..count).into_par_iter().map(|t| compute_tile(img, threshold, target, tiles_x, t)).collect()
}

/// Prefix sums of the tiles' label counts: tile `t`'s labels take the
/// union-find elements from `offsets[t]` on.
fn tile_offsets(results: &Vec<TileResult>) -> (offsets: Vec<usize>)
    requires
        results@.len() * 64 <= usize::MAX,
        forall|t: int| 0 <= t < results@.len() ==> #[trigger] results@[t].blob_count <= 64,
    ensures
        offsets@.len() == results@.len() + 1,
        offsets@[0] == 0,
        forall|t: int|
            0 <= t < results@.len() ==> #[trigger] offsets@[t + 1] == offsets@[t] + results@[t].blob_count,
        forall|a: int, b: int| 0 <= a <= b < offsets@.len() ==> #[trigger] offsets@[a] <= #[trigger] offsets@[b],
        offsets@[results@.len() as int] <= results@.len() * 64,
{
    let mut offsets: Vec<usize> = vec![0usize];
    let mut i: usize = 0;
    while i < results.len()
        invariant
            0 <= i <= results@.len(),
            results@.len() * 64 <= usize::MAX,
            forall|t: int| 0 <= t < results@.len() ==> #[trigger] results@[t].blob_count <= 64,
            offsets@.len() == i + 1,
            offsets@[0] == 0,
            offsets@[i as int] <= i * 64,
            forall|t: int| 0 <= t < i ==> #[trigger] offsets@[t + 1] == offsets@[t] + results@[t].blob_count,
            forall|a: int, b: int| 0 <= a <= b < offsets@.len() ==> #[trigger] offsets@[a] <= #[trigger] offsets@[b],
        decreases results@.len() - i,
    {
        let next = offsets[i] + results[i].blob_count as usize;
        offsets.push(next);
        i = i + 1;
    }
    offsets
}

/// Finds the 4-connected groups of foreground pixels, largest first.
///
/// The image is cut into 8x8 tiles, each labelled on its own (in parallel),
/// and labels that touch across tile edges are merged with a union-find.
/// Pixels that touch only at a corner are not connected.
pub fn find_blobs_tiled(img: &RasterBuffer, threshold: u8, target_color: Option<Rgb8>) -> (blobs: Vec<Blob>)
    requires
        img.wf(),
        grid_fits(img.width, img.height),
    ensures
        is_blob_partition(fg_set(*img, threshold, target_color), blobs@),
        sorted_by_size(blobs@),
{
    let width = img.width;
    let height = img.height;
    let ghost fg = fg_set(*img, threshold, target_color);
    if width == 0 || height == 0 {
        let blobs: Vec<Blob> = Vec::new();
        proof {
            assert forall|p: (int, int)| #[trigger] fg.contains(p) implies exists|b: int, k: int|
                0 <= b < blobs@.len() && 0 <= k < blobs@[b].points@.len() && pt(blobs@[b].points@[k]) == p by {
                assert(is_fg_at(*img, threshold, target_color, p));
            }
        }
        return blobs;
    }
    let dim = TILE_DIM as u64;
    let tiles_x: usize = ((width as u64 + dim - 1) / dim) as usize;
    let tiles_y: usize = ((height as u64 + dim - 1) / dim) as usize;
    proof {
        assert(tiles_x * tiles_y <= tiles_x * tiles_y * 64) by (nonlinear_arith)
            requires
                tiles_x >= 1,
                tiles_y >= 1,
        ;
        assert(tiles_x as int * tiles_y as int == tiles_y as int * tiles_x as int) by (nonlinear_arith);
        lemma_fundamental_div_mod_converse(tiles_x as int * tiles_y as int, tiles_x as int, tiles_y as int, 0);
    }
    let count = tiles_x * tiles_y;
    let results = process_tiles(img, threshold, target_color, tiles_x, count);
    let offsets = tile_offsets(&results);
    let total = offsets[count];
    let mut dsu = DisjointSet::new(total);
    proof {
        assert(grid_ok(*img, threshold, target_color, tiles_x as int, tiles_y as int, results@, offsets@));
        assert forall|p: (int, int), q: (int, int)|
            is_fg_at(*img, threshold, target_color, p) && is_fg_at(*img, threshold, target_color, q) && #[trigger] root_of(
                dsu.parent@,
                dsu.rank@,
                gid_of(results@, offsets@, tiles_x as int, p),
            ) == #[trigger] root_of(dsu.parent@, dsu.rank@, gid_of(results@, offsets@, tiles_x as int, q))
                implies connected(fg, p, q) by {
            lemma_fg_pixel(*img, threshold, target_color, tiles_x as int, tiles_y as int, results@, offsets@, p);
            lemma_fg_pixel(*img, threshold, target_color, tiles_x as int, tiles_y as int, results@, offsets@, q);
            assert(dsu.root(gid_of(results@, offsets@, tiles_x as int, p)) == gid_of(results@, offsets@, tiles_x as int, p));
            assert(dsu.root(gid_of(results@, offsets@, tiles_x as int, q)) == gid_of(results@, offsets@, tiles_x as int, q));
            lemma_same_gid(*img, threshold, target_color, tiles_x as int, tiles_y as int, results@, offsets@, p, q);
        }
    }
    stitch_tiles(&mut dsu, &results, &offsets, tiles_x, tiles_y, Ghost(*img), Ghost(threshold), Ghost(target_color));
    let ghost pf = dsu.parent@;
    let ghost rf = dsu.rank@;
    let groups = collect_points(
        &mut dsu,
        &results,
        &offsets,
        tiles_x,
        Ghost(tiles_y as int),
        Ghost(*img),
        Ghost(threshold),
        Ghost(target_color),
    );
    let ghost gs = groups@;
    let (blobs, Ghost(src)) = rank_blobs(groups);
    proof {
        reveal(groups_ok);
        let tx = tiles_x as int;
        assert forall|c: (int, int)| #[trigger] is_fg_at(*img, threshold, target_color, c) implies scan_order(tx, c) < count * 64 by {
            lemma_fg_pixel(*img, threshold, target_color, tx, tiles_y as int, results@, offsets@, c);
        }
        assert forall|b: int, k: int|
            0 <= b < blobs@.len() && 0 <= k < blobs@[b].points@.len() implies fg.contains(pt(#[trigger] blobs@[b].points@[k]))
                && root_of(pf, rf, gid_of(results@, offsets@, tx, pt(blobs@[b].points@[k]))) == src[b] by {
            assert(blobs@[b].points@[k] == gs[src[b]]@[k]);
        }
        assert forall|p: (int, int)| #[trigger] fg.contains(p) implies exists|b: int, k: int|
            0 <= b < blobs@.len() && 0 <= k < blobs@[b].points@.len() && pt(blobs@[b].points@[k]) == p by {
            assert(is_fg_at(*img, threshold, target_color, p));
            let r = root_of(pf, rf, gid_of(results@, offsets@, tx, p));
            lemma_fg_pixel(*img, threshold, target_color, tx, tiles_y as int, results@, offsets@, p);
            crate::union_find::lemma_root(pf, rf, gid_of(results@, offsets@, tx, p));
            let k = choose|k: int| 0 <= k < gs[r]@.len() && pt(gs[r]@[k]) == p;
            let b = choose|b: int| 0 <= b < blobs@.len() && src[b] == r;
            assert(pt(blobs@[b].points@[k]) == p);
        }
        assert forall|b1: int, k1: int, b2: int, k2: int|
            0 <= b1 < blobs@.len() && 0 <= k1 < blobs@[b1].points@.len() && 0 <= b2 < blobs@.len() && 0 <= k2
                < blobs@[b2].points@.len() && (b1 != b2 || k1 != k2) implies #[trigger] blobs@[b1].points@[k1]
                != #[trigger] blobs@[b2].points@[k2] by {
            assert(blobs@[b1].points@[k1] == gs[src[b1]]@[k1]);
            assert(blobs@[b2].points@[k2] == gs[src[b2]]@[k2]);
        }
        assert forall|b1: int, k1: int, b2: int, k2: int|
            0 <= b1 < blobs@.len() && 0 <= k1 < blobs@[b1].points@.len() && 0 <= b2 < blobs@.len() && 0 <= k2
                < blobs@[b2].points@.len() implies ((b1 == b2) == connected(
                fg,
                pt(#[trigger] blobs@[b1].points@[k1]),
                pt(#[trigger] blobs@[b2].points@[k2]),
            )) by {
            let p1 = pt(blobs@[b1].points@[k1]);
            let p2 = pt(blobs@[b2].points@[k2]);
            assert(fg.contains(p1) && root_of(pf, rf, gid_of(results@, offsets@, tx, p1)) == src[b1]);
            assert(fg.contains(p2) && root_of(pf, rf, gid_of(results@, offsets@, tx, p2)) == src[b2]);
            lemma_root_iff_connected(pf, rf, *img, threshold, target_color, tx, tiles_y as int, results@, offsets@, p1, p2);
        }
        assert forall|b: int|
            0 <= b < blobs@.len() implies #[trigger] blobs@[b].size == blobs@[b].points@.len()
                && blobs@[b].points@.len() > 0 by {
            assert(0 <= src[b]);
        }
    }
    blobs
}

} // verus!
