//! The tile grid over an image and the union-find element of each foreground pixel.

use vstd::prelude::*;
use vstd::arithmetic::div_mod::{lemma_fundamental_div_mod, lemma_fundamental_div_mod_converse};
use crate::conn::{adjacent, connected, lemma_connected_mono, lemma_connected_refl, lemma_connected_step};
use crate::raster::{RasterBuffer, Rgb8};
use crate::tile::{
    cell_of,
    fg_set,
    in_tile,
    index_in_tile,
    is_fg_at,
    labels_ok,
    lemma_index_cell,
    tile_fg,
    TileResult,
};

verus! {

/// The labelling of tile number `t` of a grid `tiles_x` tiles wide.
pub open spec fn tile_ok(
    img: RasterBuffer,
    threshold: u8,
    target: Option<Rgb8>,
    tiles_x: int,
    t: int,
    r: TileResult,
) -> bool {
    let tx = t % tiles_x;
    let ty = t / tiles_x;
    &&& r.tile_pos.0 == tx
    &&& r.tile_pos.1 == ty
    &&& r.blob_count <= 64
    &&& labels_ok(r.labels@, r.blob_count, tile_fg(img, threshold, target, tx, ty), tx, ty)
}

/// Number of tiles needed to cover `len` pixels.
pub open spec fn tiles_for(len: int) -> int {
    (len + 7) / 8
}

/// The tile grid is small enough that every cell has a `usize` number.
pub open spec fn grid_fits(width: u32, height: u32) -> bool {
    tiles_for(width as int) * tiles_for(height as int) * 64 <= usize::MAX
}

/// The number of the tile that holds pixel `p`.
pub open spec fn tile_index_of(tiles_x: int, p: (int, int)) -> int {
    (p.1 / 8) * tiles_x + p.0 / 8
}

/// The local label of pixel `p`.
pub open spec fn label_at(results: Seq<TileResult>, tiles_x: int, p: (int, int)) -> int {
    results[tile_index_of(tiles_x, p)].labels@[index_in_tile(p.0 / 8, p.1 / 8, p)] as int
}

/// The union-find element of foreground pixel `p`: its tile's offset plus
/// its local label less one.
pub open spec fn gid_of(results: Seq<TileResult>, offsets: Seq<usize>, tiles_x: int, p: (int, int)) -> int {
    offsets[tile_index_of(tiles_x, p)] + label_at(results, tiles_x, p) - 1
}

/// Tile results and label offsets as the stitcher receives them.
pub open spec fn grid_ok(
    img: RasterBuffer,
    threshold: u8,
    target: Option<Rgb8>,
    tiles_x: int,
    tiles_y: int,
    results: Seq<TileResult>,
    offsets: Seq<usize>,
) -> bool {
    &&& img.wf()
    &&& tiles_x == tiles_for(img.width as int)
    &&& tiles_y == tiles_for(img.height as int)
    &&& tiles_x >= 1
    &&& tiles_y >= 1
    &&& results.len() == tiles_x * tiles_y
    &&& forall|t: int| 0 <= t < results.len() ==> tile_ok(img, threshold, target, tiles_x, t, #[trigger] results[t])
    &&& offsets.len() == results.len() + 1
    &&& offsets[0] == 0
    &&& forall|t: int|
        0 <= t < results.len() ==> #[trigger] offsets[t + 1] == offsets[t] + results[t].blob_count
    &&& forall|a: int, b: int| 0 <= a <= b < offsets.len() ==> #[trigger] offsets[a] <= #[trigger] offsets[b]
}

/// The tile number `t` of a grid `w` tiles wide: column `t % w`, row `t / w`.
pub proof fn lemma_tile_coords(w: int, tx: int, ty: int)
    requires
        0 <= tx < w,
        0 <= ty,
    ensures
        (ty * w + tx) % w == tx,
        (ty * w + tx) / w == ty,
{
    lemma_fundamental_div_mod_converse(ty * w + tx, w, ty, tx);
}

/// Where a foreground pixel's tile and label are found.
pub proof fn lemma_fg_pixel(
    img: RasterBuffer,
    threshold: u8,
    target: Option<Rgb8>,
    tiles_x: int,
    tiles_y: int,
    results: Seq<TileResult>,
    offsets: Seq<usize>,
    p: (int, int),
)
    requires
        grid_ok(img, threshold, target, tiles_x, tiles_y, results, offsets),
        0 <= p.0 < 8 * tiles_x,
        0 <= p.1 < 8 * tiles_y,
    ensures
        0 <= tile_index_of(tiles_x, p) < results.len(),
        tile_index_of(tiles_x, p) % tiles_x == p.0 / 8,
        tile_index_of(tiles_x, p) / tiles_x == p.1 / 8,
        in_tile(p.0 / 8, p.1 / 8, p),
        0 <= index_in_tile(p.0 / 8, p.1 / 8, p) < 64,
        cell_of(p.0 / 8, p.1 / 8, index_in_tile(p.0 / 8, p.1 / 8, p)) == p,
        (label_at(results, tiles_x, p) != 0) == is_fg_at(img, threshold, target, p),
        is_fg_at(img, threshold, target, p) ==> offsets[tile_index_of(tiles_x, p)] <= gid_of(
            results,
            offsets,
            tiles_x,
            p,
        ) < offsets[tile_index_of(tiles_x, p) + 1],
        is_fg_at(img, threshold, target, p) ==> 0 <= gid_of(results, offsets, tiles_x, p) < offsets[
            results.len() as int],
{
    let tx = p.0 / 8;
    let ty = p.1 / 8;
    let t = tile_index_of(tiles_x, p);
    assert(tx < tiles_x && ty < tiles_y);
    lemma_tile_coords(tiles_x, tx, ty);
    assert(t < tiles_x * tiles_y) by (nonlinear_arith)
        requires
            t == ty * tiles_x + tx,
            0 <= tx < tiles_x,
            0 <= ty < tiles_y,
    ;
    assert(0 <= t) by (nonlinear_arith)
        requires
            t == ty * tiles_x + tx,
            0 <= tx,
            0 <= ty,
            0 <= tiles_x,
    ;
    lemma_index_cell(tx, ty, p);
    assert(tile_ok(img, threshold, target, tiles_x, t, results[t]));
    let i = index_in_tile(tx, ty, p);
    assert(results[t].labels@[i] <= results[t].blob_count);
    assert(offsets[t] <= offsets[t + 1] <= offsets[results.len() as int]);
}

/// Two foreground pixels with one union-find element are connected.
pub proof fn lemma_same_gid(
    img: RasterBuffer,
    threshold: u8,
    target: Option<Rgb8>,
    tiles_x: int,
    tiles_y: int,
    results: Seq<TileResult>,
    offsets: Seq<usize>,
    p: (int, int),
    q: (int, int),
)
    requires
        grid_ok(img, threshold, target, tiles_x, tiles_y, results, offsets),
        is_fg_at(img, threshold, target, p),
        is_fg_at(img, threshold, target, q),
        gid_of(results, offsets, tiles_x, p) == gid_of(results, offsets, tiles_x, q),
    ensures
        connected(fg_set(img, threshold, target), p, q),
{
    lemma_fg_pixel(img, threshold, target, tiles_x, tiles_y, results, offsets, p);
    lemma_fg_pixel(img, threshold, target, tiles_x, tiles_y, results, offsets, q);
    let tp = tile_index_of(tiles_x, p);
    let tq = tile_index_of(tiles_x, q);
    if tp < tq {
        assert(offsets[tp + 1] <= offsets[tq]);
    } else if tq < tp {
        assert(offsets[tq + 1] <= offsets[tp]);
    }
    assert(tp == tq);
    let tx = p.0 / 8;
    let ty = p.1 / 8;
    assert(q.0 / 8 == tx && q.1 / 8 == ty);
    assert(tile_ok(img, threshold, target, tiles_x, tp, results[tp]));
    let ip = index_in_tile(tx, ty, p);
    let iq = index_in_tile(tx, ty, q);
    assert(results[tp].labels@[ip] != 0 && results[tp].labels@[iq] != 0);
    assert(connected(tile_fg(img, threshold, target, tx, ty), p, q));
    lemma_connected_mono(tile_fg(img, threshold, target, tx, ty), fg_set(img, threshold, target), p, q);
}

/// Two edge-sharing foreground pixels of one tile have one union-find element.
pub proof fn lemma_adjacent_same_tile(
    img: RasterBuffer,
    threshold: u8,
    target: Option<Rgb8>,
    tiles_x: int,
    tiles_y: int,
    results: Seq<TileResult>,
    offsets: Seq<usize>,
    p: (int, int),
    q: (int, int),
)
    requires
        grid_ok(img, threshold, target, tiles_x, tiles_y, results, offsets),
        is_fg_at(img, threshold, target, p),
        is_fg_at(img, threshold, target, q),
        adjacent(p, q),
        p.0 / 8 == q.0 / 8,
        p.1 / 8 == q.1 / 8,
    ensures
        gid_of(results, offsets, tiles_x, p) == gid_of(results, offsets, tiles_x, q),
{
    lemma_fg_pixel(img, threshold, target, tiles_x, tiles_y, results, offsets, p);
    lemma_fg_pixel(img, threshold, target, tiles_x, tiles_y, results, offsets, q);
    let t = tile_index_of(tiles_x, p);
    let tx = p.0 / 8;
    let ty = p.1 / 8;
    let s = tile_fg(img, threshold, target, tx, ty);
    assert(tile_ok(img, threshold, target, tiles_x, t, results[t]));
    assert(s.contains(p) && s.contains(q));
    lemma_connected_refl(s, p);
    lemma_connected_step(s, p, p, q);
    let ip = index_in_tile(tx, ty, p);
    let iq = index_in_tile(tx, ty, q);
    assert(results[t].labels@[ip] != 0 && results[t].labels@[iq] != 0);
}

/// Tile `t` sits at column `t % tiles_x`, row `t / tiles_x` of the grid.
pub(crate) proof fn lemma_tile_split(t: int, tiles_x: int, tiles_y: int)
    requires
        0 <= t < tiles_x * tiles_y,
        tiles_x >= 1,
    ensures
        t == (t / tiles_x) * tiles_x + t % tiles_x,
        0 <= t % tiles_x < tiles_x,
        0 <= t / tiles_x < tiles_y,
{
    lemma_fundamental_div_mod(t, tiles_x);
    assert(t / tiles_x * tiles_x == tiles_x * (t / tiles_x)) by (nonlinear_arith);
    assert(t / tiles_x < tiles_y) by (nonlinear_arith)
        requires
            t == (t / tiles_x) * tiles_x + t % tiles_x,
            0 <= t % tiles_x,
            t < tiles_x * tiles_y,
            tiles_x >= 1,
    ;
    assert(0 <= t / tiles_x) by (nonlinear_arith)
        requires
            0 <= t,
            tiles_x >= 1,
    ;
}

} // verus!
