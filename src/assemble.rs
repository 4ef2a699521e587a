//! Gathering the foreground pixels by the root of their union-find element.

use vstd::prelude::*;
use crate::blob::pt;
use crate::grid::{gid_of, grid_ok, label_at, lemma_fg_pixel, lemma_tile_split, tile_index_of, tile_ok};
use crate::raster::{RasterBuffer, Rgb8};
use crate::tile::{cell_of, index_in_tile, is_fg_at, lemma_cell_index, tile_fg, TileResult};
use crate::union_find::{lemma_root, ranks_ok, root_of, DisjointSet};

verus! {

/// The place of pixel `c` in the scan that visits tiles in order and the
/// cells of each tile in bit order.
pub open spec fn scan_order(tiles_x: int, c: (int, int)) -> int {
    tile_index_of(tiles_x, c) * 64 + index_in_tile(c.0 / 8, c.1 / 8, c)
}

pub(crate) proof fn lemma_scan_order_split(t1: int, i1: int, t2: int, i2: int)
    requires
        0 <= i1 < 64,
        0 <= i2 < 64,
        t1 * 64 + i1 == t2 * 64 + i2,
    ensures
        t1 == t2,
        i1 == i2,
{
    assert(t1 == t2) by (nonlinear_arith)
        requires
            0 <= i1 < 64,
            0 <= i2 < 64,
            t1 * 64 + i1 == t2 * 64 + i2,
    ;
}

/// What the grouping holds once the scan has passed `cursor`: every entry
/// is a foreground pixel filed under its root and already scanned, every
/// scanned foreground pixel is filed under its root, and no pixel is filed
/// twice.
#[verifier::opaque]
pub open spec fn groups_ok(
    groups: Seq<Vec<(u32, u32)>>,
    parent: Seq<usize>,
    rank: Seq<nat>,
    img: RasterBuffer,
    threshold: u8,
    target: Option<Rgb8>,
    tiles_x: int,
    results: Seq<TileResult>,
    offsets: Seq<usize>,
    cursor: int,
) -> bool {
    &&& forall|r: int, k: int|
        0 <= r < groups.len() && 0 <= k < groups[r]@.len() ==> is_fg_at(
            img,
            threshold,
            target,
            pt(#[trigger] groups[r]@[k]),
        ) && root_of(parent, rank, gid_of(results, offsets, tiles_x, pt(groups[r]@[k]))) == r
            && scan_order(tiles_x, pt(groups[r]@[k])) < cursor
    &&& forall|c: (int, int)|
        #[trigger] is_fg_at(img, threshold, target, c) && scan_order(tiles_x, c) < cursor ==> exists|k: int|
            0 <= k < groups[root_of(parent, rank, gid_of(results, offsets, tiles_x, c))]@.len()
                && pt(groups[root_of(parent, rank, gid_of(results, offsets, tiles_x, c))]@[k]) == c
    &&& forall|r1: int, k1: int, r2: int, k2: int|
        0 <= r1 < groups.len() && 0 <= k1 < groups[r1]@.len() && 0 <= r2 < groups.len() && 0 <= k2
            < groups[r2]@.len() && (r1 != r2 || k1 != k2) ==> #[trigger] groups[r1]@[k1]
            != #[trigger] groups[r2]@[k2]
}

/// Files cell `i` of tile `t` under its root when it is foreground.
pub(crate) fn collect_cell(
    dsu: &mut DisjointSet,
    groups: &mut Vec<Vec<(u32, u32)>>,
    results: &Vec<TileResult>,
    offsets: &Vec<usize>,
    tiles_x: usize,
    t: usize,
    i: usize,
    Ghost(tiles_y): Ghost<int>,
    Ghost(img): Ghost<RasterBuffer>,
    Ghost(threshold): Ghost<u8>,
    Ghost(target): Ghost<Option<Rgb8>>,
    Ghost(p0): Ghost<Seq<usize>>,
    Ghost(r0): Ghost<Seq<nat>>,
)
    requires
        grid_ok(img, threshold, target, tiles_x as int, tiles_y, results@, offsets@),
        t < results@.len(),
        i < 64,
        old(dsu).wf(),
        old(dsu).n() == offsets@[results@.len() as int],
        p0.len() == old(dsu).n(),
        ranks_ok(p0, r0),
        forall|x: int| 0 <= x < p0.len() ==> #[trigger] root_of(old(dsu).parent@, old(dsu).rank@, x) == root_of(p0, r0, x),
        old(groups)@.len() == p0.len(),
        groups_ok(old(groups)@, p0, r0, img, threshold, target, tiles_x as int, results@, offsets@, t * 64 + i),
    ensures
        final(dsu).wf(),
        final(dsu).n() == old(dsu).n(),
        forall|x: int| 0 <= x < p0.len() ==> #[trigger] root_of(final(dsu).parent@, final(dsu).rank@, x) == root_of(p0, r0, x),
        final(groups)@.len() == p0.len(),
        groups_ok(final(groups)@, p0, r0, img, threshold, target, tiles_x as int, results@, offsets@, t * 64 + i + 1),
{
    reveal(groups_ok);
    let ghost tx = t as int % tiles_x as int;
    let ghost ty = t as int / tiles_x as int;
    let ghost c = cell_of(tx, ty, i as int);
    let ghost n = p0.len();
    proof {
        lemma_tile_split(t as int, tiles_x as int, tiles_y);
        assert(tile_ok(img, threshold, target, tiles_x as int, t as int, results@[t as int]));
        lemma_cell_index(tx, ty, i as int);
        assert(c.0 / 8 == tx && c.1 / 8 == ty);
        assert(tile_index_of(tiles_x as int, c) == t);
        assert(scan_order(tiles_x as int, c) == t * 64 + i);
    }
    let lid = results[t].labels[i];
    let ghost before = groups@;
    if lid != 0 {
        proof {
            assert(tile_fg(img, threshold, target, tx, ty).contains(c));
            lemma_fg_pixel(img, threshold, target, tiles_x as int, tiles_y, results@, offsets@, c);
            assert(label_at(results@, tiles_x as int, c) == lid);
        }
        let gid = offsets[t] + (lid as usize - 1);
        let root = dsu.find(gid);
        let tp = results[t].tile_pos;
        let gx: u64 = tp.0 as u64 * 8 + (i % 8) as u64;
        let gy: u64 = tp.1 as u64 * 8 + (i / 8) as u64;
        let point = (gx as u32, gy as u32);
        proof {
            assert(pt(point) == c);
            assert(root == root_of(p0, r0, gid_of(results@, offsets@, tiles_x as int, c)));
        }
        groups[root].push(point);
        proof {
            assert(groups@.len() == before.len());
            assert(groups@[root as int]@ == before[root as int]@.push(point));
            assert(forall|r: int| 0 <= r < before.len() && r != root ==> #[trigger] groups@[r] == before[r]);
            assert forall|r: int, k: int|
                0 <= r < groups@.len() && 0 <= k < groups@[r]@.len() implies is_fg_at(
                    img,
                    threshold,
                    target,
                    pt(#[trigger] groups@[r]@[k]),
                ) && root_of(p0, r0, gid_of(results@, offsets@, tiles_x as int, pt(groups@[r]@[k]))) == r
                    && scan_order(tiles_x as int, pt(groups@[r]@[k])) < t * 64 + i + 1 by {
                if r != root || k < before[r]@.len() {
                    assert(groups@[r]@[k] == before[r]@[k]);
                }
            }
            assert forall|cc: (int, int)|
                #[trigger] is_fg_at(img, threshold, target, cc) && scan_order(tiles_x as int, cc) < t * 64 + i + 1 implies exists|k: int|
                    0 <= k < groups@[root_of(p0, r0, gid_of(results@, offsets@, tiles_x as int, cc))]@.len()
                        && pt(groups@[root_of(p0, r0, gid_of(results@, offsets@, tiles_x as int, cc))]@[k]) == cc by {
                let rc = root_of(p0, r0, gid_of(results@, offsets@, tiles_x as int, cc));
                lemma_fg_pixel(img, threshold, target, tiles_x as int, tiles_y, results@, offsets@, cc);
                lemma_root(p0, r0, gid_of(results@, offsets@, tiles_x as int, cc));
                if scan_order(tiles_x as int, cc) < t * 64 + i {
                    let k = choose|k: int| 0 <= k < before[rc]@.len() && pt(before[rc]@[k]) == cc;
                    assert(groups@[rc]@[k] == before[rc]@[k]);
                } else {
                    lemma_scan_order_split(
                        tile_index_of(tiles_x as int, cc),
                        index_in_tile(cc.0 / 8, cc.1 / 8, cc),
                        t as int,
                        i as int,
                    );
                    assert(cc == c);
                    assert(groups@[rc]@[before[rc]@.len() as int] == point);
                }
            }
            assert forall|r1: int, k1: int, r2: int, k2: int|
                0 <= r1 < groups@.len() && 0 <= k1 < groups@[r1]@.len() && 0 <= r2 < groups@.len() && 0
                    <= k2 < groups@[r2]@.len() && (r1 != r2 || k1 != k2) implies #[trigger] groups@[r1]@[k1]
                    != #[trigger] groups@[r2]@[k2] by {
                let new1 = r1 == root && k1 == before[r1]@.len();
                let new2 = r2 == root && k2 == before[r2]@.len();
                if !new1 {
                    assert(groups@[r1]@[k1] == before[r1]@[k1]);
                }
                if !new2 {
                    assert(groups@[r2]@[k2] == before[r2]@[k2]);
                }
            }
        }
    } else {
        proof {
            assert forall|cc: (int, int)|
                #[trigger] is_fg_at(img, threshold, target, cc) && scan_order(tiles_x as int, cc) < t * 64 + i + 1 implies exists|k: int|
                    0 <= k < groups@[root_of(p0, r0, gid_of(results@, offsets@, tiles_x as int, cc))]@.len()
                        && pt(groups@[root_of(p0, r0, gid_of(results@, offsets@, tiles_x as int, cc))]@[k]) == cc by {
                lemma_fg_pixel(img, threshold, target, tiles_x as int, tiles_y, results@, offsets@, cc);
                if scan_order(tiles_x as int, cc) == t * 64 + i {
                    lemma_scan_order_split(
                        tile_index_of(tiles_x as int, cc),
                        index_in_tile(cc.0 / 8, cc.1 / 8, cc),
                        t as int,
                        i as int,
                    );
                    assert(cc == c);
                    assert(!tile_fg(img, threshold, target, tx, ty).contains(c));
                }
            }
        }
    }
}

/// Groups the foreground pixels by the root of their union-find element:
/// entry `r` holds the pixels whose root is `r`, each once.
pub(crate) fn collect_points(
    dsu: &mut DisjointSet,
    results: &Vec<TileResult>,
    offsets: &Vec<usize>,
    tiles_x: usize,
    Ghost(tiles_y): Ghost<int>,
    Ghost(img): Ghost<RasterBuffer>,
    Ghost(threshold): Ghost<u8>,
    Ghost(target): Ghost<Option<Rgb8>>,
) -> (groups: Vec<Vec<(u32, u32)>>)
    requires
        grid_ok(img, threshold, target, tiles_x as int, tiles_y, results@, offsets@),
        old(dsu).wf(),
        old(dsu).n() == offsets@[results@.len() as int],
    ensures
        groups@.len() == old(dsu).n(),
        groups_ok(groups@, old(dsu).parent@, old(dsu).rank@, img, threshold, target, tiles_x as int, results@, offsets@, results@.len() as int * 64),
{
    let ghost p0 = dsu.parent@;
    let ghost r0 = dsu.rank@;
    let n = offsets[results.len()];
    let mut groups: Vec<Vec<(u32, u32)>> = Vec::new();
    let mut r: usize = 0;
    while r < n
        invariant
            0 <= r <= n,
            groups@.len() == r,
            forall|x: int| 0 <= x < r ==> (#[trigger] groups@[x])@.len() == 0,
        decreases n - r,
    {
        groups.push(Vec::new());
        r = r + 1;
    }
    proof {
        reveal(groups_ok);
    }
    let count = results.len();
    let mut t: usize = 0;
    while t < count
        invariant
            0 <= t <= count,
            count == results@.len(),
            grid_ok(img, threshold, target, tiles_x as int, tiles_y, results@, offsets@),
            n == offsets@[results@.len() as int],
            dsu.wf(),
            dsu.n() == n,
            p0.len() == n,
            ranks_ok(p0, r0),
            forall|x: int| 0 <= x < n ==> #[trigger] root_of(dsu.parent@, dsu.rank@, x) == root_of(p0, r0, x),
            groups@.len() == n,
            groups_ok(groups@, p0, r0, img, threshold, target, tiles_x as int, results@, offsets@, t * 64),
        decreases count - t,
    {
        let mut i: usize = 0;
        while i < 64
            invariant
                0 <= i <= 64,
                0 <= t < count,
                count == results@.len(),
                grid_ok(img, threshold, target, tiles_x as int, tiles_y, results@, offsets@),
                n == offsets@[results@.len() as int],
                dsu.wf(),
                dsu.n() == n,
                p0.len() == n,
                ranks_ok(p0, r0),
                forall|x: int| 0 <= x < n ==> #[trigger] root_of(dsu.parent@, dsu.rank@, x) == root_of(p0, r0, x),
                groups@.len() == n,
                groups_ok(groups@, p0, r0, img, threshold, target, tiles_x as int, results@, offsets@, t * 64 + i),
            decreases 64 - i,
        {
            collect_cell(
                dsu,
                &mut groups,
                results,
                offsets,
                tiles_x,
                t,
                i,
                Ghost(tiles_y),
                Ghost(img),
                Ghost(threshold),
                Ghost(target),
                Ghost(p0),
                Ghost(r0),
            );
            i = i + 1;
        }
        t = t + 1;
    }
    groups
}

} // verus!
