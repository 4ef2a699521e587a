//! Merging tile-local labels that touch across tile edges.

use vstd::prelude::*;
use crate::conn::{
    adjacent,
    connected,
    lemma_connected_closed,
    lemma_connected_refl,
    lemma_connected_step,
    lemma_connected_sym,
    lemma_connected_trans,
};
use crate::grid::{gid_of, grid_ok, lemma_adjacent_same_tile, lemma_fg_pixel, lemma_tile_split, tile_index_of};
use crate::raster::{RasterBuffer, Rgb8};
use crate::tile::{fg_set, index_in_tile, is_fg_at, TileResult};
use crate::union_find::{root_of, DisjointSet};

verus! {

/// Foreground pixels whose union-find elements share a root are connected.
pub open spec fn dsu_sound(
    parent: Seq<usize>,
    rank: Seq<nat>,
    img: RasterBuffer,
    threshold: u8,
    target: Option<Rgb8>,
    tiles_x: int,
    results: Seq<TileResult>,
    offsets: Seq<usize>,
) -> bool {
    forall|p: (int, int), q: (int, int)|
        is_fg_at(img, threshold, target, p) && is_fg_at(img, threshold, target, q) && #[trigger] root_of(
            parent,
            rank,
            gid_of(results, offsets, tiles_x, p),
        ) == #[trigger] root_of(parent, rank, gid_of(results, offsets, tiles_x, q)) ==> connected(
            fg_set(img, threshold, target),
            p,
            q,
        )
}

/// Two edge-sharing foreground pixels are connected.
pub proof fn lemma_adjacent_connected(img: RasterBuffer, threshold: u8, target: Option<Rgb8>, p: (int, int), q: (int, int))
    requires
        is_fg_at(img, threshold, target, p),
        is_fg_at(img, threshold, target, q),
        adjacent(p, q),
    ensures
        connected(fg_set(img, threshold, target), p, q),
{
    let s = fg_set(img, threshold, target);
    assert(s.contains(p) && s.contains(q));
    lemma_connected_refl(s, p);
    lemma_connected_step(s, p, p, q);
}

/// Unions the elements of two edge-sharing cells of neighbouring tiles when
/// both are foreground.
pub(crate) fn stitch_pair(
    dsu: &mut DisjointSet,
    results: &Vec<TileResult>,
    offsets: &Vec<usize>,
    t1: usize,
    i1: usize,
    t2: usize,
    i2: usize,
    Ghost(img): Ghost<RasterBuffer>,
    Ghost(threshold): Ghost<u8>,
    Ghost(target): Ghost<Option<Rgb8>>,
    Ghost(tiles_x): Ghost<int>,
    Ghost(tiles_y): Ghost<int>,
    Ghost(p): Ghost<(int, int)>,
    Ghost(q): Ghost<(int, int)>,
)
    requires
        grid_ok(img, threshold, target, tiles_x, tiles_y, results@, offsets@),
        old(dsu).wf(),
        old(dsu).n() == offsets@[results@.len() as int],
        dsu_sound(old(dsu).parent@, old(dsu).rank@, img, threshold, target, tiles_x, results@, offsets@),
        adjacent(p, q),
        0 <= p.0 < 8 * tiles_x,
        0 <= p.1 < 8 * tiles_y,
        0 <= q.0 < 8 * tiles_x,
        0 <= q.1 < 8 * tiles_y,
        t1 == tile_index_of(tiles_x, p),
        t2 == tile_index_of(tiles_x, q),
        i1 == index_in_tile(p.0 / 8, p.1 / 8, p),
        i2 == index_in_tile(q.0 / 8, q.1 / 8, q),
    ensures
        final(dsu).wf(),
        final(dsu).n() == old(dsu).n(),
        dsu_sound(final(dsu).parent@, final(dsu).rank@, img, threshold, target, tiles_x, results@, offsets@),
        forall|x: int, y: int|
            0 <= x < old(dsu).n() && 0 <= y < old(dsu).n() && old(dsu).root(x) == old(dsu).root(y)
                ==> #[trigger] root_of(final(dsu).parent@, final(dsu).rank@, x) == #[trigger] root_of(
                final(dsu).parent@,
                final(dsu).rank@,
                y,
            ),
        is_fg_at(img, threshold, target, p) && is_fg_at(img, threshold, target, q) ==> root_of(
            final(dsu).parent@,
            final(dsu).rank@,
            gid_of(results@, offsets@, tiles_x, p),
        ) == root_of(final(dsu).parent@, final(dsu).rank@, gid_of(results@, offsets@, tiles_x, q)),
{
    proof {
        lemma_fg_pixel(img, threshold, target, tiles_x, tiles_y, results@, offsets@, p);
        lemma_fg_pixel(img, threshold, target, tiles_x, tiles_y, results@, offsets@, q);
    }
    let lid_a = results[t1].labels[i1];
    let lid_b = results[t2].labels[i2];
    if lid_a != 0 && lid_b != 0 {
        let ghost parent = dsu.parent@;
        let ghost rank = dsu.rank@;
        let ghost fg = fg_set(img, threshold, target);
        let a = offsets[t1] + (lid_a as usize - 1);
        let b = offsets[t2] + (lid_b as usize - 1);
        dsu.union(a, b);
        proof {
            lemma_adjacent_connected(img, threshold, target, p, q);
            let ra = root_of(parent, rank, a as int);
            let rb = root_of(parent, rank, b as int);
            assert(a == gid_of(results@, offsets@, tiles_x, p));
            assert(b == gid_of(results@, offsets@, tiles_x, q));
            assert forall|u: (int, int), v: (int, int)|
                is_fg_at(img, threshold, target, u) && is_fg_at(img, threshold, target, v) && #[trigger] root_of(
                    dsu.parent@,
                    dsu.rank@,
                    gid_of(results@, offsets@, tiles_x, u),
                ) == #[trigger] root_of(dsu.parent@, dsu.rank@, gid_of(results@, offsets@, tiles_x, v))
                    implies connected(fg, u, v) by {
                let gu = gid_of(results@, offsets@, tiles_x, u);
                let gv = gid_of(results@, offsets@, tiles_x, v);
                lemma_fg_pixel(img, threshold, target, tiles_x, tiles_y, results@, offsets@, u);
                lemma_fg_pixel(img, threshold, target, tiles_x, tiles_y, results@, offsets@, v);
                let ru = root_of(parent, rank, gu);
                let rv = root_of(parent, rank, gv);
                let mu = ru == ra || ru == rb;
                let mv = rv == ra || rv == rb;
                if mu && mv {
                    // u reaches p or q, q reaches v.
                    let cu = if ru == ra { p } else { q };
                    let cv = if rv == ra { p } else { q };
                    assert(root_of(parent, rank, gid_of(results@, offsets@, tiles_x, cu)) == ru);
                    assert(connected(fg, u, cu));
                    assert(root_of(parent, rank, gid_of(results@, offsets@, tiles_x, cv)) == rv);
                    assert(connected(fg, v, cv));
                    lemma_connected_sym(fg, v, cv);
                    if cu == cv {
                        lemma_connected_trans(fg, u, cu, v);
                    } else if cu == p {
                        lemma_connected_trans(fg, u, p, q);
                        lemma_connected_trans(fg, u, q, v);
                    } else {
                        lemma_connected_sym(fg, p, q);
                        lemma_connected_trans(fg, u, q, p);
                        lemma_connected_trans(fg, u, p, v);
                    }
                } else if !mu && !mv {
                    assert(ru == rv);
                } else {
                    assert(false);
                }
            }
        }
    }
}

/// Root equality among the first `n` elements survives from the first forest
/// to the second.
pub open spec fn keeps_classes(p0: Seq<usize>, r0: Seq<nat>, p1: Seq<usize>, r1: Seq<nat>, n: int) -> bool {
    forall|x: int, y: int|
        0 <= x < n && 0 <= y < n && root_of(p0, r0, x) == root_of(p0, r0, y) ==> #[trigger] root_of(
            p1,
            r1,
            x,
        ) == #[trigger] root_of(p1, r1, y)
}

/// Edge-sharing foreground pixels across the right edge of tile `t`, in
/// rows `0..rows` of the tile, share a root.
pub open spec fn right_edge_done(
    parent: Seq<usize>,
    rank: Seq<nat>,
    img: RasterBuffer,
    threshold: u8,
    target: Option<Rgb8>,
    tiles_x: int,
    results: Seq<TileResult>,
    offsets: Seq<usize>,
    t: int,
    rows: int,
) -> bool {
    forall|p: (int, int)|
        is_fg_at(img, threshold, target, p) && tile_index_of(tiles_x, p) == t && p.0 % 8 == 7 && p.1 % 8
            < rows && is_fg_at(img, threshold, target, (p.0 + 1, p.1)) ==> #[trigger] root_of(
            parent,
            rank,
            gid_of(results, offsets, tiles_x, p),
        ) == root_of(parent, rank, gid_of(results, offsets, tiles_x, (p.0 + 1, p.1)))
}

/// Edge-sharing foreground pixels across the bottom edge of tile `t`, in
/// columns `0..cols` of the tile, share a root.
pub open spec fn bottom_edge_done(
    parent: Seq<usize>,
    rank: Seq<nat>,
    img: RasterBuffer,
    threshold: u8,
    target: Option<Rgb8>,
    tiles_x: int,
    results: Seq<TileResult>,
    offsets: Seq<usize>,
    t: int,
    cols: int,
) -> bool {
    forall|p: (int, int)|
        is_fg_at(img, threshold, target, p) && tile_index_of(tiles_x, p) == t && p.1 % 8 == 7 && p.0 % 8
            < cols && is_fg_at(img, threshold, target, (p.0, p.1 + 1)) ==> #[trigger] root_of(
            parent,
            rank,
            gid_of(results, offsets, tiles_x, p),
        ) == root_of(parent, rank, gid_of(results, offsets, tiles_x, (p.0, p.1 + 1)))
}

/// Unions across the right edge of tile `t`, which has a right neighbour.
pub(crate) fn stitch_right_edge(
    dsu: &mut DisjointSet,
    results: &Vec<TileResult>,
    offsets: &Vec<usize>,
    t: usize,
    tiles_x: usize,
    Ghost(img): Ghost<RasterBuffer>,
    Ghost(threshold): Ghost<u8>,
    Ghost(target): Ghost<Option<Rgb8>>,
    Ghost(tiles_y): Ghost<int>,
)
    requires
        grid_ok(img, threshold, target, tiles_x as int, tiles_y, results@, offsets@),
        old(dsu).wf(),
        old(dsu).n() == offsets@[results@.len() as int],
        dsu_sound(old(dsu).parent@, old(dsu).rank@, img, threshold, target, tiles_x as int, results@, offsets@),
        t < results@.len(),
        t % tiles_x + 1 < tiles_x,
    ensures
        final(dsu).wf(),
        final(dsu).n() == old(dsu).n(),
        dsu_sound(final(dsu).parent@, final(dsu).rank@, img, threshold, target, tiles_x as int, results@, offsets@),
        keeps_classes(old(dsu).parent@, old(dsu).rank@, final(dsu).parent@, final(dsu).rank@, old(dsu).n() as int),
        right_edge_done(final(dsu).parent@, final(dsu).rank@, img, threshold, target, tiles_x as int, results@, offsets@, t as int, 8),
{
    let ghost tx = t as int % tiles_x as int;
    let ghost ty = t as int / tiles_x as int;
    let ghost p0 = dsu.parent@;
    let ghost r0 = dsu.rank@;
    let _len = results.len();
    proof {
        lemma_tile_split(t as int, tiles_x as int, tiles_y);
        assert(t + 1 < tiles_x * tiles_y) by (nonlinear_arith)
            requires
                t == ty * tiles_x + tx,
                tx + 1 < tiles_x,
                ty < tiles_y,
        ;
    }
    let mut row: usize = 0;
    while row < 8
        invariant
            0 <= row <= 8,
            grid_ok(img, threshold, target, tiles_x as int, tiles_y, results@, offsets@),
            dsu.wf(),
            dsu.n() == offsets@[results@.len() as int],
            dsu_sound(dsu.parent@, dsu.rank@, img, threshold, target, tiles_x as int, results@, offsets@),
            t < results@.len(),
            t + 1 < results@.len(),
            results@.len() <= usize::MAX,
            tx == t as int % tiles_x as int,
            ty == t as int / tiles_x as int,
            t == ty * tiles_x + tx,
            0 <= tx,
            tx + 1 < tiles_x,
            0 <= ty < tiles_y,
            p0.len() == dsu.n(),
            keeps_classes(p0, r0, dsu.parent@, dsu.rank@, p0.len() as int),
            right_edge_done(dsu.parent@, dsu.rank@, img, threshold, target, tiles_x as int, results@, offsets@, t as int, row as int),
        decreases 8 - row,
    {
        let ghost p = (8 * tx + 7, 8 * ty + row);
        let ghost q = (8 * tx + 8, 8 * ty + row);
        let ghost pm = dsu.parent@;
        let ghost rm = dsu.rank@;
        proof {
            assert(p.1 / 8 == ty);
            assert(p.0 / 8 == tx);
            assert(q.0 / 8 == tx + 1);
            assert(tile_index_of(tiles_x as int, p) == t);
            assert(tile_index_of(tiles_x as int, q) == t + 1);
            assert(index_in_tile(p.0 / 8, p.1 / 8, p) == row * 8 + 7);
            assert(index_in_tile(q.0 / 8, q.1 / 8, q) == row * 8);
        }
        stitch_pair(
            dsu,
            results,
            offsets,
            t,
            row * 8 + 7,
            t + 1,
            row * 8,
            Ghost(img),
            Ghost(threshold),
            Ghost(target),
            Ghost(tiles_x as int),
            Ghost(tiles_y),
            Ghost(p),
            Ghost(q),
        );
        proof {
            assert forall|x: int, y: int|
                0 <= x < p0.len() && 0 <= y < p0.len() && root_of(p0, r0, x) == root_of(p0, r0, y) implies #[trigger] root_of(
                dsu.parent@,
                dsu.rank@,
                x,
            ) == #[trigger] root_of(dsu.parent@, dsu.rank@, y) by {
                assert(root_of(pm, rm, x) == root_of(pm, rm, y));
            }
            assert forall|u: (int, int)|
                is_fg_at(img, threshold, target, u) && tile_index_of(tiles_x as int, u) == t && u.0 % 8 == 7
                    && u.1 % 8 < row + 1 && is_fg_at(img, threshold, target, (u.0 + 1, u.1)) implies #[trigger] root_of(
                dsu.parent@,
                dsu.rank@,
                gid_of(results@, offsets@, tiles_x as int, u),
            ) == root_of(dsu.parent@, dsu.rank@, gid_of(results@, offsets@, tiles_x as int, (u.0 + 1, u.1))) by {
                let v = (u.0 + 1, u.1);
                lemma_fg_pixel(img, threshold, target, tiles_x as int, tiles_y, results@, offsets@, u);
                lemma_fg_pixel(img, threshold, target, tiles_x as int, tiles_y, results@, offsets@, v);
                let gu = gid_of(results@, offsets@, tiles_x as int, u);
                let gv = gid_of(results@, offsets@, tiles_x as int, v);
                if u.1 % 8 < row {
                    assert(root_of(pm, rm, gu) == root_of(pm, rm, gv));
                } else {
                    assert(u.0 / 8 == tx && u.1 / 8 == ty);
                    assert(u == p);
                }
            }
        }
        row = row + 1;
    }
}

/// Unions across the bottom edge of tile `t`, which has a neighbour below.
pub(crate) fn stitch_bottom_edge(
    dsu: &mut DisjointSet,
    results: &Vec<TileResult>,
    offsets: &Vec<usize>,
    t: usize,
    tiles_x: usize,
    Ghost(img): Ghost<RasterBuffer>,
    Ghost(threshold): Ghost<u8>,
    Ghost(target): Ghost<Option<Rgb8>>,
    Ghost(tiles_y): Ghost<int>,
)
    requires
        grid_ok(img, threshold, target, tiles_x as int, tiles_y, results@, offsets@),
        old(dsu).wf(),
        old(dsu).n() == offsets@[results@.len() as int],
        dsu_sound(old(dsu).parent@, old(dsu).rank@, img, threshold, target, tiles_x as int, results@, offsets@),
        t < results@.len(),
        t / tiles_x + 1 < tiles_y,
    ensures
        final(dsu).wf(),
        final(dsu).n() == old(dsu).n(),
        dsu_sound(final(dsu).parent@, final(dsu).rank@, img, threshold, target, tiles_x as int, results@, offsets@),
        keeps_classes(old(dsu).parent@, old(dsu).rank@, final(dsu).parent@, final(dsu).rank@, old(dsu).n() as int),
        bottom_edge_done(final(dsu).parent@, final(dsu).rank@, img, threshold, target, tiles_x as int, results@, offsets@, t as int, 8),
{
    let ghost tx = t as int % tiles_x as int;
    let ghost ty = t as int / tiles_x as int;
    let ghost p0 = dsu.parent@;
    let ghost r0 = dsu.rank@;
    let _len = results.len();
    proof {
        lemma_tile_split(t as int, tiles_x as int, tiles_y);
        assert((ty + 1) * tiles_x + tx < tiles_x * tiles_y) by (nonlinear_arith)
            requires
                ty + 1 < tiles_y,
                0 <= tx < tiles_x,
        ;
        assert((ty + 1) * tiles_x + tx == t + tiles_x) by (nonlinear_arith)
            requires
                t == ty * tiles_x + tx,
        ;
    }
    let mut col: usize = 0;
    while col < 8
        invariant
            0 <= col <= 8,
            grid_ok(img, threshold, target, tiles_x as int, tiles_y, results@, offsets@),
            dsu.wf(),
            dsu.n() == offsets@[results@.len() as int],
            dsu_sound(dsu.parent@, dsu.rank@, img, threshold, target, tiles_x as int, results@, offsets@),
            t < results@.len(),
            t + tiles_x < results@.len(),
            results@.len() <= usize::MAX,
            tx == t as int % tiles_x as int,
            ty == t as int / tiles_x as int,
            t == ty * tiles_x + tx,
            (ty + 1) * tiles_x + tx == t + tiles_x,
            0 <= tx < tiles_x,
            0 <= ty,
            ty + 1 < tiles_y,
            p0.len() == dsu.n(),
            keeps_classes(p0, r0, dsu.parent@, dsu.rank@, p0.len() as int),
            bottom_edge_done(dsu.parent@, dsu.rank@, img, threshold, target, tiles_x as int, results@, offsets@, t as int, col as int),
        decreases 8 - col,
    {
        let ghost p = (8 * tx + col, 8 * ty + 7);
        let ghost q = (8 * tx + col, 8 * ty + 8);
        let ghost pm = dsu.parent@;
        let ghost rm = dsu.rank@;
        proof {
            assert(p.1 / 8 == ty);
            assert(p.0 / 8 == tx);
            assert(q.1 / 8 == ty + 1);
            assert(tile_index_of(tiles_x as int, p) == t);
            assert(tile_index_of(tiles_x as int, q) == t + tiles_x);
            assert(index_in_tile(p.0 / 8, p.1 / 8, p) == 56 + col);
            assert(index_in_tile(q.0 / 8, q.1 / 8, q) == col);
        }
        stitch_pair(
            dsu,
            results,
            offsets,
            t,
            56 + col,
            t + tiles_x,
            col,
            Ghost(img),
            Ghost(threshold),
            Ghost(target),
            Ghost(tiles_x as int),
            Ghost(tiles_y),
            Ghost(p),
            Ghost(q),
        );
        proof {
            assert forall|x: int, y: int|
                0 <= x < p0.len() && 0 <= y < p0.len() && root_of(p0, r0, x) == root_of(p0, r0, y) implies #[trigger] root_of(
                dsu.parent@,
                dsu.rank@,
                x,
            ) == #[trigger] root_of(dsu.parent@, dsu.rank@, y) by {
                assert(root_of(pm, rm, x) == root_of(pm, rm, y));
            }
            assert forall|u: (int, int)|
                is_fg_at(img, threshold, target, u) && tile_index_of(tiles_x as int, u) == t && u.1 % 8 == 7
                    && u.0 % 8 < col + 1 && is_fg_at(img, threshold, target, (u.0, u.1 + 1)) implies #[trigger] root_of(
                dsu.parent@,
                dsu.rank@,
                gid_of(results@, offsets@, tiles_x as int, u),
            ) == root_of(dsu.parent@, dsu.rank@, gid_of(results@, offsets@, tiles_x as int, (u.0, u.1 + 1))) by {
                let v = (u.0, u.1 + 1);
                lemma_fg_pixel(img, threshold, target, tiles_x as int, tiles_y, results@, offsets@, u);
                lemma_fg_pixel(img, threshold, target, tiles_x as int, tiles_y, results@, offsets@, v);
                let gu = gid_of(results@, offsets@, tiles_x as int, u);
                let gv = gid_of(results@, offsets@, tiles_x as int, v);
                if u.0 % 8 < col {
                    assert(root_of(pm, rm, gu) == root_of(pm, rm, gv));
                } else {
                    assert(u.0 / 8 == tx && u.1 / 8 == ty);
                    assert(u == p);
                }
            }
        }
        col = col + 1;
    }
}

/// Every pair of edge-sharing foreground pixels across a right or bottom
/// tile edge, for the tiles numbered below `limit`, shares a root.
pub open spec fn edges_done(
    parent: Seq<usize>,
    rank: Seq<nat>,
    img: RasterBuffer,
    threshold: u8,
    target: Option<Rgb8>,
    tiles_x: int,
    results: Seq<TileResult>,
    offsets: Seq<usize>,
    limit: int,
) -> bool {
    &&& forall|p: (int, int)|
        is_fg_at(img, threshold, target, p) && tile_index_of(tiles_x, p) < limit && p.0 % 8 == 7
            && is_fg_at(img, threshold, target, (p.0 + 1, p.1)) ==> #[trigger] root_of(
            parent,
            rank,
            gid_of(results, offsets, tiles_x, p),
        ) == root_of(parent, rank, gid_of(results, offsets, tiles_x, (p.0 + 1, p.1)))
    &&& forall|p: (int, int)|
        is_fg_at(img, threshold, target, p) && tile_index_of(tiles_x, p) < limit && p.1 % 8 == 7
            && is_fg_at(img, threshold, target, (p.0, p.1 + 1)) ==> #[trigger] root_of(
            parent,
            rank,
            gid_of(results, offsets, tiles_x, p),
        ) == root_of(parent, rank, gid_of(results, offsets, tiles_x, (p.0, p.1 + 1)))
}

/// Edge-sharing foreground pixels share a root.
pub open spec fn dsu_complete(
    parent: Seq<usize>,
    rank: Seq<nat>,
    img: RasterBuffer,
    threshold: u8,
    target: Option<Rgb8>,
    tiles_x: int,
    results: Seq<TileResult>,
    offsets: Seq<usize>,
) -> bool {
    forall|p: (int, int), q: (int, int)|
        is_fg_at(img, threshold, target, p) && is_fg_at(img, threshold, target, q) && #[trigger] adjacent(p, q)
            ==> root_of(parent, rank, gid_of(results, offsets, tiles_x, p)) == root_of(
            parent,
            rank,
            gid_of(results, offsets, tiles_x, q),
        )
}

/// Unions, for every tile, the labels that touch across its right and
/// bottom edges.
pub(crate) fn stitch_tiles(
    dsu: &mut DisjointSet,
    results: &Vec<TileResult>,
    offsets: &Vec<usize>,
    tiles_x: usize,
    tiles_y: usize,
    Ghost(img): Ghost<RasterBuffer>,
    Ghost(threshold): Ghost<u8>,
    Ghost(target): Ghost<Option<Rgb8>>,
)
    requires
        grid_ok(img, threshold, target, tiles_x as int, tiles_y as int, results@, offsets@),
        old(dsu).wf(),
        old(dsu).n() == offsets@[results@.len() as int],
        dsu_sound(old(dsu).parent@, old(dsu).rank@, img, threshold, target, tiles_x as int, results@, offsets@),
    ensures
        final(dsu).wf(),
        final(dsu).n() == old(dsu).n(),
        dsu_sound(final(dsu).parent@, final(dsu).rank@, img, threshold, target, tiles_x as int, results@, offsets@),
        dsu_complete(final(dsu).parent@, final(dsu).rank@, img, threshold, target, tiles_x as int, results@, offsets@),
{
    let count = results.len();
    let mut t: usize = 0;
    while t < count
        invariant
            0 <= t <= count,
            count == results@.len(),
            grid_ok(img, threshold, target, tiles_x as int, tiles_y as int, results@, offsets@),
            dsu.wf(),
            dsu.n() == offsets@[results@.len() as int],
            dsu_sound(dsu.parent@, dsu.rank@, img, threshold, target, tiles_x as int, results@, offsets@),
            edges_done(dsu.parent@, dsu.rank@, img, threshold, target, tiles_x as int, results@, offsets@, t as int),
        decreases count - t,
    {
        let tx = t % tiles_x;
        let ty = t / tiles_x;
        proof {
            lemma_tile_split(t as int, tiles_x as int, tiles_y as int);
        }
        let ghost pa = dsu.parent@;
        let ghost ra = dsu.rank@;
        if tx + 1 < tiles_x {
            stitch_right_edge(dsu, results, offsets, t, tiles_x, Ghost(img), Ghost(threshold), Ghost(target), Ghost(tiles_y as int));
        }
        let ghost pb = dsu.parent@;
        let ghost rb = dsu.rank@;
        if ty + 1 < tiles_y {
            stitch_bottom_edge(dsu, results, offsets, t, tiles_x, Ghost(img), Ghost(threshold), Ghost(target), Ghost(tiles_y as int));
        }
        proof {
            let n = pa.len() as int;
            assert(keeps_classes(pa, ra, pb, rb, n));
            assert(keeps_classes(pb, rb, dsu.parent@, dsu.rank@, n));
            assert forall|p: (int, int)|
                is_fg_at(img, threshold, target, p) && tile_index_of(tiles_x as int, p) < t + 1 && p.0 % 8 == 7
                    && is_fg_at(img, threshold, target, (p.0 + 1, p.1)) implies #[trigger] root_of(
                dsu.parent@,
                dsu.rank@,
                gid_of(results@, offsets@, tiles_x as int, p),
            ) == root_of(dsu.parent@, dsu.rank@, gid_of(results@, offsets@, tiles_x as int, (p.0 + 1, p.1))) by {
                let q = (p.0 + 1, p.1);
                lemma_fg_pixel(img, threshold, target, tiles_x as int, tiles_y as int, results@, offsets@, p);
                lemma_fg_pixel(img, threshold, target, tiles_x as int, tiles_y as int, results@, offsets@, q);
                let gp = gid_of(results@, offsets@, tiles_x as int, p);
                let gq = gid_of(results@, offsets@, tiles_x as int, q);
                if tile_index_of(tiles_x as int, p) < t {
                    assert(root_of(pa, ra, gp) == root_of(pa, ra, gq));
                    assert(root_of(pb, rb, gp) == root_of(pb, rb, gq));
                } else if tx + 1 < tiles_x {
                    assert(root_of(pb, rb, gp) == root_of(pb, rb, gq));
                } else {
                    assert(p.0 / 8 == tx);
                    assert(false);
                }
            }
            assert forall|p: (int, int)|
                is_fg_at(img, threshold, target, p) && tile_index_of(tiles_x as int, p) < t + 1 && p.1 % 8 == 7
                    && is_fg_at(img, threshold, target, (p.0, p.1 + 1)) implies #[trigger] root_of(
                dsu.parent@,
                dsu.rank@,
                gid_of(results@, offsets@, tiles_x as int, p),
            ) == root_of(dsu.parent@, dsu.rank@, gid_of(results@, offsets@, tiles_x as int, (p.0, p.1 + 1))) by {
                let q = (p.0, p.1 + 1);
                lemma_fg_pixel(img, threshold, target, tiles_x as int, tiles_y as int, results@, offsets@, p);
                lemma_fg_pixel(img, threshold, target, tiles_x as int, tiles_y as int, results@, offsets@, q);
                let gp = gid_of(results@, offsets@, tiles_x as int, p);
                let gq = gid_of(results@, offsets@, tiles_x as int, q);
                if tile_index_of(tiles_x as int, p) < t {
                    assert(root_of(pa, ra, gp) == root_of(pa, ra, gq));
                    assert(root_of(pb, rb, gp) == root_of(pb, rb, gq));
                } else if ty + 1 < tiles_y {
                } else {
                    assert(p.1 / 8 == ty);
                    assert(false);
                }
            }
        }
        t = t + 1;
    }
    proof {
        assert forall|p: (int, int), q: (int, int)|
            is_fg_at(img, threshold, target, p) && is_fg_at(img, threshold, target, q) && #[trigger] adjacent(p, q)
                implies root_of(dsu.parent@, dsu.rank@, gid_of(results@, offsets@, tiles_x as int, p)) == root_of(
                dsu.parent@,
                dsu.rank@,
                gid_of(results@, offsets@, tiles_x as int, q),
            ) by {
            lemma_fg_pixel(img, threshold, target, tiles_x as int, tiles_y as int, results@, offsets@, p);
            lemma_fg_pixel(img, threshold, target, tiles_x as int, tiles_y as int, results@, offsets@, q);
            let gp = gid_of(results@, offsets@, tiles_x as int, p);
            let gq = gid_of(results@, offsets@, tiles_x as int, q);
            if p.0 / 8 == q.0 / 8 && p.1 / 8 == q.1 / 8 {
                lemma_adjacent_same_tile(img, threshold, target, tiles_x as int, tiles_y as int, results@, offsets@, p, q);
            } else if q == (p.0 + 1, p.1) {
                assert(root_of(dsu.parent@, dsu.rank@, gp) == root_of(dsu.parent@, dsu.rank@, gq));
            } else if p == (q.0 + 1, q.1) {
                assert(root_of(dsu.parent@, dsu.rank@, gq) == root_of(dsu.parent@, dsu.rank@, gp));
            } else if q == (p.0, p.1 + 1) {
                assert(root_of(dsu.parent@, dsu.rank@, gp) == root_of(dsu.parent@, dsu.rank@, gq));
            } else {
                assert(p == (q.0, q.1 + 1));
                assert(root_of(dsu.parent@, dsu.rank@, gq) == root_of(dsu.parent@, dsu.rank@, gp));
            }
        }
    }
}

/// Two foreground pixels share a root exactly when they are connected.
pub proof fn lemma_root_iff_connected(
    parent: Seq<usize>,
    rank: Seq<nat>,
    img: RasterBuffer,
    threshold: u8,
    target: Option<Rgb8>,
    tiles_x: int,
    tiles_y: int,
    results: Seq<TileResult>,
    offsets: Seq<usize>,
    p: (int, int),
    q: (int, int),
)
    requires
        grid_ok(img, threshold, target, tiles_x, tiles_y, results, offsets),
        dsu_sound(parent, rank, img, threshold, target, tiles_x, results, offsets),
        dsu_complete(parent, rank, img, threshold, target, tiles_x, results, offsets),
        is_fg_at(img, threshold, target, p),
        is_fg_at(img, threshold, target, q),
    ensures
        (root_of(parent, rank, gid_of(results, offsets, tiles_x, p)) == root_of(
            parent,
            rank,
            gid_of(results, offsets, tiles_x, q),
        )) == connected(fg_set(img, threshold, target), p, q),
{
    let fg = fg_set(img, threshold, target);
    let rp = root_of(parent, rank, gid_of(results, offsets, tiles_x, p));
    if connected(fg, p, q) {
        let prop = |c: (int, int)| is_fg_at(img, threshold, target, c) && root_of(parent, rank, gid_of(results, offsets, tiles_x, c)) == rp;
        assert forall|x: (int, int), y: (int, int)|
            fg.contains(x) && fg.contains(y) && adjacent(x, y) && #[trigger] prop(x) implies #[trigger] prop(y) by {
            assert(adjacent(x, y));
        }
        lemma_connected_closed(fg, prop, p, q);
    }
}

} // verus!
