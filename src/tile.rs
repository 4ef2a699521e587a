//! One 8x8 tile: its foreground bitmask and the bit-parallel flood fill that labels it.

use vstd::prelude::*;
use crate::bits::{
    bit, lemma_bit_and, lemma_bit_and_not, lemma_bit_east, lemma_bit_north, lemma_bit_or, lemma_bit_single,
    lemma_bit_south, lemma_bit_west, lemma_bit_zero, lemma_clear_shrinks, lemma_or_grows, COL_0_MASK,
    COL_7_MASK,
};
use crate::classify::{is_foreground, spec_is_foreground};
use crate::conn::{
    adjacent, connected, lemma_connected_closed, lemma_connected_ends, lemma_connected_refl, lemma_connected_step,
    lemma_connected_sym, lemma_connected_trans,
};
use crate::raster::{RasterBuffer, Rgb8};

verus! {

broadcast use vstd::std_specs::bits::axiom_u64_trailing_zeros;

/// Side of a square tile, in pixels.
pub const TILE_DIM: u32 = 8;

/// Cells of a tile.
pub const TILE_SIZE: usize = 64;

/// The pixel position of bit `i` of tile `(tx, ty)`: row-major, bit 0 at the
/// tile's top-left corner.
pub open spec fn cell_of(tx: int, ty: int, i: int) -> (int, int) {
    (8 * tx + i % 8, 8 * ty + i / 8)
}

pub open spec fn in_tile(tx: int, ty: int, c: (int, int)) -> bool {
    8 * tx <= c.0 < 8 * tx + 8 && 8 * ty <= c.1 < 8 * ty + 8
}

/// The bit index of a position inside tile `(tx, ty)`.
pub open spec fn index_in_tile(tx: int, ty: int, c: (int, int)) -> int {
    (c.0 - 8 * tx) + 8 * (c.1 - 8 * ty)
}

/// The positions of tile `(tx, ty)` whose bit is set in `m`.
pub open spec fn mask_set(m: u64, tx: int, ty: int) -> Set<(int, int)> {
    Set::new(|c: (int, int)| in_tile(tx, ty, c) && bit(m, index_in_tile(tx, ty, c) as u64))
}

/// A pixel that lies in the image and is foreground under the rule.
pub open spec fn is_fg_at(img: RasterBuffer, threshold: u8, target: Option<Rgb8>, c: (int, int)) -> bool {
    img.in_bounds(c.0, c.1) && spec_is_foreground(img.at(c.0, c.1), threshold, target)
}

/// The foreground pixels of an image.
pub open spec fn fg_set(img: RasterBuffer, threshold: u8, target: Option<Rgb8>) -> Set<(int, int)> {
    Set::new(|c: (int, int)| is_fg_at(img, threshold, target, c))
}

/// The foreground pixels of an image that lie in tile `(tx, ty)`.
pub open spec fn tile_fg(img: RasterBuffer, threshold: u8, target: Option<Rgb8>, tx: int, ty: int) -> Set<
    (int, int),
> {
    Set::new(|c: (int, int)| in_tile(tx, ty, c) && is_fg_at(img, threshold, target, c))
}

/// Whether bits `i` and `j` of a tile stand for positions that share an edge.
pub open spec fn index_adjacent(i: int, j: int) -> bool {
    ||| j == i + 8
    ||| i == j + 8
    ||| (j == i + 1 && i % 8 != 7)
    ||| (i == j + 1 && j % 8 != 7)
}

/// A local labelling of a tile whose foreground positions are `s`: 0 on
/// background, a label in `1..=count` on foreground, and two foreground bits
/// share a label exactly when they are 4-connected inside the tile.
pub open spec fn labels_ok(labels: Seq<u8>, count: u8, s: Set<(int, int)>, tx: int, ty: int) -> bool {
    &&& labels.len() == 64
    &&& forall|i: int| 0 <= i < 64 ==> (#[trigger] labels[i] != 0) == s.contains(cell_of(tx, ty, i))
    &&& forall|i: int| 0 <= i < 64 ==> #[trigger] labels[i] <= count
    &&& forall|i: int, j: int|
        0 <= i < 64 && 0 <= j < 64 && #[trigger] labels[i] != 0 && #[trigger] labels[j] != 0 ==> (
        labels[i] == labels[j] <==> connected(s, cell_of(tx, ty, i), cell_of(tx, ty, j)))
}

/// Some cell before bit `j` carries label `l`.
pub open spec fn label_before(labels: Seq<u8>, l: u8, j: int) -> bool {
    exists|k: int| 0 <= k < j && labels[k] == l
}

/// Labels `1..=count` are all in use and numbered in the order of each
/// label's lowest cell.
pub open spec fn labels_in_seed_order(labels: Seq<u8>, count: u8) -> bool {
    &&& forall|l: u8| 1 <= l <= count ==> #[trigger] label_before(labels, l, 64)
    &&& forall|i: int, j: int|
        0 <= i < 64 && 0 <= j < 64 && #[trigger] labels[i] != 0 && labels[i] < #[trigger] labels[j] ==> label_before(
            labels,
            labels[i],
            j,
        )
}

pub proof fn lemma_cell_index(tx: int, ty: int, i: int)
    requires
        0 <= i < 64,
    ensures
        in_tile(tx, ty, cell_of(tx, ty, i)),
        index_in_tile(tx, ty, cell_of(tx, ty, i)) == i,
{
}

pub proof fn lemma_index_cell(tx: int, ty: int, c: (int, int))
    requires
        in_tile(tx, ty, c),
    ensures
        0 <= index_in_tile(tx, ty, c) < 64,
        cell_of(tx, ty, index_in_tile(tx, ty, c)) == c,
{
}

/// Edge-sharing positions of one tile are exactly index-adjacent bits.
pub proof fn lemma_adjacent_index(tx: int, ty: int, i: int, j: int)
    requires
        0 <= i < 64,
        0 <= j < 64,
    ensures
        adjacent(cell_of(tx, ty, i), cell_of(tx, ty, j)) == index_adjacent(i, j),
{
}

/// `grown` is `f` widened by one step of the fill inside `m`.
pub open spec fn one_step(f: u64, m: u64, grown: u64) -> bool {
    forall|j: u64|
        j < 64 ==> (#[trigger] bit(grown, j) == (bit(f, j) || (bit(m, j) && exists|i: u64|
            i < 64 && #[trigger] bit(f, i) && index_adjacent(i as int, j as int))))
}

/// No bit of `m` next to a bit of `f` is missing from `f`.
pub open spec fn closed_in(f: u64, m: u64) -> bool {
    forall|i: u64, j: u64|
        i < 64 && j < 64 && #[trigger] bit(f, i) && index_adjacent(i as int, j as int) && #[trigger] bit(
            m,
            j,
        ) ==> bit(f, j)
}

proof fn lemma_one_step(f: u64, m: u64)
    ensures
        one_step(
            f,
            m,
            f | (((f >> 8u64) | (f << 8u64) | ((f & !COL_7_MASK) << 1u64) | ((f & !COL_0_MASK)
                >> 1u64)) & m),
        ),
{
    let n = f >> 8u64;
    let s = f << 8u64;
    let e = (f & !COL_7_MASK) << 1u64;
    let w = (f & !COL_0_MASK) >> 1u64;
    let grown = f | ((n | s | e | w) & m);
    assert forall|j: u64| j < 64 implies (#[trigger] bit(grown, j) == (bit(f, j) || (bit(m, j)
        && exists|i: u64| i < 64 && #[trigger] bit(f, i) && index_adjacent(i as int, j as int)))) by {
        lemma_bit_or(f, (n | s | e | w) & m, j);
        lemma_bit_and(n | s | e | w, m, j);
        lemma_bit_or(n | s | e, w, j);
        lemma_bit_or(n | s, e, j);
        lemma_bit_or(n, s, j);
        lemma_bit_north(f, j);
        lemma_bit_south(f, j);
        lemma_bit_east(f, j);
        lemma_bit_west(f, j);
        if bit(m, j) && exists|i: u64| i < 64 && #[trigger] bit(f, i) && index_adjacent(i as int, j as int) {
            let i = choose|i: u64| i < 64 && #[trigger] bit(f, i) && index_adjacent(i as int, j as int);
            if j == i + 8 {
                assert(bit(s, j));
            } else if i == j + 8 {
                assert(bit(n, j));
            } else if j == i + 1 {
                assert(bit(e, j));
            } else {
                assert(bit(w, j));
            }
        }
        if bit(n, j) {
            assert(index_adjacent((j + 8) as int, j as int));
        }
        if bit(s, j) {
            assert(index_adjacent((j - 8) as int, j as int));
        }
        if bit(e, j) {
            assert(index_adjacent((j - 1) as int, j as int));
        }
        if bit(w, j) {
            assert(index_adjacent((j + 1) as int, j as int));
        }
    }
}

/// The 4-connected component of bit `seed` inside the foreground bits `m`,
/// grown by whole-word shifts until nothing changes.
fn flood_from(m: u64, seed: u32, Ghost(pos): Ghost<(int, int)>) -> (f: u64)
    requires
        seed < 64,
        bit(m, seed as u64),
    ensures
        forall|j: u64|
            j < 64 ==> (#[trigger] bit(f, j) == connected(
                mask_set(m, pos.0, pos.1),
                cell_of(pos.0, pos.1, seed as int),
                cell_of(pos.0, pos.1, j as int),
            )),
{
    let ghost s = mask_set(m, pos.0, pos.1);
    let ghost sc = cell_of(pos.0, pos.1, seed as int);
    proof {
        lemma_cell_index(pos.0, pos.1, seed as int);
        assert(s.contains(sc));
        lemma_connected_refl(s, sc);
    }
    let mut flood: u64 = 1u64 << seed;
    proof {
        lemma_bit_single(seed as u64, seed as u64);
        assert forall|j: u64| j < 64 && #[trigger] bit(flood, j) implies bit(m, j) && connected(
            s,
            sc,
            cell_of(pos.0, pos.1, j as int),
        ) by {
            lemma_bit_single(seed as u64, j);
        }
    }
    loop
        invariant
            seed < 64,
            bit(m, seed as u64),
            s == mask_set(m, pos.0, pos.1),
            sc == cell_of(pos.0, pos.1, seed as int),
            bit(flood, seed as u64),
            forall|j: u64|
                j < 64 && #[trigger] bit(flood, j) ==> bit(m, j) && connected(
                    s,
                    sc,
                    cell_of(pos.0, pos.1, j as int),
                ),
        ensures
            closed_in(flood, m),
            bit(flood, seed as u64),
            forall|j: u64|
                j < 64 && #[trigger] bit(flood, j) ==> bit(m, j) && connected(
                    s,
                    sc,
                    cell_of(pos.0, pos.1, j as int),
                ),
        decreases u64::MAX - flood,
    {
        let north = flood >> 8u64;
        let south = flood << 8u64;
        let east = (flood & !COL_7_MASK) << 1u64;
        let west = (flood & !COL_0_MASK) >> 1u64;
        let grown = flood | ((north | south | east | west) & m);
        proof {
            lemma_one_step(flood, m);
            lemma_or_grows(flood, (north | south | east | west) & m);
            assert(bit(grown, seed as u64));
            assert forall|j: u64| j < 64 && #[trigger] bit(grown, j) implies bit(m, j) && connected(
                s,
                sc,
                cell_of(pos.0, pos.1, j as int),
            ) by {
                if !bit(flood, j) {
                    let i = choose|i: u64| i < 64 && #[trigger] bit(flood, i) && index_adjacent(i as int, j as int);
                    lemma_adjacent_index(pos.0, pos.1, i as int, j as int);
                    lemma_cell_index(pos.0, pos.1, j as int);
                    lemma_connected_step(
                        s,
                        sc,
                        cell_of(pos.0, pos.1, i as int),
                        cell_of(pos.0, pos.1, j as int),
                    );
                }
            }
        }
        if grown == flood {
            proof {
                assert forall|i: u64, j: u64|
                    i < 64 && j < 64 && #[trigger] bit(flood, i) && index_adjacent(i as int, j as int)
                        && #[trigger] bit(m, j) implies bit(flood, j) by {
                    assert(bit(grown, j));
                }
            }
            break;
        }
        flood = grown;
    }
    proof {
        let prop = |c: (int, int)| in_tile(pos.0, pos.1, c) && bit(flood, index_in_tile(pos.0, pos.1, c) as u64);
        assert forall|x: (int, int), y: (int, int)|
            s.contains(x) && s.contains(y) && adjacent(x, y) && #[trigger] prop(x) implies #[trigger] prop(y) by {
            let ix = index_in_tile(pos.0, pos.1, x);
            let iy = index_in_tile(pos.0, pos.1, y);
            lemma_index_cell(pos.0, pos.1, x);
            lemma_index_cell(pos.0, pos.1, y);
            lemma_adjacent_index(pos.0, pos.1, ix, iy);
            assert(bit(m, iy as u64));
            assert(bit(flood, ix as u64));
        }
        assert forall|j: u64| j < 64 implies (#[trigger] bit(flood, j) == connected(
            s,
            sc,
            cell_of(pos.0, pos.1, j as int),
        )) by {
            lemma_cell_index(pos.0, pos.1, j as int);
            if connected(s, sc, cell_of(pos.0, pos.1, j as int)) {
                lemma_cell_index(pos.0, pos.1, seed as int);
                lemma_connected_closed(s, prop, sc, cell_of(pos.0, pos.1, j as int));
            }
        }
    }
    flood
}

/// The labelling of one tile, with the tile's position in the tile grid.
pub struct TileResult {
    /// The local label of each of the 64 cells; 0 is background.
    pub labels: Vec<u8>,
    /// How many local labels were handed out.
    pub blob_count: u8,
    /// Column and row of the tile in the tile grid.
    pub tile_pos: (u32, u32),
}

/// The foreground cells of one tile, one bit each in row-major order.
pub struct BitboardTile {
    pub pixels_mask: u64,
}

impl BitboardTile {
    pub fn new(pixels_mask: u64) -> (t: Self)
        ensures
            t.pixels_mask == pixels_mask,
    {
        Self { pixels_mask }
    }

    /// The foreground bits of tile `(tx, ty)`; cells outside the image are
    /// background.
    pub fn from_image(img: &RasterBuffer, tx: u32, ty: u32, threshold: u8, target: Option<Rgb8>) -> (t: Self)
        requires
            img.wf(),
        ensures
            mask_set(t.pixels_mask, tx as int, ty as int) == tile_fg(*img, threshold, target, tx as int, ty as int),
    {
        let mut mask: u64 = 0;
        let start_x: u64 = tx as u64 * TILE_DIM as u64;
        let start_y: u64 = ty as u64 * TILE_DIM as u64;
        let width = img.width;
        let height = img.height;
        let mut i: usize = 0;
        proof {
            assert forall|k: u64| i <= k < 64 implies !#[trigger] bit(mask, k) by {
                lemma_bit_zero(k);
            }
        }
        while i < TILE_SIZE
            invariant
                0 <= i <= 64,
                img.wf(),
                width == img.width,
                height == img.height,
                start_x == tx * 8,
                start_y == ty * 8,
                forall|k: u64| k < i ==> #[trigger] bit(mask, k) == is_fg_at(
                    *img,
                    threshold,
                    target,
                    cell_of(tx as int, ty as int, k as int),
                ),
                forall|k: u64| i <= k < 64 ==> !#[trigger] bit(mask, k),
            decreases 64 - i,
        {
            let lx: u64 = (i % 8) as u64;
            let ly: u64 = (i / 8) as u64;
            let px_x: u64 = start_x + lx;
            let px_y: u64 = start_y + ly;
            let ghost old_mask = mask;
            if px_x < width as u64 && px_y < height as u64 {
                if is_foreground(img.get(px_x as u32, px_y as u32), threshold, target) {
                    mask = mask | (1u64 << i as u64);
                    proof {
                        assert forall|k: u64| k < 64 implies #[trigger] bit(mask, k) == (bit(old_mask, k) || k == i) by {
                            lemma_bit_or(old_mask, 1u64 << i as u64, k);
                            lemma_bit_single(i as u64, k);
                        }
                    }
                }
            }
            i = i + 1;
        }
        proof {
            let ms = mask_set(mask, tx as int, ty as int);
            let tf = tile_fg(*img, threshold, target, tx as int, ty as int);
            assert forall|c: (int, int)| ms.contains(c) == tf.contains(c) by {
                if in_tile(tx as int, ty as int, c) {
                    lemma_index_cell(tx as int, ty as int, c);
                    assert(bit(mask, index_in_tile(tx as int, ty as int, c) as u64) == is_fg_at(
                        *img,
                        threshold,
                        target,
                        cell_of(tx as int, ty as int, index_in_tile(tx as int, ty as int, c)),
                    ));
                }
            }
            assert(ms =~= tf);
        }
        Self::new(mask)
    }

    /// Labels the 4-connected components of the tile's foreground. Each
    /// round floods the component of the lowest unlabelled bit by whole-word
    /// shifts and gives it the next label, 1 first.
    pub fn process(&self, tile_pos: (u32, u32)) -> (r: TileResult)
        ensures
            r.tile_pos == tile_pos,
            r.blob_count <= 64,
            labels_in_seed_order(r.labels@, r.blob_count),
            labels_ok(
                r.labels@,
                r.blob_count,
                mask_set(self.pixels_mask, tile_pos.0 as int, tile_pos.1 as int),
                tile_pos.0 as int,
                tile_pos.1 as int,
            ),
    {
        let ghost tx = tile_pos.0 as int;
        let ghost ty = tile_pos.1 as int;
        let ghost s = mask_set(self.pixels_mask, tx, ty);
        let m = self.pixels_mask;
        let mut remaining: u64 = m;
        let mut labels: Vec<u8> = vec![0u8; TILE_SIZE];
        let mut next_id: u8 = 1;
        proof {
            assert forall|i: int, j: int|
                0 <= i < 64 && 0 <= j < 64 && #[trigger] bit(remaining, i as u64) && bit(m, j as u64)
                    && connected(s, cell_of(tx, ty, i), cell_of(tx, ty, j)) implies #[trigger] bit(
                    remaining,
                    j as u64,
                ) by {}
        }
        // The cap on labels keeps them in a byte; 64 cells never reach it.
        while remaining != 0 && next_id < 255
            invariant
                m == self.pixels_mask,
                s == mask_set(m, tx, ty),
                labels@.len() == 64,
                1 <= next_id <= 65,
                forall|i: int| 0 <= i < 64 && #[trigger] bit(remaining, i as u64) ==> bit(m, i as u64),
                forall|i: int|
                    0 <= i < 64 ==> (#[trigger] labels@[i] != 0) == (bit(m, i as u64) && !bit(
                        remaining,
                        i as u64,
                    )),
                forall|i: int| 0 <= i < 64 ==> #[trigger] labels@[i] < next_id,
                forall|i: int, j: int|
                    0 <= i < 64 && 0 <= j < 64 && #[trigger] labels@[i] != 0 && #[trigger] labels@[j] != 0
                        ==> (labels@[i] == labels@[j] <==> connected(
                        s,
                        cell_of(tx, ty, i),
                        cell_of(tx, ty, j),
                    )),
                forall|i: int, j: int|
                    0 <= i < 64 && 0 <= j < 64 && #[trigger] bit(remaining, i as u64) && bit(m, j as u64)
                        && connected(s, cell_of(tx, ty, i), cell_of(tx, ty, j)) ==> #[trigger] bit(
                        remaining,
                        j as u64,
                    ),
                forall|k: int| 0 <= k < next_id - 1 && k < 64 ==> !#[trigger] bit(remaining, k as u64),
                forall|l: u8| 1 <= l < next_id ==> #[trigger] label_before(labels@, l, 64),
                forall|i: int, j: int|
                    0 <= i < 64 && 0 <= j < 64 && #[trigger] labels@[i] != 0 && labels@[i] < #[trigger] labels@[j]
                        ==> label_before(labels@, labels@[i], j),
                forall|i: int, j: int|
                    0 <= i < 64 && 0 <= j < 64 && #[trigger] labels@[i] != 0 && #[trigger] bit(remaining, j as u64)
                        ==> label_before(labels@, labels@[i], j),
            decreases remaining,
        {
            let seed = remaining.trailing_zeros();
            proof {
                assert(bit(remaining, seed as u64));
                assert(seed >= next_id - 1) by {
                    if seed < next_id - 1 {
                        assert(!bit(remaining, seed as u64));
                    }
                }
            }
            let flood = flood_from(m, seed, Ghost((tx, ty)));
            let ghost sc = cell_of(tx, ty, seed as int);
            let ghost old_labels = labels@;
            let ghost old_remaining = remaining;
            proof {
                assert forall|j: int| 0 <= j < 64 && #[trigger] bit(flood, j as u64) implies bit(
                    remaining,
                    j as u64,
                ) && bit(m, j as u64) by {
                    lemma_cell_index(tx, ty, j);
                    lemma_connected_ends(s, sc, cell_of(tx, ty, j));
                    assert(bit(m, index_in_tile(tx, ty, cell_of(tx, ty, j)) as u64));
                }
            }
            let mut i: usize = 0;
            while i < TILE_SIZE
                invariant
                    0 <= i <= 64,
                    labels@.len() == 64,
                    forall|k: int|
                        0 <= k < i ==> #[trigger] labels@[k] == (if bit(flood, k as u64) {
                            next_id
                        } else {
                            old_labels[k]
                        }),
                    forall|k: int| i <= k < 64 ==> #[trigger] labels@[k] == old_labels[k],
                decreases 64 - i,
            {
                if (flood >> i as u64) & 1u64 == 1u64 {
                    labels.set(i, next_id);
                }
                i = i + 1;
            }
            proof {
                assert(bit(flood, seed as u64)) by {
                    lemma_cell_index(tx, ty, seed as int);
                    lemma_connected_refl(s, sc);
                }
                lemma_clear_shrinks(remaining, flood, seed as u64);
            }
            remaining = remaining & !flood;
            proof {
                assert forall|i: int| 0 <= i < 64 implies #[trigger] bit(remaining, i as u64) == (bit(
                    old_remaining,
                    i as u64,
                ) && !bit(flood, i as u64)) by {
                    lemma_bit_and_not(old_remaining, flood, i as u64);
                }
                assert forall|i: int, j: int|
                    0 <= i < 64 && 0 <= j < 64 && #[trigger] labels@[i] != 0 && #[trigger] labels@[j] != 0
                        implies (labels@[i] == labels@[j] <==> connected(
                        s,
                        cell_of(tx, ty, i),
                        cell_of(tx, ty, j),
                    )) by {
                    let ci = cell_of(tx, ty, i);
                    let cj = cell_of(tx, ty, j);
                    if bit(flood, i as u64) && bit(flood, j as u64) {
                        lemma_connected_sym(s, sc, ci);
                        lemma_connected_trans(s, ci, sc, cj);
                    } else if bit(flood, i as u64) {
                        if connected(s, ci, cj) {
                            lemma_connected_trans(s, sc, ci, cj);
                        }
                    } else if bit(flood, j as u64) {
                        if connected(s, ci, cj) {
                            lemma_connected_sym(s, ci, cj);
                            lemma_connected_trans(s, sc, cj, ci);
                        }
                    }
                }
                assert forall|i: int, j: int|
                    0 <= i < 64 && 0 <= j < 64 && #[trigger] bit(remaining, i as u64) && bit(m, j as u64)
                        && connected(s, cell_of(tx, ty, i), cell_of(tx, ty, j)) implies #[trigger] bit(
                        remaining,
                        j as u64,
                    ) by {
                    let ci = cell_of(tx, ty, i);
                    let cj = cell_of(tx, ty, j);
                    assert(bit(old_remaining, j as u64));
                    if bit(flood, j as u64) {
                        lemma_connected_sym(s, ci, cj);
                        lemma_connected_trans(s, sc, cj, ci);
                        assert(bit(flood, i as u64));
                    }
                }
                assert forall|k: int| 0 <= k < next_id && k < 64 implies !#[trigger] bit(
                    remaining,
                    k as u64,
                ) by {
                    if k < seed {
                        assert(!bit(old_remaining, k as u64));
                    }
                }
                let nl = labels@;
                assert(nl[seed as int] == next_id);
                assert forall|k: int| 0 <= k < 64 && old_labels[k] != 0 implies #[trigger] nl[k] == old_labels[k] by {
                    assert(!bit(old_remaining, k as u64));
                }
                assert forall|l: u8| 1 <= l < next_id + 1 implies #[trigger] label_before(nl, l, 64) by {
                    if l < next_id {
                        assert(label_before(old_labels, l, 64));
                        let k = choose|k: int| 0 <= k < 64 && old_labels[k] == l;
                        assert(nl[k] == l);
                    } else {
                        assert(nl[seed as int] == l);
                    }
                }
                assert forall|i: int, j: int|
                    0 <= i < 64 && 0 <= j < 64 && #[trigger] nl[i] != 0 && #[trigger] bit(remaining, j as u64)
                        implies label_before(nl, nl[i], j) by {
                    if bit(flood, i as u64) {
                        assert(j > seed) by {
                            if j < seed {
                                assert(!bit(old_remaining, j as u64));
                            }
                        }
                        assert(nl[seed as int] == nl[i]);
                    } else {
                        assert(old_labels[i] != 0);
                        assert(label_before(old_labels, old_labels[i], j));
                        let k = choose|k: int| 0 <= k < j && old_labels[k] == old_labels[i];
                        assert(nl[k] == nl[i]);
                    }
                }
                assert forall|i: int, j: int|
                    0 <= i < 64 && 0 <= j < 64 && #[trigger] nl[i] != 0 && nl[i] < #[trigger] nl[j]
                        implies label_before(nl, nl[i], j) by {
                    if bit(flood, i as u64) {
                        assert(nl[j] <= next_id);
                    } else if bit(flood, j as u64) {
                        assert(old_labels[i] != 0);
                        assert(label_before(old_labels, old_labels[i], j));
                        let k = choose|k: int| 0 <= k < j && old_labels[k] == old_labels[i];
                        assert(nl[k] == nl[i]);
                    } else {
                        assert(old_labels[i] != 0 && old_labels[j] != 0);
                        assert(label_before(old_labels, old_labels[i], j));
                        let k = choose|k: int| 0 <= k < j && old_labels[k] == old_labels[i];
                        assert(nl[k] == nl[i]);
                    }
                }
            }
            next_id = next_id + 1;
        }
        proof {
            assert forall|i: int| 0 <= i < 64 implies (#[trigger] labels@[i] != 0) == s.contains(
                cell_of(tx, ty, i),
            ) by {
                lemma_cell_index(tx, ty, i);
                assert(!bit(remaining, i as u64)) by {
                    if remaining == 0 {
                        lemma_bit_zero(i as u64);
                    }
                }
            }
        }
        TileResult { labels, blob_count: next_id - 1, tile_pos }
    }
}

} // verus!
