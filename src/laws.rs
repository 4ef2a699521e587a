//! Properties of blob detection and rendering, stated over the contracts of the library.

use vstd::prelude::*;
use vstd::set_lib::lemma_set_disjoint_lens;
use crate::blob::{is_blob_partition, pt, Blob};
use crate::conn::{
    adjacent, connected, lemma_connected_closed, lemma_connected_refl, lemma_connected_shift, lemma_connected_step,
    lemma_diagonal_pair_apart, shifted,
};
use crate::raster::{RasterBuffer, Rgb8, Rgba8};
use crate::render::{
    background_pixel, in_some_blob, is_rendering, lemma_largest_rank_zero, ranks_before, BlobBackground,
    BlobColorMode,
};
use crate::tile::{fg_set, is_fg_at};

verus! {

/// Every foreground pixel lies in exactly one blob, at exactly one place,
/// and every blob pixel is foreground: the blobs cover the foreground with
/// nothing lost and nothing repeated.
pub proof fn lemma_pixel_in_exactly_one_blob(fg: Set<(int, int)>, blobs: Seq<Blob>, p: (int, int))
    requires
        is_blob_partition(fg, blobs),
    ensures
        fg.contains(p) <==> in_some_blob(blobs, p.0, p.1),
        fg.contains(p) ==> exists|b: int, k: int|
            0 <= b < blobs.len() && 0 <= k < blobs[b].points@.len() && pt(blobs[b].points@[k]) == p && forall|
                b2: int,
                k2: int,
            |
                0 <= b2 < blobs.len() && 0 <= k2 < blobs[b2].points@.len() && #[trigger] pt(blobs[b2].points@[k2]) == p
                    ==> b2 == b && k2 == k,
{
    if fg.contains(p) {
        let (b, k) = choose|b: int, k: int|
            0 <= b < blobs.len() && 0 <= k < blobs[b].points@.len() && pt(blobs[b].points@[k]) == p;
        assert(pt(blobs[b].points@[k]) == (p.0, p.1));
        assert forall|b2: int, k2: int|
            0 <= b2 < blobs.len() && 0 <= k2 < blobs[b2].points@.len() && #[trigger] pt(blobs[b2].points@[k2]) == p
                implies b2 == b && k2 == k by {
            if b2 != b || k2 != k {
                assert(blobs[b].points@[k] != blobs[b2].points@[k2]);
            }
        }
    }
    if in_some_blob(blobs, p.0, p.1) {
        let (b, k) = choose|b: int, k: int|
            0 <= b < blobs.len() && 0 <= k < blobs[b].points@.len() && #[trigger] pt(blobs[b].points@[k]) == (p.0, p.1);
        assert(fg.contains(pt(blobs[b].points@[k])));
    }
}

/// Two blob pixels share a blob exactly when a path of edge-sharing
/// foreground pixels joins them.
pub proof fn lemma_same_blob_iff_connected(
    fg: Set<(int, int)>,
    blobs: Seq<Blob>,
    b1: int,
    k1: int,
    b2: int,
    k2: int,
)
    requires
        is_blob_partition(fg, blobs),
        0 <= b1 < blobs.len(),
        0 <= k1 < blobs[b1].points@.len(),
        0 <= b2 < blobs.len(),
        0 <= k2 < blobs[b2].points@.len(),
    ensures
        (b1 == b2) <==> connected(fg, pt(blobs[b1].points@[k1]), pt(blobs[b2].points@[k2])),
{
    assert(blobs[b1].points@[k1] == blobs[b1].points@[k1]);
    assert(blobs[b2].points@[k2] == blobs[b2].points@[k2]);
}

/// The grouping does not depend on how the image was cut up: any two blob
/// lists for one foreground set hold the same pixels and put two pixels
/// together in one exactly when the other does.
pub proof fn lemma_partition_unique(
    fg: Set<(int, int)>,
    a: Seq<Blob>,
    b: Seq<Blob>,
    p: (int, int),
    q: (int, int),
)
    requires
        is_blob_partition(fg, a),
        is_blob_partition(fg, b),
    ensures
        in_some_blob(a, p.0, p.1) <==> in_some_blob(b, p.0, p.1),
        (exists|i: int, k1: int, k2: int|
            0 <= i < a.len() && 0 <= k1 < a[i].points@.len() && 0 <= k2 < a[i].points@.len() && #[trigger] pt(
                a[i].points@[k1],
            ) == p && #[trigger] pt(a[i].points@[k2]) == q) <==> (exists|j: int, k1: int, k2: int|
            0 <= j < b.len() && 0 <= k1 < b[j].points@.len() && 0 <= k2 < b[j].points@.len() && #[trigger] pt(
                b[j].points@[k1],
            ) == p && #[trigger] pt(b[j].points@[k2]) == q),
{
    lemma_pixel_in_exactly_one_blob(fg, a, p);
    lemma_pixel_in_exactly_one_blob(fg, b, p);
    lemma_pixel_in_exactly_one_blob(fg, a, q);
    lemma_pixel_in_exactly_one_blob(fg, b, q);
    if exists|i: int, k1: int, k2: int|
        0 <= i < a.len() && 0 <= k1 < a[i].points@.len() && 0 <= k2 < a[i].points@.len() && #[trigger] pt(
            a[i].points@[k1],
        ) == p && #[trigger] pt(a[i].points@[k2]) == q {
        let (i, k1, k2) = choose|i: int, k1: int, k2: int|
            0 <= i < a.len() && 0 <= k1 < a[i].points@.len() && 0 <= k2 < a[i].points@.len() && #[trigger] pt(
                a[i].points@[k1],
            ) == p && #[trigger] pt(a[i].points@[k2]) == q;
        assert(a[i].points@[k1] == a[i].points@[k1] && a[i].points@[k2] == a[i].points@[k2]);
        assert(connected(fg, p, q));
        assert(fg.contains(pt(a[i].points@[k1])) && fg.contains(pt(a[i].points@[k2])));
        let (j1, l1) = choose|j: int, l: int| 0 <= j < b.len() && 0 <= l < b[j].points@.len() && pt(b[j].points@[l]) == p;
        let (j2, l2) = choose|j: int, l: int| 0 <= j < b.len() && 0 <= l < b[j].points@.len() && pt(b[j].points@[l]) == q;
        assert(b[j1].points@[l1] == b[j1].points@[l1] && b[j2].points@[l2] == b[j2].points@[l2]);
        assert(j1 == j2);
        assert(pt(b[j1].points@[l1]) == p && pt(b[j1].points@[l2]) == q);
    }
    if exists|j: int, k1: int, k2: int|
        0 <= j < b.len() && 0 <= k1 < b[j].points@.len() && 0 <= k2 < b[j].points@.len() && #[trigger] pt(
            b[j].points@[k1],
        ) == p && #[trigger] pt(b[j].points@[k2]) == q {
        let (j, k1, k2) = choose|j: int, k1: int, k2: int|
            0 <= j < b.len() && 0 <= k1 < b[j].points@.len() && 0 <= k2 < b[j].points@.len() && #[trigger] pt(
                b[j].points@[k1],
            ) == p && #[trigger] pt(b[j].points@[k2]) == q;
        assert(b[j].points@[k1] == b[j].points@[k1] && b[j].points@[k2] == b[j].points@[k2]);
        assert(connected(fg, p, q));
        assert(fg.contains(pt(b[j].points@[k1])) && fg.contains(pt(b[j].points@[k2])));
        let (i1, l1) = choose|i: int, l: int| 0 <= i < a.len() && 0 <= l < a[i].points@.len() && pt(a[i].points@[l]) == p;
        let (i2, l2) = choose|i: int, l: int| 0 <= i < a.len() && 0 <= l < a[i].points@.len() && pt(a[i].points@[l]) == q;
        assert(a[i1].points@[l1] == a[i1].points@[l1] && a[i2].points@[l2] == a[i2].points@[l2]);
        assert(i1 == i2);
        assert(pt(a[i1].points@[l1]) == p && pt(a[i1].points@[l2]) == q);
    }
}

/// An image without foreground pixels has no blobs.
pub proof fn lemma_no_foreground_no_blobs(img: RasterBuffer, threshold: u8, target: Option<Rgb8>, blobs: Seq<Blob>)
    requires
        forall|x: int, y: int| !is_fg_at(img, threshold, target, (x, y)),
        is_blob_partition(fg_set(img, threshold, target), blobs),
    ensures
        blobs.len() == 0,
{
    if blobs.len() > 0 {
        assert(blobs[0].size == blobs[0].points@.len());
        let q = blobs[0].points@[0];
        assert(fg_set(img, threshold, target).contains(pt(q)));
        assert(!is_fg_at(img, threshold, target, (q.0 as int, q.1 as int)));
    }
}

/// An image with no pixels has no blobs.
pub proof fn lemma_empty_image_no_blobs(img: RasterBuffer, threshold: u8, target: Option<Rgb8>, blobs: Seq<Blob>)
    requires
        img.width == 0 || img.height == 0,
        is_blob_partition(fg_set(img, threshold, target), blobs),
    ensures
        blobs.len() == 0,
{
    lemma_no_foreground_no_blobs(img, threshold, target, blobs);
}

/// Drawing no blobs leaves the bare background: black, transparent or the
/// source, as chosen.
pub proof fn lemma_no_blobs_bare_background(
    blobs: Seq<Blob>,
    mode: BlobColorMode,
    background: BlobBackground,
    source: RasterBuffer,
    out: RasterBuffer,
)
    requires
        blobs.len() == 0,
        is_rendering(out, blobs, mode, background, source),
    ensures
        forall|x: int, y: int| out.in_bounds(x, y) ==> #[trigger] out.at(x, y) == background_pixel(background, source, x, y),
{
    assert forall|x: int, y: int| out.in_bounds(x, y) implies #[trigger] out.at(x, y) == background_pixel(
        background,
        source,
        x,
        y,
    ) by {
        assert(!in_some_blob(blobs, x, y));
    }
}

/// Two foreground pixels that share an edge, across a tile border or not,
/// lie in one blob.
pub proof fn lemma_adjacent_same_blob(fg: Set<(int, int)>, blobs: Seq<Blob>, b1: int, k1: int, b2: int, k2: int)
    requires
        is_blob_partition(fg, blobs),
        0 <= b1 < blobs.len(),
        0 <= k1 < blobs[b1].points@.len(),
        0 <= b2 < blobs.len(),
        0 <= k2 < blobs[b2].points@.len(),
        adjacent(pt(blobs[b1].points@[k1]), pt(blobs[b2].points@[k2])),
    ensures
        b1 == b2,
{
    let p = pt(blobs[b1].points@[k1]);
    let q = pt(blobs[b2].points@[k2]);
    assert(fg.contains(p) && fg.contains(q));
    lemma_connected_refl(fg, p);
    lemma_connected_step(fg, p, p, q);
    lemma_same_blob_iff_connected(fg, blobs, b1, k1, b2, k2);
}

/// The pixels of blob `b`.
pub open spec fn blob_set(blobs: Seq<Blob>, b: int) -> Set<(int, int)> {
    Set::new(|c: (int, int)| exists|k: int| 0 <= k < blobs[b].points@.len() && pt(blobs[b].points@[k]) == c)
}

/// Each blob is connected on its own: any two of its pixels are joined by a
/// path of edge-sharing pixels of that blob.
pub proof fn lemma_blob_connected(fg: Set<(int, int)>, blobs: Seq<Blob>, b: int, k1: int, k2: int)
    requires
        is_blob_partition(fg, blobs),
        0 <= b < blobs.len(),
        0 <= k1 < blobs[b].points@.len(),
        0 <= k2 < blobs[b].points@.len(),
    ensures
        connected(blob_set(blobs, b), pt(blobs[b].points@[k1]), pt(blobs[b].points@[k2])),
{
    let bs = blob_set(blobs, b);
    let p = pt(blobs[b].points@[k1]);
    let q = pt(blobs[b].points@[k2]);
    assert(bs.contains(p));
    lemma_connected_refl(bs, p);
    lemma_same_blob_iff_connected(fg, blobs, b, k1, b, k2);
    let prop = |c: (int, int)| connected(bs, p, c);
    assert forall|x: (int, int), y: (int, int)|
        fg.contains(x) && fg.contains(y) && adjacent(x, y) && #[trigger] prop(x) implies #[trigger] prop(y) by {
        let (bx, kx) = choose|bb: int, kk: int|
            0 <= bb < blobs.len() && 0 <= kk < blobs[bb].points@.len() && pt(blobs[bb].points@[kk]) == x;
        let (by, ky) = choose|bb: int, kk: int|
            0 <= bb < blobs.len() && 0 <= kk < blobs[bb].points@.len() && pt(blobs[bb].points@[kk]) == y;
        lemma_adjacent_same_blob(fg, blobs, bx, kx, by, ky);
        crate::conn::lemma_connected_ends(bs, p, x);
        let kb = choose|kk: int| 0 <= kk < blobs[b].points@.len() && pt(blobs[b].points@[kk]) == x;
        assert(blobs[b].points@[kb] == blobs[b].points@[kb]);
        assert(blobs[bx].points@[kx] == blobs[bx].points@[kx]);
        if bx != b {
            assert(blobs[b].points@[kb] != blobs[bx].points@[kx]);
        }
        assert(bs.contains(y)) by {
            assert(pt(blobs[b].points@[ky]) == y);
        }
        lemma_connected_step(bs, p, x, y);
    }
    lemma_connected_closed(fg, prop, p, q);
}

/// Under the rainbow colouring the largest blob (the first of the largest,
/// when several tie) is painted (50, 100, 150).
pub proof fn lemma_largest_blob_rainbow(
    blobs: Seq<Blob>,
    background: BlobBackground,
    source: RasterBuffer,
    out: RasterBuffer,
    b: int,
    k: int,
)
    requires
        is_rendering(out, blobs, BlobColorMode::Rainbow, background, source),
        0 <= b < blobs.len(),
        0 <= k < blobs[b].points@.len(),
        forall|c: int| 0 <= c < blobs.len() ==> !ranks_before(blobs, c, b),
    ensures
        out.at(blobs[b].points@[k].0 as int, blobs[b].points@[k].1 as int) == (Rgba8 { r: 50, g: 100, b: 150, a: 255 }),
{
    lemma_largest_rank_zero(blobs, b);
    assert(blobs[b].points@[k] == blobs[b].points@[k]);
}

/// An image with pixels but no foreground renders as the bare background:
/// opaque black, fully transparent, or the source itself.
pub proof fn lemma_all_background_output(
    img: RasterBuffer,
    threshold: u8,
    target: Option<Rgb8>,
    blobs: Seq<Blob>,
    mode: BlobColorMode,
    background: BlobBackground,
    out: RasterBuffer,
)
    requires
        forall|x: int, y: int| !is_fg_at(img, threshold, target, (x, y)),
        is_blob_partition(fg_set(img, threshold, target), blobs),
        is_rendering(out, blobs, mode, background, img),
    ensures
        blobs.len() == 0,
        forall|x: int, y: int| out.in_bounds(x, y) ==> #[trigger] out.at(x, y) == background_pixel(background, img, x, y),
{
    lemma_no_foreground_no_blobs(img, threshold, target, blobs);
    lemma_no_blobs_bare_background(blobs, mode, background, img, out);
}

/// The summed sizes of the blobs.
pub open spec fn total_size(blobs: Seq<Blob>) -> int
    decreases blobs.len(),
{
    if blobs.len() == 0 {
        0
    } else {
        total_size(blobs.drop_last()) + blobs.last().size
    }
}

/// The pixels of the first `m` blobs.
pub open spec fn covered(blobs: Seq<Blob>, m: int) -> Set<(int, int)> {
    Set::new(
        |c: (int, int)|
            exists|b: int, k: int| 0 <= b < m && 0 <= k < blobs[b].points@.len() && pt(blobs[b].points@[k]) == c,
    )
}

proof fn lemma_covered_len(fg: Set<(int, int)>, blobs: Seq<Blob>, m: int)
    requires
        is_blob_partition(fg, blobs),
        0 <= m <= blobs.len(),
    ensures
        covered(blobs, m).finite(),
        covered(blobs, m).len() == total_size(blobs.take(m)),
    decreases m,
{
    broadcast use vstd::seq_lib::seq_to_set_is_finite;
    if m == 0 {
        assert(covered(blobs, m) =~= Set::empty());
        assert(blobs.take(0) =~= Seq::<Blob>::empty());
    } else {
        lemma_covered_len(fg, blobs, m - 1);
        let b = m - 1;
        let sq = blobs[b].points@.map_values(|q: (u32, u32)| pt(q));
        assert forall|i: int, j: int| 0 <= i < sq.len() && 0 <= j < sq.len() && i != j implies sq[i] != sq[j] by {
            assert(blobs[b].points@[i] != blobs[b].points@[j]);
        }
        sq.unique_seq_to_set();
        let prev = covered(blobs, m - 1);
        let cur = sq.to_set();
        assert forall|c: (int, int)| covered(blobs, m).contains(c) == (prev + cur).contains(c) by {
            if covered(blobs, m).contains(c) {
                let (bb, kk) = choose|bb: int, kk: int|
                    0 <= bb < m && 0 <= kk < blobs[bb].points@.len() && pt(blobs[bb].points@[kk]) == c;
                if bb == b {
                    assert(sq[kk] == c);
                }
            }
            if cur.contains(c) {
                let kk = choose|kk: int| 0 <= kk < sq.len() && sq[kk] == c;
                assert(pt(blobs[b].points@[kk]) == c);
            }
        }
        assert(covered(blobs, m) =~= prev + cur);
        assert forall|c: (int, int)| prev.contains(c) implies !cur.contains(c) by {
            let (bb, kk) = choose|bb: int, kk: int|
                0 <= bb < m - 1 && 0 <= kk < blobs[bb].points@.len() && pt(blobs[bb].points@[kk]) == c;
            if cur.contains(c) {
                let k2 = choose|k2: int| 0 <= k2 < sq.len() && sq[k2] == c;
                assert(blobs[bb].points@[kk] != blobs[b].points@[k2]);
            }
        }
        assert(prev.disjoint(cur));
        lemma_set_disjoint_lens(prev, cur);
        assert(blobs.take(m).drop_last() =~= blobs.take(m - 1));
        assert(blobs[b].size == blobs[b].points@.len());
    }
}

/// The blob sizes add up to the number of foreground pixels, and the
/// blobs' pixels are exactly the foreground.
pub proof fn lemma_sizes_sum_to_foreground(fg: Set<(int, int)>, blobs: Seq<Blob>)
    requires
        is_blob_partition(fg, blobs),
    ensures
        fg == covered(blobs, blobs.len() as int),
        fg.finite(),
        fg.len() == total_size(blobs),
{
    lemma_covered_len(fg, blobs, blobs.len() as int);
    assert forall|c: (int, int)| fg.contains(c) == covered(blobs, blobs.len() as int).contains(c) by {
        if covered(blobs, blobs.len() as int).contains(c) {
            let (bb, kk) = choose|bb: int, kk: int|
                0 <= bb < blobs.len() && 0 <= kk < blobs[bb].points@.len() && pt(blobs[bb].points@[kk]) == c;
            assert(fg.contains(pt(blobs[bb].points@[kk])));
        }
    }
    assert(fg =~= covered(blobs, blobs.len() as int));
    assert(blobs.take(blobs.len() as int) =~= blobs);
}

/// Pixels `p` and `q` lie in one blob.
pub open spec fn same_blob(blobs: Seq<Blob>, p: (int, int), q: (int, int)) -> bool {
    exists|b: int, k1: int, k2: int|
        0 <= b < blobs.len() && 0 <= k1 < blobs[b].points@.len() && 0 <= k2 < blobs[b].points@.len() && #[trigger] pt(
            blobs[b].points@[k1],
        ) == p && #[trigger] pt(blobs[b].points@[k2]) == q
}

proof fn lemma_same_blob_connected(fg: Set<(int, int)>, blobs: Seq<Blob>, p: (int, int), q: (int, int))
    requires
        is_blob_partition(fg, blobs),
        fg.contains(p),
        fg.contains(q),
    ensures
        same_blob(blobs, p, q) == connected(fg, p, q),
{
    let (b1, k1) = choose|b: int, k: int| 0 <= b < blobs.len() && 0 <= k < blobs[b].points@.len() && pt(blobs[b].points@[k]) == p;
    let (b2, k2) = choose|b: int, k: int| 0 <= b < blobs.len() && 0 <= k < blobs[b].points@.len() && pt(blobs[b].points@[k]) == q;
    lemma_same_blob_iff_connected(fg, blobs, b1, k1, b2, k2);
    if same_blob(blobs, p, q) {
        let (b, j1, j2) = choose|b: int, k1: int, k2: int|
            0 <= b < blobs.len() && 0 <= k1 < blobs[b].points@.len() && 0 <= k2 < blobs[b].points@.len() && #[trigger] pt(
                blobs[b].points@[k1],
            ) == p && #[trigger] pt(blobs[b].points@[k2]) == q;
        lemma_same_blob_iff_connected(fg, blobs, b, j1, b, j2);
    }
    if connected(fg, p, q) {
        assert(pt(blobs[b1].points@[k1]) == p && pt(blobs[b1].points@[k2]) == q);
    }
}

/// Moving the foreground moves the blobs with it: whatever the offset, and
/// so whichever tile borders the pixels now straddle, two pixels share a
/// blob before the move exactly when they share one after it.
pub proof fn lemma_translation_invariant(
    fg1: Set<(int, int)>,
    fg2: Set<(int, int)>,
    a: Seq<Blob>,
    b: Seq<Blob>,
    dx: int,
    dy: int,
    p: (int, int),
    q: (int, int),
)
    requires
        is_blob_partition(fg1, a),
        is_blob_partition(fg2, b),
        shifted(fg1, fg2, dx, dy),
        fg1.contains(p),
        fg1.contains(q),
    ensures
        same_blob(a, p, q) == same_blob(b, (p.0 + dx, p.1 + dy), (q.0 + dx, q.1 + dy)),
{
    let p2 = (p.0 + dx, p.1 + dy);
    let q2 = (q.0 + dx, q.1 + dy);
    assert(fg2.contains(p2) && fg2.contains(q2));
    lemma_same_blob_connected(fg1, a, p, q);
    lemma_same_blob_connected(fg2, b, p2, q2);
    if connected(fg1, p, q) {
        lemma_connected_shift(fg1, fg2, dx, dy, p, q);
    }
    if connected(fg2, p2, q2) {
        assert(shifted(fg2, fg1, -dx, -dy));
        lemma_connected_shift(fg2, fg1, -dx, -dy, p2, q2);
        assert((p2.0 + -dx, p2.1 + -dy) == p);
        assert((q2.0 + -dx, q2.1 + -dy) == q);
    }
}

proof fn lemma_total_size_at_least_count(blobs: Seq<Blob>)
    requires
        forall|b: int| 0 <= b < blobs.len() ==> #[trigger] blobs[b].size >= 1,
    ensures
        total_size(blobs) >= blobs.len(),
    decreases blobs.len(),
{
    if blobs.len() > 0 {
        let d = blobs.drop_last();
        assert forall|b: int| 0 <= b < d.len() implies #[trigger] d[b].size >= 1 by {
            assert(d[b] == blobs[b]);
        }
        lemma_total_size_at_least_count(d);
        assert(blobs.last() == blobs[blobs.len() - 1]);
    }
}

/// A foreground of exactly two pixels that touch only at a corner gives two
/// blobs, wherever the pair lies: straddling a tile corner or inside a tile.
pub proof fn lemma_diagonal_pair_two_blobs(fg: Set<(int, int)>, blobs: Seq<Blob>, p: (int, int), q: (int, int))
    requires
        is_blob_partition(fg, blobs),
        fg == set![p, q],
        p.0 - q.0 == 1 || q.0 - p.0 == 1,
        p.1 - q.1 == 1 || q.1 - p.1 == 1,
    ensures
        blobs.len() == 2,
{
    lemma_diagonal_pair_apart(p, q);
    assert(fg.contains(p) && fg.contains(q));
    let (b1, k1) = choose|b: int, k: int| 0 <= b < blobs.len() && 0 <= k < blobs[b].points@.len() && pt(blobs[b].points@[k]) == p;
    let (b2, k2) = choose|b: int, k: int| 0 <= b < blobs.len() && 0 <= k < blobs[b].points@.len() && pt(blobs[b].points@[k]) == q;
    lemma_same_blob_iff_connected(fg, blobs, b1, k1, b2, k2);
    assert(b1 != b2);
    lemma_sizes_sum_to_foreground(fg, blobs);
    assert(fg.len() == 2) by {
        assert(p != q);
    }
    assert forall|b: int| 0 <= b < blobs.len() implies #[trigger] blobs[b].size >= 1 by {}
    lemma_total_size_at_least_count(blobs);
}

} // verus!
