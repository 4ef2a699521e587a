//! Blob colours and drawing blobs over a background.

use vstd::prelude::*;
use vstd::arithmetic::div_mod::lemma_mod_multiples_vanish;
use crate::blob::{pt, sorted_by_size, Blob};
use crate::raster::{RasterBuffer, Rgb8, Rgba8};

verus! {

/// How blobs are coloured.
#[derive(Debug, Clone, Copy, PartialEq, Eq, Structural)]
pub enum BlobColorMode {
    /// A colour derived from the blob's rank.
    Rainbow,
    /// Blue through red to white as the blob's size nears the largest.
    Heatmap,
    /// Green for every blob.
    Solid,
}

/// What lies under the blobs.
#[derive(Debug, Clone, Copy, PartialEq, Eq, Structural)]
pub enum BlobBackground {
    /// Opaque black, no alpha channel.
    Black,
    /// Fully transparent.
    Transparent,
    /// The source image, with an alpha channel.
    Original,
}

/// The rainbow colour of rank `i`.
pub open spec fn rainbow_spec(i: int) -> Rgb8 {
    Rgb8 { r: ((i * 100 + 50) % 255) as u8, g: ((i * 50 + 100) % 255) as u8, b: ((i * 20 + 150) % 255) as u8 }
}

/// The heatmap colour of a blob of `size` pixels when the largest has `max`.
/// With `t = size / max`: below 0.8 blue fades into red, from 0.8 to 1 red
/// fades into white; channels are rounded down.
pub open spec fn heat_spec(size: int, max: int) -> Rgb8 {
    if max == 0 {
        Rgb8 { r: 0, g: 0, b: 255 }
    } else if 5 * size < 4 * max {
        Rgb8 { r: ((1275 * size) / (4 * max)) as u8, g: 0, b: ((255 * (4 * max - 5 * size)) / (4 * max)) as u8 }
    } else {
        let v = (255 * (5 * size - 4 * max)) / max;
        let c = if v > 255 { 255 } else { v };
        Rgb8 { r: 255, g: c as u8, b: c as u8 }
    }
}

/// The colour of the blob at rank `i` (0 is the largest).
pub open spec fn color_spec(mode: BlobColorMode, i: int, size: int, max: int) -> Rgb8 {
    match mode {
        BlobColorMode::Rainbow => rainbow_spec(i),
        BlobColorMode::Heatmap => heat_spec(size, max),
        BlobColorMode::Solid => Rgb8 { r: 0, g: 255, b: 0 },
    }
}

pub open spec fn opaque(c: Rgb8) -> Rgba8 {
    Rgba8 { r: c.r, g: c.g, b: c.b, a: 255 }
}

/// The largest blob size in `blobs`, 0 for none.
pub open spec fn max_blob_size(blobs: Seq<Blob>) -> int
    decreases blobs.len(),
{
    if blobs.len() == 0 {
        0
    } else {
        let m = max_blob_size(blobs.drop_last());
        if blobs.last().size > m {
            blobs.last().size as int
        } else {
            m
        }
    }
}

/// The background pixel at `(x, y)`.
pub open spec fn background_pixel(background: BlobBackground, source: RasterBuffer, x: int, y: int) -> Rgba8 {
    match background {
        BlobBackground::Black => Rgba8 { r: 0, g: 0, b: 0, a: 255 },
        BlobBackground::Transparent => Rgba8 { r: 0, g: 0, b: 0, a: 0 },
        BlobBackground::Original => source.at(x, y),
    }
}

/// Pixel `(x, y)` belongs to some blob.
pub open spec fn in_some_blob(blobs: Seq<Blob>, x: int, y: int) -> bool {
    exists|b: int, k: int| 0 <= b < blobs.len() && 0 <= k < blobs[b].points@.len() && #[trigger] pt(blobs[b].points@[k]) == (x, y)
}

/// Every blob pixel lies inside a `width` by `height` image and no pixel
/// appears twice.
pub open spec fn blobs_drawable(blobs: Seq<Blob>, width: int, height: int) -> bool {
    &&& forall|b: int, k: int|
        0 <= b < blobs.len() && 0 <= k < blobs[b].points@.len() ==> 0 <= (#[trigger] blobs[b].points@[k]).0 < width
            && 0 <= blobs[b].points@[k].1 < height
    &&& forall|b1: int, k1: int, b2: int, k2: int|
        0 <= b1 < blobs.len() && 0 <= k1 < blobs[b1].points@.len() && 0 <= b2 < blobs.len() && 0 <= k2
            < blobs[b2].points@.len() && (b1 != b2 || k1 != k2) ==> #[trigger] blobs[b1].points@[k1]
            != #[trigger] blobs[b2].points@[k2]
}

/// Blob `c` comes before blob `b` in the size ranking: it is larger, or
/// equally large and earlier in the list.
pub open spec fn ranks_before(blobs: Seq<Blob>, c: int, b: int) -> bool {
    blobs[c].size > blobs[b].size || (blobs[c].size == blobs[b].size && c < b)
}

/// How many of the first `k` blobs come before blob `b`.
pub open spec fn rank_count(blobs: Seq<Blob>, b: int, k: int) -> int
    decreases k,
{
    if k <= 0 {
        0
    } else {
        rank_count(blobs, b, k - 1) + if ranks_before(blobs, k - 1, b) {
            1int
        } else {
            0int
        }
    }
}

/// The rank of blob `b` by size: 0 for the largest, equal sizes in list
/// order.
pub open spec fn size_rank(blobs: Seq<Blob>, b: int) -> int {
    rank_count(blobs, b, blobs.len() as int)
}

proof fn lemma_rank_count_bound(blobs: Seq<Blob>, b: int, k: int)
    requires
        0 <= k,
    ensures
        0 <= rank_count(blobs, b, k) <= k,
    decreases k,
{
    if k > 0 {
        lemma_rank_count_bound(blobs, b, k - 1);
    }
}

/// In a list sorted largest first, a blob's rank is its position.
pub proof fn lemma_sorted_rank(blobs: Seq<Blob>, b: int)
    requires
        sorted_by_size(blobs),
        0 <= b < blobs.len(),
    ensures
        size_rank(blobs, b) == b,
{
    lemma_sorted_rank_count(blobs, b, blobs.len() as int);
}

proof fn lemma_sorted_rank_count(blobs: Seq<Blob>, b: int, k: int)
    requires
        sorted_by_size(blobs),
        0 <= b < blobs.len(),
        0 <= k <= blobs.len(),
    ensures
        rank_count(blobs, b, k) == if k < b { k } else { b },
    decreases k,
{
    if k > 0 {
        lemma_sorted_rank_count(blobs, b, k - 1);
        let c = k - 1;
        if c < b {
            assert(blobs[c].size >= blobs[b].size);
        } else if c > b {
            assert(blobs[b].size >= blobs[c].size);
        }
    }
}

/// A blob at least as large as every other, and first among the equally
/// large, has rank 0.
pub proof fn lemma_largest_rank_zero(blobs: Seq<Blob>, b: int)
    requires
        0 <= b < blobs.len(),
        forall|c: int| 0 <= c < blobs.len() ==> !ranks_before(blobs, c, b),
    ensures
        size_rank(blobs, b) == 0,
{
    lemma_largest_rank_count(blobs, b, blobs.len() as int);
}

proof fn lemma_largest_rank_count(blobs: Seq<Blob>, b: int, k: int)
    requires
        0 <= b < blobs.len(),
        0 <= k <= blobs.len(),
        forall|c: int| 0 <= c < blobs.len() ==> !ranks_before(blobs, c, b),
    ensures
        rank_count(blobs, b, k) == 0,
    decreases k,
{
    if k > 0 {
        lemma_largest_rank_count(blobs, b, k - 1);
        assert(!ranks_before(blobs, k - 1, b));
    }
}

/// The size rank of blob `b`, by counting the blobs ranked before it.
pub fn size_rank_of(blobs: &Vec<Blob>, b: usize) -> (r: usize)
    requires
        b < blobs@.len(),
    ensures
        r == size_rank(blobs@, b as int),
{
    let mut count: usize = 0;
    let mut c: usize = 0;
    while c < blobs.len()
        invariant
            b < blobs@.len(),
            0 <= c <= blobs@.len(),
            count == rank_count(blobs@, b as int, c as int),
        decreases blobs@.len() - c,
    {
        proof {
            lemma_rank_count_bound(blobs@, b as int, c as int);
        }
        if blobs[c].size > blobs[b].size || (blobs[c].size == blobs[b].size && c < b) {
            count = count + 1;
        }
        c = c + 1;
    }
    count
}

/// Whether the blobs are sorted largest first.
pub fn is_sorted_by_size(blobs: &Vec<Blob>) -> (r: bool)
    ensures
        r == sorted_by_size(blobs@),
{
    let mut i: usize = 1;
    while i < blobs.len()
        invariant
            1 <= i,
            i <= blobs@.len() || blobs@.len() == 0,
            forall|a: int, c: int| 0 <= a < c < i && c < blobs@.len() ==> #[trigger] blobs@[a].size >= #[trigger] blobs@[c].size,
        decreases blobs@.len() - i,
    {
        if blobs[i - 1].size < blobs[i].size {
            assert(!sorted_by_size(blobs@)) by {
                assert(blobs@[i - 1].size < blobs@[i as int].size);
            }
            return false;
        }
        i = i + 1;
    }
    true
}

/// Rainbow colour of rank `i`.
pub fn rainbow_color(i: usize) -> (c: Rgb8)
    ensures
        c == rainbow_spec(i as int),
{
    let m: u64 = (i % 255) as u64;
    proof {
        let q = i as int / 255;
        assert(i as int == 255 * q + m);
        lemma_mod_multiples_vanish(100 * q, m * 100 + 50, 255);
        lemma_mod_multiples_vanish(50 * q, m * 50 + 100, 255);
        lemma_mod_multiples_vanish(20 * q, m * 20 + 150, 255);
        assert(i as int * 100 + 50 == 255 * (100 * q) + (m * 100 + 50)) by (nonlinear_arith)
            requires
                i as int == 255 * q + m,
        ;
        assert(i as int * 50 + 100 == 255 * (50 * q) + (m * 50 + 100)) by (nonlinear_arith)
            requires
                i as int == 255 * q + m,
        ;
        assert(i as int * 20 + 150 == 255 * (20 * q) + (m * 20 + 150)) by (nonlinear_arith)
            requires
                i as int == 255 * q + m,
        ;
    }
    Rgb8 {
        r: ((m * 100 + 50) % 255) as u8,
        g: ((m * 50 + 100) % 255) as u8,
        b: ((m * 20 + 150) % 255) as u8,
    }
}

/// Heatmap colour of a blob of `size` pixels when the largest has
/// `max_size`.
pub fn heatmap_color(size: usize, max_size: usize) -> (c: Rgb8)
    ensures
        c == heat_spec(size as int, max_size as int),
{
    if max_size == 0 {
        return Rgb8 { r: 0, g: 0, b: 255 };
    }
    let s: u128 = size as u128;
    let m: u128 = max_size as u128;
    if 5 * s < 4 * m {
        let r = (1275 * s) / (4 * m);
        let b = (255 * (4 * m - 5 * s)) / (4 * m);
        proof {
            assert(r < 255) by (nonlinear_arith)
                requires
                    5 * s < 4 * m,
                    r == (1275 * s) / (4 * m),
                    m > 0,
            ;
            assert(b <= 255) by (nonlinear_arith)
                requires
                    5 * s < 4 * m,
                    b == (255 * (4 * m - 5 * s)) / (4 * m),
                    m > 0,
            ;
        }
        Rgb8 { r: r as u8, g: 0, b: b as u8 }
    } else {
        let v = (255 * (5 * s - 4 * m)) / m;
        let c: u128 = if v > 255 { 255 } else { v };
        Rgb8 { r: 255, g: c as u8, b: c as u8 }
    }
}

/// The colour of the blob at rank `i`.
pub fn blob_color(mode: BlobColorMode, i: usize, size: usize, max_size: usize) -> (c: Rgb8)
    ensures
        c == color_spec(mode, i as int, size as int, max_size as int),
{
    match mode {
        BlobColorMode::Rainbow => rainbow_color(i),
        BlobColorMode::Heatmap => heatmap_color(size, max_size),
        BlobColorMode::Solid => Rgb8 { r: 0, g: 255, b: 0 },
    }
}

/// The largest blob size, 0 for no blobs.
pub fn largest_size(blobs: &Vec<Blob>) -> (m: usize)
    ensures
        m == max_blob_size(blobs@),
{
    let mut m: usize = 0;
    let mut i: usize = 0;
    while i < blobs.len()
        invariant
            0 <= i <= blobs@.len(),
            m == max_blob_size(blobs@.take(i as int)),
        decreases blobs@.len() - i,
    {
        proof {
            assert(blobs@.take(i as int + 1).drop_last() =~= blobs@.take(i as int));
        }
        if blobs[i].size > m {
            m = blobs[i].size;
        }
        i = i + 1;
    }
    proof {
        assert(blobs@.take(blobs@.len() as int) =~= blobs@);
    }
    m
}

/// Paints every pixel of one blob with `px`.
fn paint_blob(canvas: &mut RasterBuffer, blob: &Blob, px: Rgba8)
    requires
        old(canvas).wf(),
        forall|k: int|
            0 <= k < blob.points@.len() ==> 0 <= (#[trigger] blob.points@[k]).0 < old(canvas).width && 0
                <= blob.points@[k].1 < old(canvas).height,
    ensures
        final(canvas).wf(),
        final(canvas).width == old(canvas).width,
        final(canvas).height == old(canvas).height,
        final(canvas).has_alpha == old(canvas).has_alpha,
        forall|k: int| 0 <= k < blob.points@.len() ==> final(canvas).at((#[trigger] blob.points@[k]).0 as int, blob.points@[k].1 as int) == px,
        forall|x: int, y: int|
            final(canvas).in_bounds(x, y) && #[trigger] final(canvas).at(x, y) != old(canvas).at(x, y) ==> exists|k: int|
                0 <= k < blob.points@.len() && pt(blob.points@[k]) == (x, y),
{
    let ghost orig = *canvas;
    let mut k: usize = 0;
    while k < blob.points.len()
        invariant
            0 <= k <= blob.points@.len(),
            canvas.wf(),
            canvas.width == orig.width,
            canvas.height == orig.height,
            canvas.has_alpha == orig.has_alpha,
            forall|j: int|
                0 <= j < blob.points@.len() ==> 0 <= (#[trigger] blob.points@[j]).0 < orig.width && 0
                    <= blob.points@[j].1 < orig.height,
            forall|j: int| 0 <= j < k ==> canvas.at((#[trigger] blob.points@[j]).0 as int, blob.points@[j].1 as int) == px,
            forall|x: int, y: int|
                canvas.in_bounds(x, y) && #[trigger] canvas.at(x, y) != orig.at(x, y) ==> exists|j: int|
                    0 <= j < blob.points@.len() && pt(blob.points@[j]) == (x, y),
        decreases blob.points@.len() - k,
    {
        let (x, y) = blob.points[k];
        let ghost before = *canvas;
        canvas.set(x, y, px);
        proof {
            assert(pt(blob.points@[k as int]) == (x as int, y as int));
            assert forall|j: int| 0 <= j < k + 1 implies canvas.at((#[trigger] blob.points@[j]).0 as int, blob.points@[j].1 as int) == px by {
                if j < k && (blob.points@[j].0 != x || blob.points@[j].1 != y) {
                    assert(canvas.at(blob.points@[j].0 as int, blob.points@[j].1 as int) == before.at(
                        blob.points@[j].0 as int,
                        blob.points@[j].1 as int,
                    ));
                }
            }
            assert forall|u: int, v: int|
                canvas.in_bounds(u, v) && #[trigger] canvas.at(u, v) != orig.at(u, v) implies exists|j: int|
                    0 <= j < blob.points@.len() && pt(blob.points@[j]) == (u, v) by {
                if u != x || v != y {
                    assert(canvas.at(u, v) == before.at(u, v));
                }
            }
        }
        k = k + 1;
    }
}

/// Paints each blob in the colour of its size rank; pixels outside every
/// blob are left as they were.
pub fn draw_blobs(canvas: &mut RasterBuffer, blobs: &Vec<Blob>, mode: BlobColorMode, max_blob_size: usize)
    requires
        old(canvas).wf(),
        blobs_drawable(blobs@, old(canvas).width as int, old(canvas).height as int),
    ensures
        final(canvas).wf(),
        final(canvas).width == old(canvas).width,
        final(canvas).height == old(canvas).height,
        final(canvas).has_alpha == old(canvas).has_alpha,
        forall|b: int, k: int|
            0 <= b < blobs@.len() && 0 <= k < blobs@[b].points@.len() ==> final(canvas).at(
                (#[trigger] blobs@[b].points@[k]).0 as int,
                blobs@[b].points@[k].1 as int,
            ) == opaque(color_spec(mode, size_rank(blobs@, b), blobs@[b].size as int, max_blob_size as int)),
        forall|x: int, y: int|
            final(canvas).in_bounds(x, y) && !in_some_blob(blobs@, x, y) ==> #[trigger] final(canvas).at(x, y)
                == old(canvas).at(x, y),
{
    let ghost orig = *canvas;
    let sorted = is_sorted_by_size(blobs);
    let mut i: usize = 0;
    while i < blobs.len()
        invariant
            0 <= i <= blobs@.len(),
            sorted == sorted_by_size(blobs@),
            canvas.wf(),
            canvas.width == orig.width,
            canvas.height == orig.height,
            canvas.has_alpha == orig.has_alpha,
            blobs_drawable(blobs@, orig.width as int, orig.height as int),
            forall|b: int, k: int|
                0 <= b < i && 0 <= k < blobs@[b].points@.len() ==> canvas.at(
                    (#[trigger] blobs@[b].points@[k]).0 as int,
                    blobs@[b].points@[k].1 as int,
                ) == opaque(color_spec(mode, size_rank(blobs@, b), blobs@[b].size as int, max_blob_size as int)),
            forall|x: int, y: int|
                canvas.in_bounds(x, y) && #[trigger] canvas.at(x, y) != orig.at(x, y) ==> in_some_blob(blobs@, x, y),
        decreases blobs@.len() - i,
    {
        let rank = if sorted { i } else { size_rank_of(blobs, i) };
        proof {
            if sorted {
                lemma_sorted_rank(blobs@, i as int);
            }
        }
        let c = blob_color(mode, rank, blobs[i].size, max_blob_size);
        let px = Rgba8 { r: c.r, g: c.g, b: c.b, a: 255 };
        let ghost before = *canvas;
        let blob = &blobs[i];
        proof {
            assert forall|k: int|
                0 <= k < blob.points@.len() implies 0 <= (#[trigger] blob.points@[k]).0 < before.width && 0
                    <= blob.points@[k].1 < before.height by {
                assert(blobs@[i as int].points@[k] == blob.points@[k]);
            }
        }
        paint_blob(canvas, blob, px);
        proof {
            assert forall|b: int, k: int|
                0 <= b < i + 1 && 0 <= k < blobs@[b].points@.len() implies canvas.at(
                    (#[trigger] blobs@[b].points@[k]).0 as int,
                    blobs@[b].points@[k].1 as int,
                ) == opaque(color_spec(mode, size_rank(blobs@, b), blobs@[b].size as int, max_blob_size as int)) by {
                if b < i {
                    let q = blobs@[b].points@[k];
                    if canvas.at(q.0 as int, q.1 as int) != before.at(q.0 as int, q.1 as int) {
                        let j = choose|j: int| 0 <= j < blob.points@.len() && pt(blob.points@[j]) == (q.0 as int, q.1 as int);
                        assert(blobs@[i as int].points@[j] == blob.points@[j]);
                        assert(blobs@[i as int].points@[j] != blobs@[b].points@[k]);
                    }
                } else {
                    assert(blobs@[b].points@[k] == blob.points@[k]);
                }
            }
            assert forall|x: int, y: int|
                canvas.in_bounds(x, y) && #[trigger] canvas.at(x, y) != orig.at(x, y) implies in_some_blob(blobs@, x, y) by {
                if canvas.at(x, y) != before.at(x, y) {
                    let j = choose|j: int| 0 <= j < blob.points@.len() && pt(blob.points@[j]) == (x, y);
                    assert(blobs@[i as int].points@[j] == blob.points@[j]);
                    assert(pt(blobs@[i as int].points@[j]) == (x, y));
                }
            }
        }
        i = i + 1;
    }
}

/// `out` shows `blobs` over the chosen background: each blob pixel in the
/// opaque colour of its rank, every other pixel as the background has it.
pub open spec fn is_rendering(
    out: RasterBuffer,
    blobs: Seq<Blob>,
    mode: BlobColorMode,
    background: BlobBackground,
    source: RasterBuffer,
) -> bool {
    &&& out.wf()
    &&& out.width == source.width
    &&& out.height == source.height
    &&& out.has_alpha == (background != BlobBackground::Black)
    &&& forall|b: int, k: int|
        0 <= b < blobs.len() && 0 <= k < blobs[b].points@.len() ==> out.at(
            (#[trigger] blobs[b].points@[k]).0 as int,
            blobs[b].points@[k].1 as int,
        ) == opaque(color_spec(mode, size_rank(blobs, b), blobs[b].size as int, max_blob_size(blobs)))
    &&& forall|x: int, y: int|
        out.in_bounds(x, y) && !in_some_blob(blobs, x, y) ==> #[trigger] out.at(x, y) == background_pixel(
            background,
            source,
            x,
            y,
        )
}

/// Draws `blobs`, ranked by size (largest first, equal sizes in list
/// order), over a canvas the size of `source`.
pub fn render(blobs: &Vec<Blob>, mode: BlobColorMode, background: BlobBackground, source: &RasterBuffer) -> (out:
    RasterBuffer)
    requires
        source.wf(),
        blobs_drawable(blobs@, source.width as int, source.height as int),
    ensures
        is_rendering(out, blobs@, mode, background, *source),
{
    let _n = source.pixels.len();
    let mut canvas = match background {
        BlobBackground::Black => RasterBuffer::filled(
            source.width,
            source.height,
            Rgba8 { r: 0, g: 0, b: 0, a: 255 },
            false,
        ),
        BlobBackground::Transparent => RasterBuffer::filled(
            source.width,
            source.height,
            Rgba8 { r: 0, g: 0, b: 0, a: 0 },
            true,
        ),
        BlobBackground::Original => source.with_alpha(),
    };
    let ghost start = canvas;
    proof {
        assert forall|x: int, y: int| canvas.in_bounds(x, y) implies #[trigger] canvas.at(x, y) == background_pixel(
            background,
            *source,
            x,
            y,
        ) by {}
    }
    let max_blob_size = largest_size(blobs);
    draw_blobs(&mut canvas, blobs, mode, max_blob_size);
    proof {
        assert forall|x: int, y: int|
            canvas.in_bounds(x, y) && !in_some_blob(blobs@, x, y) implies #[trigger] canvas.at(x, y) == background_pixel(
                background,
                *source,
                x,
                y,
            ) by {
            assert(canvas.at(x, y) == start.at(x, y));
        }
    }
    canvas
}

} // verus!
