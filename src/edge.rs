//! Sobel edge detection on luminance.

use vstd::prelude::*;
use crate::classify::{luma_of, luma_value};
use crate::raster::{GrayBuffer, RasterBuffer};

verus! {

/// The luminance of pixel `(x, y)`.
pub open spec fn luma_at(img: RasterBuffer, x: int, y: int) -> int {
    let p = img.at(x, y);
    luma_value(p.r as int, p.g as int, p.b as int)
}

/// Horizontal Sobel response at `(x, y)`: kernel rows -1 0 1, -2 0 2, -1 0 1.
pub open spec fn sobel_x(l: spec_fn(int, int) -> int, x: int, y: int) -> int {
    -l(x - 1, y - 1) + l(x + 1, y - 1) - 2 * l(x - 1, y) + 2 * l(x + 1, y) - l(x - 1, y + 1) + l(x + 1, y + 1)
}

/// Vertical Sobel response at `(x, y)`: kernel rows -1 -2 -1, 0 0 0, 1 2 1.
pub open spec fn sobel_y(l: spec_fn(int, int) -> int, x: int, y: int) -> int {
    -l(x - 1, y - 1) - 2 * l(x, y - 1) - l(x + 1, y - 1) + l(x - 1, y + 1) + 2 * l(x, y + 1) + l(x + 1, y + 1)
}

/// `r` is the integer square root of `n`.
pub open spec fn is_isqrt(n: int, r: int) -> bool {
    0 <= r && r * r <= n < (r + 1) * (r + 1)
}

/// The edge strength at `(x, y)`: the gradient magnitude rounded down and
/// capped at 255 inside the image's one-pixel border, 0 on the border.
pub open spec fn edge_value(img: RasterBuffer, x: int, y: int, v: int) -> bool {
    if 1 <= x < img.width - 1 && 1 <= y < img.height - 1 {
        let l = |u: int, w: int| luma_at(img, u, w);
        let gx = sobel_x(l, x, y);
        let gy = sobel_y(l, x, y);
        exists|r: int| #[trigger] is_isqrt(gx * gx + gy * gy, r) && v == if r > 255 { 255 } else { r }
    } else {
        v == 0
    }
}

/// The integer square root of `n`, by bisection.
pub fn isqrt(n: u32) -> (r: u32)
    requires
        n < 4194304,
    ensures
        is_isqrt(n as int, r as int),
{
    let mut lo: u64 = 0;
    let mut hi: u64 = 2048;
    while hi - lo > 1
        invariant
            lo < hi <= 2048,
            lo * lo <= n,
            n < hi * hi,
        decreases hi - lo,
    {
        let mid = lo + (hi - lo) / 2;
        assert(mid * mid <= 2048 * 2048) by (nonlinear_arith)
            requires
                mid <= 2048,
        ;
        if mid * mid <= n as u64 {
            lo = mid;
        } else {
            hi = mid;
        }
    }
    assert(hi == lo + 1);
    lo as u32
}

/// The luminance of every pixel.
pub fn luma_image(img: &RasterBuffer) -> (g: GrayBuffer)
    requires
        img.wf(),
    ensures
        g.wf(),
        g.width == img.width,
        g.height == img.height,
        forall|x: int, y: int| g.in_bounds(x, y) ==> #[trigger] g.at(x, y) == luma_at(*img, x, y),
{
    let _n = img.pixels.len();
    let mut g = GrayBuffer::zeroed(img.width, img.height);
    let mut y: u32 = 0;
    while y < img.height
        invariant
            img.wf(),
            g.wf(),
            g.width == img.width,
            g.height == img.height,
            0 <= y <= img.height,
            forall|u: int, v: int| g.in_bounds(u, v) && v < y ==> #[trigger] g.at(u, v) == luma_at(*img, u, v),
        decreases img.height - y,
    {
        let mut x: u32 = 0;
        while x < img.width
            invariant
                img.wf(),
                g.wf(),
                g.width == img.width,
                g.height == img.height,
                0 <= y < img.height,
                0 <= x <= img.width,
                forall|u: int, v: int|
                    g.in_bounds(u, v) && (v < y || (v == y && u < x)) ==> #[trigger] g.at(u, v) == luma_at(*img, u, v),
            decreases img.width - x,
        {
            let l = luma_of(img.get(x, y));
            g.set(x, y, l);
            x = x + 1;
        }
        y = y + 1;
    }
    g
}

/// Sobel edge detection on the luminance of an image.
pub struct EdgeFilter;

impl EdgeFilter {
    /// The edge strength of every pixel; the one-pixel border stays 0.
    pub fn apply(&self, img: &RasterBuffer) -> (out: GrayBuffer)
        requires
            img.wf(),
        ensures
            out.wf(),
            out.width == img.width,
            out.height == img.height,
            forall|x: int, y: int| out.in_bounds(x, y) ==> edge_value(*img, x, y, #[trigger] out.at(x, y) as int),
    {
        let _n = img.pixels.len();
        let gray = luma_image(img);
        let mut out = GrayBuffer::zeroed(img.width, img.height);
        let width = img.width;
        let height = img.height;
        if width < 3 || height < 3 {
            return out;
        }
        let mut y: u32 = 1;
        while y < height - 1
            invariant
                gray.wf(),
                gray.width == width,
                gray.height == height,
                forall|u: int, v: int| gray.in_bounds(u, v) ==> #[trigger] gray.at(u, v) == luma_at(*img, u, v),
                out.wf(),
                out.width == width,
                out.height == height,
                width == img.width,
                height == img.height,
                width >= 3,
                height >= 3,
                1 <= y <= height - 1,
                forall|u: int, v: int|
                    out.in_bounds(u, v) ==> edge_value(*img, u, v, #[trigger] out.at(u, v) as int) || (v >= y
                        && 1 <= u < width - 1 && 1 <= v < height - 1 && out.at(u, v) == 0),
            decreases height - y,
        {
            let mut x: u32 = 1;
            while x < width - 1
                invariant
                    gray.wf(),
                    gray.width == width,
                    gray.height == height,
                    forall|u: int, v: int| gray.in_bounds(u, v) ==> #[trigger] gray.at(u, v) == luma_at(*img, u, v),
                    out.wf(),
                    out.width == width,
                    out.height == height,
                    width == img.width,
                    height == img.height,
                    width >= 3,
                    height >= 3,
                    1 <= y < height - 1,
                    1 <= x <= width - 1,
                    forall|u: int, v: int|
                        out.in_bounds(u, v) ==> edge_value(*img, u, v, #[trigger] out.at(u, v) as int) || ((v > y
                            || (v == y && u >= x)) && 1 <= u < width - 1 && 1 <= v < height - 1 && out.at(u, v)
                            == 0),
                decreases width - x,
            {
                let a = gray.get(x - 1, y - 1) as i32;
                let b = gray.get(x, y - 1) as i32;
                let c = gray.get(x + 1, y - 1) as i32;
                let d = gray.get(x - 1, y) as i32;
                let f = gray.get(x + 1, y) as i32;
                let g = gray.get(x - 1, y + 1) as i32;
                let h = gray.get(x, y + 1) as i32;
                let k = gray.get(x + 1, y + 1) as i32;
                let gx: i32 = -a + c - 2 * d + 2 * f - g + k;
                let gy: i32 = -a - 2 * b - c + g + 2 * h + k;
                proof {
                    assert(-1020 <= gx <= 1020 && -1020 <= gy <= 1020);
                    assert(gx * gx <= 1040400 && gy * gy <= 1040400 && gx * gx >= 0 && gy * gy >= 0)
                        by (nonlinear_arith)
                        requires
                            -1020 <= gx <= 1020,
                            -1020 <= gy <= 1020,
                    ;
                    let (xi, yi) = (x as int, y as int);
                    let l = |u: int, w: int| luma_at(*img, u, w);
                    assert(l(xi - 1, yi - 1) == a && l(xi, yi - 1) == b && l(xi + 1, yi - 1) == c);
                    assert(l(xi - 1, yi) == d && l(xi + 1, yi) == f);
                    assert(l(xi - 1, yi + 1) == g && l(xi, yi + 1) == h && l(xi + 1, yi + 1) == k);
                    assert(gx == sobel_x(l, x as int, y as int));
                    assert(gy == sobel_y(l, x as int, y as int));
                }
                let n: u32 = (gx * gx + gy * gy) as u32;
                let r = isqrt(n);
                let v: u8 = if r > 255 { 255 } else { r as u8 };
                let ghost before = out;
                out.set(x, y, v);
                proof {
                    assert(edge_value(*img, x as int, y as int, v as int)) by {
                        assert(is_isqrt(gx * gx + gy * gy, r as int));
                    }
                    assert forall|u: int, w: int|
                        out.in_bounds(u, w) implies edge_value(*img, u, w, #[trigger] out.at(u, w) as int) || ((w > y
                            || (w == y && u >= x + 1)) && 1 <= u < width - 1 && 1 <= w < height - 1 && out.at(u, w)
                            == 0) by {
                        if u != x || w != y {
                            assert(out.at(u, w) == before.at(u, w));
                        }
                    }
                }
                x = x + 1;
            }
            y = y + 1;
        }
        out
    }
}

} // verus!
