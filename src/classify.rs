//! Foreground classification of a single pixel.

use image::Pixel;
use vstd::prelude::*;
use crate::raster::{Rgb8, Rgba8};

verus! {

/// Luminance of an 8-bit colour: the sRGB weights 2126, 7152 and 722 over
/// 10000, rounded down.
pub open spec fn luma_value(r: int, g: int, b: int) -> int {
    (2126 * r + 7152 * g + 722 * b) / 10000
}

/// Squared Euclidean distance between a pixel's colour channels and a target.
pub open spec fn color_distance_sq(p: Rgba8, t: Rgb8) -> int {
    (p.r - t.r) * (p.r - t.r) + (p.g - t.g) * (p.g - t.g) + (p.b - t.b) * (p.b - t.b)
}

/// The foreground rule. With a target colour a pixel is foreground when its
/// squared distance to the target is at most `threshold` squared; without one,
/// when its luminance is at most `threshold`. Alpha plays no part.
pub open spec fn spec_is_foreground(p: Rgba8, threshold: u8, target: Option<Rgb8>) -> bool {
    match target {
        Some(t) => color_distance_sq(p, t) <= threshold as int * threshold as int,
        None => luma_value(p.r as int, p.g as int, p.b as int) <= threshold as int,
    }
}

/// Relies on image's `Pixel::to_luma` for `Rgba<u8>`: it weighs the colour
/// channels by 2126, 7152 and 722, divides by 10000 in `u32` arithmetic and
/// ignores alpha.
#[verifier::external_body]
pub(crate) fn luma_of(p: Rgba8) -> (l: u8)
    ensures
        l as int == luma_value(p.r as int, p.g as int, p.b as int),
{
    image::Rgba([p.r, p.g, p.b, p.a]).to_luma().0[0]
}

/// Classifies one pixel as foreground or background.
pub fn is_foreground(p: Rgba8, threshold: u8, target: Option<Rgb8>) -> (r: bool)
    ensures
        r == spec_is_foreground(p, threshold, target),
{
    match target {
        Some(t) => {
            let dr: i32 = p.r as i32 - t.r as i32;
            let dg: i32 = p.g as i32 - t.g as i32;
            let db: i32 = p.b as i32 - t.b as i32;
            assert(-255 <= dr <= 255 && -255 <= dg <= 255 && -255 <= db <= 255);
            assert(dr * dr <= 65025 && dg * dg <= 65025 && db * db <= 65025 && dr * dr >= 0
                && dg * dg >= 0 && db * db >= 0) by (nonlinear_arith)
                requires
                    -255 <= dr <= 255 && -255 <= dg <= 255 && -255 <= db <= 255,
            ;
            assert(threshold as int * threshold as int <= 65025) by (nonlinear_arith)
                requires
                    threshold <= 255,
            ;
            dr * dr + dg * dg + db * db <= threshold as i32 * threshold as i32
        },
        None => luma_of(p) <= threshold,
    }
}

} // verus!
