//! The blob detection filter: detection followed by rendering.

use vstd::prelude::*;
use crate::blob::{is_blob_partition, pt, sorted_by_size, Blob};
use crate::detect::find_blobs_tiled;
use crate::grid::grid_fits;
use crate::raster::{RasterBuffer, Rgb8};
use crate::render::{blobs_drawable, is_rendering, render, BlobBackground, BlobColorMode};
use crate::tile::{fg_set, is_fg_at};

verus! {

/// Blob detection with its rendering settings.
///
/// With a target colour a pixel is foreground when its squared distance to
/// the target is at most `threshold` squared; without one, when its
/// luminance is at most `threshold`.
pub struct BlobDetectFilter {
    pub threshold: u8,
    pub target_color: Option<Rgb8>,
    pub mode: BlobColorMode,
    pub background: BlobBackground,
}

impl BlobDetectFilter {
    /// Detects the blobs of `img` and draws them. An image with no pixels
    /// gives an empty RGBA image.
    pub fn apply(&self, img: &RasterBuffer) -> (out: RasterBuffer)
        requires
            img.wf(),
            grid_fits(img.width, img.height),
        ensures
            img.width == 0 || img.height == 0 ==> out.width == 0 && out.height == 0 && out.pixels@.len() == 0
                && out.has_alpha,
            img.width > 0 && img.height > 0 ==> exists|blobs: Seq<Blob>|
                is_blob_partition(fg_set(*img, self.threshold, self.target_color), blobs) && sorted_by_size(blobs)
                    && is_rendering(out, blobs, self.mode, self.background, *img),
    {
        if img.width == 0 || img.height == 0 {
            return RasterBuffer { width: 0, height: 0, has_alpha: true, pixels: Vec::new() };
        }
        let blobs = find_blobs_tiled(img, self.threshold, self.target_color);
        proof {
            let fg = fg_set(*img, self.threshold, self.target_color);
            assert forall|b: int, k: int|
                0 <= b < blobs@.len() && 0 <= k < blobs@[b].points@.len() implies 0 <= (#[trigger] blobs@[b].points@[k]).0
                    < img.width && 0 <= blobs@[b].points@[k].1 < img.height by {
                assert(fg.contains(pt(blobs@[b].points@[k])));
                assert(is_fg_at(*img, self.threshold, self.target_color, pt(blobs@[b].points@[k])));
            }
            assert(blobs_drawable(blobs@, img.width as int, img.height as int));
        }
        let out = render(&blobs, self.mode, self.background, img);
        proof {
            assert(is_rendering(out, blobs@, self.mode, self.background, *img));
        }
        out
    }
}

} // verus!
