//! Small shared types: output formats, output kinds, resampling filters.

use vstd::prelude::*;
use crate::raster::RasterBuffer;

verus! {

/// Image formats the result can be written in.
#[derive(Debug, Clone, Copy, PartialEq, Eq, Structural)]
pub enum EncodableFormats {
    Bmp,
    Farbfeld,
    Hdr,
    Ico,
    Jpeg,
    Exr,
    Png,
    Pnm,
    Qoi,
    Tga,
    Tiff,
    Webp,
}

/// Whether a filter's result is an image or a JSON description.
#[derive(Debug, Clone, Copy, PartialEq, Eq, Structural)]
pub enum OutputKind {
    Raster,
    Json,
}

/// Resampling filters for resizing.
#[derive(Debug, Clone, Copy, PartialEq, Eq, Structural)]
pub enum FilterType {
    /// Nearest neighbour
    Nearest,
    /// Linear filter
    Triangle,
    /// Cubic filter
    CatmullRom,
    /// Gaussian filter
    Gaussian,
    /// Lanczos with window 3
    Lanczos3,
}

/// A dimension that is either given or left to be derived.
#[derive(Debug, Clone, Copy, PartialEq, Eq)]
pub enum AutoValue<T> {
    Auto,
    Concrete(T),
}

/// The filter that hands the image back unchanged.
pub struct NoOpFilter;

impl NoOpFilter {
    pub fn apply(&self, img: RasterBuffer) -> (out: RasterBuffer)
        ensures
            out == img,
    {
        img
    }
}

} // verus!
