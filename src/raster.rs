//! Pixel buffers: an RGBA raster and an 8-bit luminance raster.

use vstd::prelude::*;

verus! {

/// An opaque 8-bit colour.
#[derive(Clone, Copy, Debug, PartialEq, Eq, Structural)]
pub struct Rgb8 {
    pub r: u8,
    pub g: u8,
    pub b: u8,
}

/// An 8-bit colour with an alpha channel.
#[derive(Clone, Copy, Debug, PartialEq, Eq, Structural)]
pub struct Rgba8 {
    pub r: u8,
    pub g: u8,
    pub b: u8,
    pub a: u8,
}

/// A row-major pixel buffer. `has_alpha` tells whether the alpha channel is
/// meaningful (an RGBA image) or every pixel is opaque (an RGB image).
pub struct RasterBuffer {
    pub width: u32,
    pub height: u32,
    pub has_alpha: bool,
    pub pixels: Vec<Rgba8>,
}

pub open spec fn pixel_index(width: int, x: int, y: int) -> int {
    y * width + x
}

pub proof fn lemma_pixel_index_bound(width: int, height: int, x: int, y: int)
    requires
        0 <= x < width,
        0 <= y < height,
    ensures
        0 <= pixel_index(width, x, y) < width * height,
{
    assert(0 <= y * width + x < width * height) by (nonlinear_arith)
        requires
            0 <= x < width,
            0 <= y < height,
    ;
}

impl RasterBuffer {
    pub open spec fn wf(&self) -> bool {
        self.pixels@.len() == self.width as int * self.height as int
    }

    pub open spec fn in_bounds(&self, x: int, y: int) -> bool {
        0 <= x < self.width && 0 <= y < self.height
    }

    /// The pixel at column `x`, row `y`.
    pub open spec fn at(&self, x: int, y: int) -> Rgba8 {
        self.pixels@[pixel_index(self.width as int, x, y)]
    }

    /// A buffer of the given size with every pixel set to `fill`.
    pub fn filled(width: u32, height: u32, fill: Rgba8, has_alpha: bool) -> (r: RasterBuffer)
        requires
            width as int * height as int <= usize::MAX,
        ensures
            r.wf(),
            r.width == width,
            r.height == height,
            r.has_alpha == has_alpha,
            forall|x: int, y: int| r.in_bounds(x, y) ==> #[trigger] r.at(x, y) == fill,
    {
        let n: usize = width as usize * height as usize;
        let pixels = vec![fill; n];
        let r = RasterBuffer { width, height, has_alpha, pixels };
        assert forall|x: int, y: int| r.in_bounds(x, y) implies #[trigger] r.at(x, y) == fill by {
            lemma_pixel_index_bound(width as int, height as int, x, y);
        }
        r
    }

    /// A copy that keeps every pixel and marks the alpha channel as present.
    pub fn with_alpha(&self) -> (r: RasterBuffer)
        requires
            self.wf(),
        ensures
            r.wf(),
            r.width == self.width,
            r.height == self.height,
            r.has_alpha,
            r.pixels@ == self.pixels@,
    {
        let mut pixels: Vec<Rgba8> = Vec::new();
        let mut i: usize = 0;
        while i < self.pixels.len()
            invariant
                0 <= i <= self.pixels@.len(),
                pixels@ == self.pixels@.take(i as int),
            decreases self.pixels@.len() - i,
        {
            pixels.push(self.pixels[i]);
            proof {
                assert(self.pixels@.take(i as int + 1) =~= self.pixels@.take(i as int).push(self.pixels@[i as int]));
            }
            i = i + 1;
        }
        proof {
            assert(self.pixels@.take(self.pixels@.len() as int) =~= self.pixels@);
        }
        RasterBuffer { width: self.width, height: self.height, has_alpha: true, pixels }
    }

    /// The pixel at column `x`, row `y`.
    pub fn get(&self, x: u32, y: u32) -> (p: Rgba8)
        requires
            self.wf(),
            self.in_bounds(x as int, y as int),
        ensures
            p == self.at(x as int, y as int),
    {
        let n = self.pixels.len();
        proof {
            lemma_pixel_index_bound(self.width as int, self.height as int, x as int, y as int);
            assert(y * self.width + x < n);
        }
        self.pixels[y as usize * self.width as usize + x as usize]
    }

    /// Overwrites the pixel at column `x`, row `y`.
    pub fn set(&mut self, x: u32, y: u32, p: Rgba8)
        requires
            old(self).wf(),
            old(self).in_bounds(x as int, y as int),
        ensures
            final(self).wf(),
            final(self).width == old(self).width,
            final(self).height == old(self).height,
            final(self).has_alpha == old(self).has_alpha,
            final(self).at(x as int, y as int) == p,
            forall|u: int, v: int|
                final(self).in_bounds(u, v) && (u != x || v != y) ==> #[trigger] final(self).at(u, v)
                    == old(self).at(u, v),
    {
        let n = self.pixels.len();
        proof {
            lemma_pixel_index_bound(self.width as int, self.height as int, x as int, y as int);
            assert(y * self.width + x < n);
        }
        let i = y as usize * self.width as usize + x as usize;
        self.pixels.set(i, p);
        proof {
            assert forall|u: int, v: int|
                final(self).in_bounds(u, v) && (u != x || v != y) implies #[trigger] final(self).at(u, v)
                    == old(self).at(u, v) by {
                lemma_pixel_index_bound(self.width as int, self.height as int, u, v);
                if pixel_index(self.width as int, x as int, y as int) == pixel_index(
                    self.width as int,
                    u,
                    v,
                ) {
                    lemma_pixel_index_injective(self.width as int, x as int, y as int, u, v);
                }
            }
        }
    }
}

/// A row-major buffer of 8-bit luminance values.
pub struct GrayBuffer {
    pub width: u32,
    pub height: u32,
    pub pixels: Vec<u8>,
}

impl GrayBuffer {
    pub open spec fn wf(&self) -> bool {
        self.pixels@.len() == self.width as int * self.height as int
    }

    pub open spec fn in_bounds(&self, x: int, y: int) -> bool {
        0 <= x < self.width && 0 <= y < self.height
    }

    /// The value at column `x`, row `y`.
    pub open spec fn at(&self, x: int, y: int) -> u8 {
        self.pixels@[pixel_index(self.width as int, x, y)]
    }

    /// A buffer of the given size with every value 0.
    pub fn zeroed(width: u32, height: u32) -> (r: GrayBuffer)
        requires
            width as int * height as int <= usize::MAX,
        ensures
            r.wf(),
            r.width == width,
            r.height == height,
            forall|x: int, y: int| r.in_bounds(x, y) ==> #[trigger] r.at(x, y) == 0,
    {
        let n: usize = width as usize * height as usize;
        let pixels = vec![0u8; n];
        let r = GrayBuffer { width, height, pixels };
        assert forall|x: int, y: int| r.in_bounds(x, y) implies #[trigger] r.at(x, y) == 0 by {
            lemma_pixel_index_bound(width as int, height as int, x, y);
        }
        r
    }

    /// The value at column `x`, row `y`.
    pub fn get(&self, x: u32, y: u32) -> (v: u8)
        requires
            self.wf(),
            self.in_bounds(x as int, y as int),
        ensures
            v == self.at(x as int, y as int),
    {
        let n = self.pixels.len();
        proof {
            lemma_pixel_index_bound(self.width as int, self.height as int, x as int, y as int);
            assert(y * self.width + x < n);
        }
        self.pixels[y as usize * self.width as usize + x as usize]
    }

    /// Overwrites the value at column `x`, row `y`.
    pub fn set(&mut self, x: u32, y: u32, v: u8)
        requires
            old(self).wf(),
            old(self).in_bounds(x as int, y as int),
        ensures
            final(self).wf(),
            final(self).width == old(self).width,
            final(self).height == old(self).height,
            final(self).at(x as int, y as int) == v,
            forall|u: int, w: int|
                final(self).in_bounds(u, w) && (u != x || w != y) ==> #[trigger] final(self).at(u, w)
                    == old(self).at(u, w),
    {
        let n = self.pixels.len();
        proof {
            lemma_pixel_index_bound(self.width as int, self.height as int, x as int, y as int);
            assert(y * self.width + x < n);
        }
        let i = y as usize * self.width as usize + x as usize;
        self.pixels.set(i, v);
        proof {
            assert forall|u: int, w: int|
                final(self).in_bounds(u, w) && (u != x || w != y) implies #[trigger] final(self).at(u, w)
                    == old(self).at(u, w) by {
                lemma_pixel_index_bound(self.width as int, self.height as int, u, w);
                if pixel_index(self.width as int, x as int, y as int) == pixel_index(self.width as int, u, w) {
                    lemma_pixel_index_injective(self.width as int, x as int, y as int, u, w);
                }
            }
        }
    }
}

pub proof fn lemma_pixel_index_injective(width: int, x: int, y: int, u: int, v: int)
    requires
        0 <= x < width,
        0 <= u < width,
        0 <= y,
        0 <= v,
        pixel_index(width, x, y) == pixel_index(width, u, v),
    ensures
        x == u,
        y == v,
{
    assert(y == v) by (nonlinear_arith)
        requires
            0 <= x < width,
            0 <= u < width,
            0 <= y,
            0 <= v,
            y * width + x == v * width + u,
    ;
}

} // verus!
