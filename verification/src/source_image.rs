use vstd::prelude::*;

use crate::pixel::PixelColor;
use crate::pixel::is_background_spec;

verus! {

/// Why a raw buffer was rejected before any scanning began.
#[derive(Clone, Copy, PartialEq, Eq, Structural, Debug)]
pub enum ImageError {
    /// The declared width or height is zero.
    ZeroArea,
    /// `width * height * 4` does not fit in a `usize`.
    TooLarge,
    /// The buffer length differs from `width * height * 4`.
    SizeMismatch,
}

/// A `width` x `height` RGBA image: a row-major byte buffer with four bytes
/// (red, green, blue, alpha) per pixel.
pub struct SourceImage {
    pub width: usize,
    pub height: usize,
    pub data: Vec<u8>,
}

/// Row-major index arithmetic: a pixel inside the image maps below the
/// pixel count.
pub proof fn lemma_rowmajor_in_range(w: int, h: int, x: int, y: int)
    by (nonlinear_arith)
    requires
        0 <= x < w,
        0 <= y < h,
    ensures
        0 <= y * w + x < w * h,
{
}

/// Row-major index arithmetic: distinct in-bounds coordinates map to
/// distinct indices.
pub proof fn lemma_rowmajor_injective(w: int, x1: int, y1: int, x2: int, y2: int)
    by (nonlinear_arith)
    requires
        0 <= x1 < w,
        0 <= x2 < w,
        0 <= y1,
        0 <= y2,
        x1 != x2 || y1 != y2,
    ensures
        y1 * w + x1 != y2 * w + x2,
{
}

/// A product grows with each factor.
pub proof fn lemma_mul_mono(a: int, b: int, c: int, d: int)
    by (nonlinear_arith)
    requires
        0 <= a <= c,
        0 <= b <= d,
    ensures
        a * b <= c * d,
{
}

impl SourceImage {
    /// The buffer holds exactly four bytes for each of the width x height pixels.
    pub open spec fn wf(self) -> bool {
        self.data@.len() == self.width * self.height * 4
    }

    pub open spec fn in_bounds(self, x: int, y: int) -> bool {
        0 <= x < self.width && 0 <= y < self.height
    }

    /// The pixel stored at (x, y).
    pub open spec fn pixel_at(self, x: int, y: int) -> PixelColor {
        let base = 4 * (y * self.width + x);
        PixelColor {
            r: self.data@[base],
            g: self.data@[base + 1],
            b: self.data@[base + 2],
            a: self.data@[base + 3],
        }
    }

    /// Every pixel of the image is background.
    pub open spec fn all_background(self) -> bool {
        forall|x: int, y: int|
            self.in_bounds(x, y) ==> is_background_spec(#[trigger] self.pixel_at(x, y))
    }

    /// Validates a raw buffer against its declared dimensions and wraps it.
    /// Fails fast, before anything is allocated or scanned: a zero-area
    /// image, dimensions whose byte count does not fit in `usize`, and a
    /// buffer of the wrong length are each rejected with a distinct error.
    pub fn from_raw(width: usize, height: usize, data: Vec<u8>) -> (r: Result<SourceImage, ImageError>)
        ensures
            match r {
                Ok(img) => {
                    &&& img.wf()
                    &&& img.width == width
                    &&& img.height == height
                    &&& img.data@ == data@
                    &&& width > 0
                    &&& height > 0
                },
                Err(e) => match e {
                    ImageError::ZeroArea => width == 0 || height == 0,
                    ImageError::TooLarge => width > 0 && height > 0 && width * height * 4 > usize::MAX,
                    ImageError::SizeMismatch => {
                        &&& width > 0
                        &&& height > 0
                        &&& width * height * 4 <= usize::MAX
                        &&& data@.len() != width * height * 4
                    },
                },
            },
    {
        if width == 0 || height == 0 {
            return Err(ImageError::ZeroArea);
        }
        let pixels = match width.checked_mul(height) {
            Some(p) => p,
            None => {
                proof {
                    lemma_mul_mono(usize::MAX as int + 1, 1, width as int * height as int, 4);
                }
                return Err(ImageError::TooLarge);
            },
        };
        let bytes = match pixels.checked_mul(4) {
            Some(b) => b,
            None => {
                return Err(ImageError::TooLarge);
            },
        };
        if data.len() != bytes {
            return Err(ImageError::SizeMismatch);
        }
        Ok(SourceImage { width, height, data })
    }

    /// Reads the pixel at (x, y).
    pub fn get_pixel(&self, x: usize, y: usize) -> (c: PixelColor)
        requires
            self.wf(),
            self.in_bounds(x as int, y as int),
        ensures
            c == self.pixel_at(x as int, y as int),
    {
        let n: usize = self.data.len();
        proof {
            lemma_rowmajor_in_range(self.width as int, self.height as int, x as int, y as int);
        }
        let base: usize = 4 * (y * self.width + x);
        PixelColor {
            r: self.data[base],
            g: self.data[base + 1],
            b: self.data[base + 2],
            a: self.data[base + 3],
        }
    }

    /// Overwrites the pixel at (x, y), leaving every other pixel unchanged.
    pub fn put_pixel(&mut self, x: usize, y: usize, c: PixelColor)
        requires
            old(self).wf(),
            old(self).in_bounds(x as int, y as int),
        ensures
            final(self).wf(),
            final(self).width == old(self).width,
            final(self).height == old(self).height,
            final(self).pixel_at(x as int, y as int) == c,
            forall|a: int, b: int|
                old(self).in_bounds(a, b) && (a != x || b != y)
                    ==> final(self).pixel_at(a, b) == old(self).pixel_at(a, b),
    {
        let n: usize = self.data.len();
        proof {
            lemma_rowmajor_in_range(self.width as int, self.height as int, x as int, y as int);
        }
        let base: usize = 4 * (y * self.width + x);
        self.data.set(base, c.r);
        self.data.set(base + 1, c.g);
        self.data.set(base + 2, c.b);
        self.data.set(base + 3, c.a);
        proof {
            assert forall|a: int, b: int|
                old(self).in_bounds(a, b) && (a != x || b != y)
                    implies self.pixel_at(a, b) == old(self).pixel_at(a, b) by {
                lemma_rowmajor_in_range(self.width as int, self.height as int, a, b);
                lemma_rowmajor_injective(self.width as int, a, b, x as int, y as int);
            }
        }
    }
}

} // verus!
