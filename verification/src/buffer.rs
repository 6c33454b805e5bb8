//! RGBA pixel buffers: the sole carrier of visual state. A buffer is a
//! width x height raster stored as a flat row-major byte vector, four bytes
//! (R, G, B, A) per pixel.

use vstd::prelude::*;

verus! {

/// One RGBA pixel, each channel an 8-bit unsigned integer.
#[derive(Clone, Copy, PartialEq, Eq, Structural, Debug)]
pub struct Pixel {
    pub r: u8,
    pub g: u8,
    pub b: u8,
    pub a: u8,
}

/// An RGB color triple, as the denoiser compares colors (alpha excluded).
#[derive(Clone, Copy, PartialEq, Eq, Structural, Debug)]
pub struct Rgb {
    pub r: u8,
    pub g: u8,
    pub b: u8,
}

impl Pixel {
    /// The color part of this pixel.
    pub open spec fn spec_rgb(self) -> Rgb {
        Rgb { r: self.r, g: self.g, b: self.b }
    }

    /// The color part of this pixel.
    pub fn rgb(&self) -> (c: Rgb)
        ensures
            c == self.spec_rgb(),
    {
        Rgb { r: self.r, g: self.g, b: self.b }
    }
}

/// Why a transform refuses its parameters before processing.
#[derive(Clone, Copy, PartialEq, Eq, Structural, Debug)]
pub enum TransformError {
    /// The buffer's data length differs from width * height * 4.
    MalformedBuffer,
    /// The anchor count lies outside 1..=10.
    InvalidAnchorCount,
}

/// A width x height RGBA image. Invariant: `data` holds exactly
/// `width * height` four-byte pixels, row-major.
#[derive(Debug, PartialEq, Eq)]
pub struct PixelBuffer {
    pub width: usize,
    pub height: usize,
    pub data: Vec<u8>,
}

impl PixelBuffer {
    /// Well-formed: exactly four bytes for each of the width * height pixels.
    pub open spec fn wf(&self) -> bool {
        self.data@.len() == self.width * self.height * 4
    }

    /// How many pixels the buffer holds.
    pub open spec fn spec_pixel_count(&self) -> int {
        self.width * self.height
    }

    /// The pixel at flat index `i` (row-major).
    pub open spec fn spec_pixel(&self, i: int) -> Pixel {
        Pixel {
            r: self.data@[4 * i],
            g: self.data@[4 * i + 1],
            b: self.data@[4 * i + 2],
            a: self.data@[4 * i + 3],
        }
    }

    /// The pixel in column `x` of row `y`.
    pub open spec fn spec_pixel_at(&self, x: int, y: int) -> Pixel {
        self.spec_pixel(y * self.width + x)
    }

    /// Checks the length invariant, guarding against overflow of
    /// width * height * 4.
    pub fn is_well_formed(&self) -> (r: bool)
        ensures
            r == self.wf(),
    {
        match self.width.checked_mul(self.height) {
            Some(np) => match np.checked_mul(4) {
                Some(nb) => nb == self.data.len(),
                None => {
                    // width * height * 4 overflows usize, so no vector is that long
                    proof {
                        assert(self.data.len() <= usize::MAX);
                    }
                    false
                },
            },
            None => {
                proof {
                    assert(self.data.len() <= usize::MAX);
                    assert(self.width * self.height * 4 >= self.width * self.height);
                }
                false
            },
        }
    }

    /// How many pixels the buffer holds.
    pub fn pixel_count(&self) -> (n: usize)
        requires
            self.wf(),
        ensures
            n == self.spec_pixel_count(),
    {
        self.data.len() / 4
    }

    /// Reads the pixel at flat index `i`.
    pub fn get_pixel(&self, i: usize) -> (p: Pixel)
        requires
            self.wf(),
            i < self.spec_pixel_count(),
        ensures
            p == self.spec_pixel(i as int),
    {
        proof {
            assert(4 * i + 3 < self.data.len());
        }
        let idx = 4 * i;
        Pixel {
            r: self.data[idx],
            g: self.data[idx + 1],
            b: self.data[idx + 2],
            a: self.data[idx + 3],
        }
    }

    /// Reads the pixel in column `x` of row `y`.
    pub fn get_pixel_at(&self, x: usize, y: usize) -> (p: Pixel)
        requires
            self.wf(),
            x < self.width,
            y < self.height,
        ensures
            p == self.spec_pixel_at(x as int, y as int),
    {
        proof {
            assert(y * self.width + x < self.width * self.height) by (nonlinear_arith)
                requires
                    x < self.width,
                    y < self.height,
            ;
            assert(y * self.width + x <= self.width * self.height * 4);
            assert(self.data.len() <= usize::MAX);
        }
        let i = y * self.width + x;
        self.get_pixel(i)
    }
}

} // verus!
