//! Frames of integer samples.

use vstd::arithmetic::div_mod::lemma_fundamental_div_mod_converse;
use vstd::prelude::*;

verus! {

/// Longest side of a frame, in pixels. Positions inside such a frame fit 32
/// bits when counted in sub-pixel units.
pub const MAX_SIDE: u32 = 0x80_0000;

/// Largest value of a sample.
pub const FULL_SCALE: u32 = 0xffff;

/// Number of samples in a pixel: red, green and blue.
pub const CHANNELS: usize = 3;

/// One decoded frame: `height` rows of `width` pixels, each pixel three
/// 16-bit samples in the working color space, stored row by row.
#[derive(Debug, Clone, PartialEq, Eq)]
pub struct Frame {
    pub width: u32,
    pub height: u32,
    pub samples: Vec<u16>,
}

/// Number of pixels in a grid of the given size.
pub open spec fn pixel_count(width: int, height: int) -> int {
    width * height
}

/// Position of pixel `(x, y)` in row-major order.
pub open spec fn pixel_index(width: int, x: int, y: int) -> int {
    y * width + x
}

/// The pixels of a grid are numbered row by row: pixel `(x, y)` has the
/// number `y * width + x`, which is below the number of pixels, and column and
/// row are remainder and quotient of that number by the width.
pub proof fn lemma_pixel_index(width: int, height: int, x: int, y: int)
    requires
        0 <= x < width,
        0 <= y < height,
    ensures
        0 <= pixel_index(width, x, y) < pixel_count(width, height),
        pixel_index(width, x, y) % width == x,
        pixel_index(width, x, y) / width == y,
{
    assert(y * width + x < width * height) by (nonlinear_arith)
        requires
            0 <= x < width,
            0 <= y < height,
    ;
    assert(0 <= y * width) by (nonlinear_arith)
        requires
            0 <= width,
            0 <= y,
    ;
    lemma_fundamental_div_mod_converse(y * width + x, width, y, x);
}

impl Frame {
    /// The frame holds exactly its pixels, and no side is longer than
    /// [`MAX_SIDE`].
    pub open spec fn wf(&self) -> bool {
        &&& self.width <= MAX_SIDE
        &&& self.height <= MAX_SIDE
        &&& self.samples.len() == pixel_count(self.width as int, self.height as int) * CHANNELS
    }

    /// Sample of channel `c` of the `k`-th pixel in row-major order.
    pub open spec fn sample(&self, k: int, c: int) -> int {
        self.samples[k * CHANNELS + c] as int
    }

    /// Brightness of the `k`-th pixel: the sum of its three samples, which is
    /// three times their average.
    pub open spec fn brightness(&self, k: int) -> int {
        self.sample(k, 0) + self.sample(k, 1) + self.sample(k, 2)
    }

    /// Whether the samples fit the size: what [`Frame::wf`] asks.
    pub fn is_wf(&self) -> (ok: bool)
        ensures
            ok == self.wf(),
    {
        if self.width > MAX_SIDE || self.height > MAX_SIDE {
            return false;
        }
        assert(self.width * self.height <= 0x80_0000 * 0x80_0000) by (nonlinear_arith)
            requires
                self.width <= 0x80_0000,
                self.height <= 0x80_0000,
        ;
        let pixels: u64 = (self.width as u64) * (self.height as u64);
        self.samples.len() as u64 == pixels * 3
    }

    /// A black frame of the given size.
    pub fn new(width: u32, height: u32) -> (frame: Frame)
        requires
            width <= MAX_SIDE,
            height <= MAX_SIDE,
            pixel_count(width as int, height as int) * CHANNELS <= usize::MAX,
        ensures
            frame.wf(),
            frame.width == width,
            frame.height == height,
            forall|i: int| 0 <= i < frame.samples.len() ==> frame.samples[i] == 0,
    {
        let ghost total = pixel_count(width as int, height as int) * CHANNELS;
        let mut samples: Vec<u16> = Vec::new();
        let mut row: u32 = 0;
        while row < height
            invariant
                row <= height,
                total == width * height * 3,
                total <= usize::MAX,
                samples.len() == row * width * 3,
                forall|i: int| 0 <= i < samples.len() ==> samples[i] == 0,
            decreases height - row,
        {
            let mut column: u32 = 0;
            while column < width
                invariant
                    column <= width,
                    row < height,
                    samples.len() == (row * width + column) * 3,
                    forall|i: int| 0 <= i < samples.len() ==> samples[i] == 0,
                decreases width - column,
            {
                samples.push(0);
                samples.push(0);
                samples.push(0);
                column += 1;
            }
            assert((row * width + width) * 3 == (row + 1) * width * 3) by (nonlinear_arith);
            row += 1;
        }
        assert(height * width * 3 == width * height * 3) by (nonlinear_arith);
        Frame { width, height, samples }
    }

    /// Brightness of the pixel in column `x` of row `y`.
    pub fn brightness_at(&self, x: u32, y: u32) -> (value: u32)
        requires
            self.wf(),
            x < self.width,
            y < self.height,
        ensures
            value == self.brightness(pixel_index(self.width as int, x as int, y as int)),
            value <= 3 * 0xffff,
    {
        proof {
            lemma_pixel_index(self.width as int, self.height as int, x as int, y as int);
            assert(self.width * self.height <= 0x80_0000 * 0x80_0000) by (nonlinear_arith)
                requires
                    self.width <= 0x80_0000,
                    self.height <= 0x80_0000,
            ;
        }
        let k: usize = (y as usize) * (self.width as usize) + (x as usize);
        let at: usize = k * 3;
        self.samples[at] as u32 + self.samples[at + 1] as u32 + self.samples[at + 2] as u32
    }
}

} // verus!
