//! Shared data model: fixation points, intensity rasters and color images.

use vstd::prelude::*;

verus! {

/// Fixed-point denominator for densities, smoothing weights and
/// normalized intensities: a stored value `v` stands for `v / SCALE`.
pub const SCALE: u64 = 65536;

/// One recorded gaze sample, in output-image pixel coordinates.
#[derive(Clone, Copy, Debug, PartialEq, Eq, Structural)]
pub struct FixationPoint {
    pub x: i32,
    pub y: i32,
}

/// A dense width x height grid of fixed-point intensities, row major:
/// cell (x, y) lives at index `y * width + x`.
pub struct Raster {
    pub width: usize,
    pub height: usize,
    pub cells: Vec<u64>,
}

impl Raster {
    /// The grid holds exactly one cell per coordinate.
    pub open spec fn wf(self) -> bool {
        self.cells@.len() == self.width * self.height
    }
}

/// A dense width x height grid of 3-channel 8-bit pixels, row major,
/// stored in B, G, R channel order: pixel (x, y) occupies bytes
/// `3 * (y * width + x) ..` as blue, green, red.
pub struct ColorImage {
    pub width: usize,
    pub height: usize,
    pub bytes: Vec<u8>,
}

impl ColorImage {
    /// Three bytes per pixel, one pixel per coordinate.
    pub open spec fn wf(self) -> bool {
        self.bytes@.len() == 3 * (self.width * self.height)
    }
}

} // verus!
