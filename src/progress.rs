use vstd::prelude::*;

use crate::tiles::Block;

verus! {

/// Progress sink that reports nothing.
pub struct NoProgress;

/// Progress sink that prints the finished fraction of the image.
pub struct PrintProgress;

/// How many pixels of an image have been delivered so far.
pub struct ProgressCount {
    pub total_pixels: u64,
    pub finished_pixels: u64,
}

impl ProgressCount {
    /// A count for a `width` by `height` image with nothing finished yet.
    pub fn new(width: u32, height: u32) -> (r: ProgressCount)
        ensures
            r.total_pixels == width * height,
            r.finished_pixels == 0,
    {
        assert(width * height <= u32::MAX * u32::MAX) by (nonlinear_arith)
            requires width <= u32::MAX, height <= u32::MAX;
        ProgressCount { total_pixels: (width as u64) * (height as u64), finished_pixels: 0 }
    }

    /// Records that the pixels of `block` are finished.
    pub fn record(&mut self, block: Block)
        requires
            old(self).finished_pixels + block.width * block.height <= u64::MAX,
        ensures
            final(self).total_pixels == old(self).total_pixels,
            final(self).finished_pixels == old(self).finished_pixels + block.width * block.height,
    {
        assert(block.width * block.height <= u32::MAX * u32::MAX) by (nonlinear_arith)
            requires block.width <= u32::MAX, block.height <= u32::MAX;
        self.finished_pixels = self.finished_pixels + (block.width as u64) * (block.height as u64);
    }

    /// Whether every pixel of the image has been delivered.
    pub fn is_complete(&self) -> (r: bool)
        ensures
            r == (self.finished_pixels >= self.total_pixels),
    {
        self.finished_pixels >= self.total_pixels
    }
}

} // verus!
