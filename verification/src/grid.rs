//! Decoded raster pixel grids, the input of signature extraction.
use vstd::prelude::*;

verus! {

/// Mathematical model of a pixel grid: its dimensions and its row-major
/// grayscale samples.
pub ghost struct GridView {
    pub width: nat,
    pub height: nat,
    pub pixels: Seq<u8>,
}

impl GridView {
    /// The sample sequence covers exactly the advertised dimensions.
    pub open spec fn wf(self) -> bool {
        self.pixels.len() == self.width * self.height
    }

    /// The grayscale sample of row `r`, column `c`.
    pub open spec fn sample(self, r: int, c: int) -> u8 {
        self.pixels[r * self.width + c]
    }
}

/// A decoded grayscale raster image in row-major order.
pub struct PixelGrid {
    pub width: usize,
    pub height: usize,
    pub pixels: Vec<u8>,
}

impl View for PixelGrid {
    type V = GridView;

    open spec fn view(&self) -> GridView {
        GridView { width: self.width as nat, height: self.height as nat, pixels: self.pixels@ }
    }
}

impl PixelGrid {
    /// The sample buffer matches the dimensions.
    pub open spec fn wf(self) -> bool {
        self@.wf()
    }

    /// Builds a grid, checking that the sample count matches the dimensions.
    pub fn new(width: usize, height: usize, pixels: Vec<u8>) -> (r: Option<PixelGrid>)
        ensures
            match r {
                Some(g) => g@ == (GridView {
                    width: width as nat,
                    height: height as nat,
                    pixels: pixels@,
                }) && g.wf(),
                None => pixels@.len() != width * height,
            },
    {
        let len = pixels.len();
        if let Some(count) = width.checked_mul(height) {
            if len == count {
                return Some(PixelGrid { width, height, pixels });
            }
        } else {
            assert(len < width * height);
        }
        None
    }
}

} // verus!
