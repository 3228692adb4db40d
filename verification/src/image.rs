//! Decoded images as plain data: a row-major grid of packed pixels together
//! with its dimensions.  Decoding from files or byte streams is a caller's
//! concern; the atlas only ever sees values of this type.

use vstd::prelude::*;

verus! {

/// A decoded image: `width * height` packed pixels (one `u32` per pixel,
/// e.g. four 8-bit channels), stored row by row.
#[derive(Clone, Debug)]
pub struct Image {
    pub width: u32,
    pub height: u32,
    /// Row-major pixel grid: the pixel in column `x` of row `y` sits at
    /// index `y * width + x`.
    pub pixels: Vec<u32>,
}

impl Image {
    /// The pixel grid matches the stated dimensions.
    pub open spec fn wf(self) -> bool {
        self.pixels@.len() == self.width * self.height
    }

    /// The pixel in column `x`, row `y`.
    pub open spec fn pixel_at(self, x: int, y: int) -> u32 {
        self.pixels@[y * self.width + x]
    }

    /// An image of the given size with every pixel set to `fill`.
    #[verifier::loop_isolation(false)]
    pub fn filled(width: u32, height: u32, fill: u32) -> (r: Image)
        requires
            width * height <= usize::MAX,
        ensures
            r.wf(),
            r.width == width,
            r.height == height,
            forall|x: int, y: int| 0 <= x < width && 0 <= y < height
                ==> #[trigger] r.pixel_at(x, y) == fill,
    {
        proof {
            assert((width as int) * (height as int) == (width as usize) as int * (height as usize) as int);
        }
        let n: usize = (width as usize) * (height as usize);
        let mut pixels: Vec<u32> = Vec::new();
        let mut i: usize = 0;
        while i < n
            invariant
                i <= n,
                pixels@.len() == i,
                forall|k: int| 0 <= k < i ==> pixels@[k] == fill,
            decreases n - i,
        {
            pixels.push(fill);
            i += 1;
        }
        let r = Image { width, height, pixels };
        proof {
            assert forall|x: int, y: int| 0 <= x < width && 0 <= y < height
                implies #[trigger] r.pixel_at(x, y) == fill by {
                lemma_grid_index(width as int, height as int, x, y);
                assert(0 <= y * width + x < n);
                assert(r.pixels@[y * width + x] == fill);
            }
        }
        r
    }
}

/// The cell of a row-major grid of width `w` at column `x`, row `y`.
pub open spec fn grid_at(cells: Seq<u32>, w: int, x: int, y: int) -> u32 {
    cells[y * w + x]
}

/// Row-major index arithmetic: a position inside a `w` by `h` grid has its
/// index inside the buffer of `h * w` cells.
pub proof fn lemma_grid_index(w: int, h: int, x: int, y: int)
    requires
        0 <= x < w,
        0 <= y < h,
    ensures
        0 <= y * w + x < h * w,
        0 <= y * w + x < w * h,
{
    assert(0 <= y * w + x < h * w && 0 <= y * w + x < w * h) by (nonlinear_arith)
        requires
            0 <= x < w,
            0 <= y < h,
    ;
}

/// Row-major indices are unique: two positions with a common index in a grid
/// of width `w` are the same position.
pub proof fn lemma_grid_index_injective(w: int, x1: int, y1: int, x2: int, y2: int)
    requires
        0 <= x1 < w,
        0 <= x2 < w,
        y1 * w + x1 == y2 * w + x2,
    ensures
        x1 == x2 && y1 == y2,
{
    assert(x1 == x2 && y1 == y2) by (nonlinear_arith)
        requires
            0 <= x1 < w,
            0 <= x2 < w,
            y1 * w + x1 == y2 * w + x2,
    ;
}

} // verus!
