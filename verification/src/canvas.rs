//! The pixel canvas: a fixed-size grid of packed 24-bit RGB values
//! with bounds-tolerant point plotting.

use vstd::prelude::*;

verus! {

/// `Pict` is a simple rectangular canvas of packed RGB pixel values.
///
/// The grid is `width` columns by `height` rows, stored row-major,
/// top-to-bottom and left-to-right: the pixel at `(x, y)` lives at
/// index `y * width + x`.  A pixel value packs its channels as
/// `(red << 16) | (green << 8) | blue`; bits above bit 23 are ignored
/// by the encoder.
pub struct Pict {
    pub width: isize,
    pub height: isize,
    pub pixel: Vec<u32>,
}

/// The pixel sequence `pix` after a plot of color `c` at `(x, y)` on a
/// `w` by `h` canvas: the single cell `y * w + x` is updated when the
/// point is in bounds, and nothing changes when it is not.
pub open spec fn plotted(pix: Seq<u32>, w: int, h: int, x: int, y: int, c: u32) -> Seq<u32> {
    if 0 <= x < w && 0 <= y < h {
        pix.update(y * w + x, c)
    } else {
        pix
    }
}

impl Pict {
    /// Well-formedness: non-negative dimensions and a dense pixel
    /// store of exactly `width * height` cells.
    pub open spec fn wf(&self) -> bool {
        &&& 0 <= self.width
        &&& 0 <= self.height
        &&& self.pixel@.len() == self.width * self.height
    }

    /// Whether `(x, y)` addresses a cell of the grid.
    pub open spec fn in_bounds(&self, x: int, y: int) -> bool {
        0 <= x < self.width && 0 <= y < self.height
    }

    /// Constructs a new canvas of `width` x `height` black (0) pixels.
    pub fn new(width: isize, height: isize) -> (r: Self)
        requires
            0 <= width,
            0 <= height,
            width * height <= usize::MAX,
        ensures
            r.wf(),
            r.width == width,
            r.height == height,
            r.pixel@ == Seq::new((width * height) as nat, |i: int| 0u32),
    {
        let n: usize = (width as usize) * (height as usize);
        let pixel: Vec<u32> = vec![0u32; n];
        Self { width, height, pixel }
    }

    pub fn width(&self) -> (r: isize)
        ensures
            r == self.width,
    {
        self.width
    }

    pub fn height(&self) -> (r: isize)
        ensures
            r == self.height,
    {
        self.height
    }

    /// Reads the pixel at an in-bounds location (`x`, `y`).
    pub fn pixel_at(&self, x: isize, y: isize) -> (c: u32)
        requires
            self.wf(),
            self.in_bounds(x as int, y as int),
        ensures
            c == self.pixel@[y * self.width + x],
    {
        let n: usize = self.pixel.len();
        proof {
            lemma_row_major_index_in_range(
                self.width as int,
                self.height as int,
                x as int,
                y as int,
            );
        }
        assert(y * self.width + x < n);
        let i: usize = (y as usize) * (self.width as usize) + (x as usize);
        self.pixel[i]
    }

    /// Plots a pixel of color `c` at location (`x`, `y`).
    ///
    /// Out-of-bounds coordinates are silently ignored, so that line
    /// and curve algorithms may run up to and past the canvas edges
    /// without pre-clipping.
    pub fn plot(&mut self, x: isize, y: isize, c: u32)
        requires
            old(self).wf(),
        ensures
            final(self).wf(),
            final(self).width == old(self).width,
            final(self).height == old(self).height,
            final(self).pixel@ == plotted(
                old(self).pixel@,
                old(self).width as int,
                old(self).height as int,
                x as int,
                y as int,
                c,
            ),
    {
        if 0 <= x && x < self.width && 0 <= y && y < self.height {
            let n: usize = self.pixel.len();
            proof {
                lemma_row_major_index_in_range(
                    self.width as int,
                    self.height as int,
                    x as int,
                    y as int,
                );
            }
            assert(y * self.width + x < n);
            let i: usize = (y as usize) * (self.width as usize) + (x as usize);
            self.pixel.set(i, c);
        }
    }
}

/// The row-major index of an in-bounds point is a valid index into a
/// dense `w * h` store.
pub proof fn lemma_row_major_index_in_range(w: int, h: int, x: int, y: int) by (nonlinear_arith)
    requires
        0 <= x < w,
        0 <= y < h,
    ensures
        0 <= y * w + x < w * h,
{
}

/// Bounds containment and pixel addressing of a single plot: an
/// out-of-bounds plot leaves the store untouched; an in-bounds plot
/// writes `c` to its own cell `(x, y)` and to no other, so the
/// in-bounds cell `(xx, yy)` reads back `c` when it is the plotted
/// point and its old value otherwise.
pub proof fn lemma_plotted_cell(
    pix: Seq<u32>,
    w: int,
    h: int,
    x: int,
    y: int,
    c: u32,
    xx: int,
    yy: int,
)
    requires
        pix.len() == w * h,
        0 <= xx < w,
        0 <= yy < h,
    ensures
        !(0 <= x < w && 0 <= y < h) ==> plotted(pix, w, h, x, y, c) == pix,
        xx == x && yy == y && 0 <= x < w && 0 <= y < h ==> plotted(pix, w, h, x, y, c)[yy * w
            + xx] == c,
        !(xx == x && yy == y) ==> plotted(pix, w, h, x, y, c)[yy * w + xx] == pix[yy * w + xx],
{
    lemma_row_major_index_in_range(w, h, xx, yy);
    if 0 <= x < w && 0 <= y < h {
        lemma_row_major_index_in_range(w, h, x, y);
        if y * w + x == yy * w + xx {
            lemma_row_major_index_injective(w, h, x, y, xx, yy);
        }
    }
}

/// Distinct in-bounds points have distinct row-major indices: the
/// index determines the point.
pub proof fn lemma_row_major_index_injective(
    w: int,
    h: int,
    x1: int,
    y1: int,
    x2: int,
    y2: int,
) by (nonlinear_arith)
    requires
        0 <= x1 < w,
        0 <= y1 < h,
        0 <= x2 < w,
        0 <= y2 < h,
        y1 * w + x1 == y2 * w + x2,
    ensures
        x1 == x2,
        y1 == y2,
{
}

} // verus!
