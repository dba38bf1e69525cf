use vstd::prelude::*;
use vstd::arithmetic::div_mod::*;

verus! {

/// The dimensions of an image in pixels.
#[derive(Debug, Clone, Copy, PartialEq, Eq, Structural)]
pub struct Size {
    pub width: usize,
    pub height: usize,
}

impl Size {
    /// The number of pixels of an image of this size.
    pub open spec fn spec_area(self) -> int {
        self.width * self.height
    }

    /// Whether the number of pixels fits in a `usize`.
    pub open spec fn area_fits(self) -> bool {
        self.width * self.height <= usize::MAX
    }

    pub fn new(width: usize, height: usize) -> (size: Size)
        ensures
            size.width == width,
            size.height == height,
    {
        Size { width, height }
    }

    /// The number of pixels, `width * height`.
    pub fn area(&self) -> (area: usize)
        requires
            self.area_fits(),
        ensures
            area == self.spec_area(),
    {
        self.width * self.height
    }

    /// The column and row of the pixel stored at `index` in row-major order.
    pub fn pixel_position(&self, index: usize) -> (position: (usize, usize))
        requires
            self.width > 0,
        ensures
            position.0 == index % self.width,
            position.1 == index / self.width,
            position.0 < self.width,
    {
        (index % self.width, index / self.width)
    }
}

/// The row-major index of the pixel in column `x` and row `y` of an image
/// `width` pixels wide.
pub open spec fn row_major_index(width: int, x: int, y: int) -> int {
    y * width + x
}

/// Splitting a row-major index into column and row and joining them again
/// gives back the index.
pub proof fn lemma_position_then_index(size: Size, index: int)
    requires
        size.width > 0,
        index >= 0,
    ensures
        0 <= index % (size.width as int) < size.width,
        row_major_index(size.width as int, index % (size.width as int), index / (size.width as int))
            == index,
        size.area_fits() && index < size.spec_area() ==> index / (size.width as int) < size.height,
{
    let w = size.width as int;
    let q = index / w;
    let r = index % w;
    lemma_fundamental_div_mod(index, w);
    lemma_mod_bound(index, w);
    assert(q * w == w * q) by {
        vstd::arithmetic::mul::lemma_mul_is_commutative(q, w);
    }
    if size.area_fits() && index < size.spec_area() {
        let h = size.height as int;
        assert(q < h) by (nonlinear_arith)
            requires
                index == w * q + r,
                0 <= r,
                w > 0,
                index < w * h,
        {}
    }
}

/// The pixel in column `x < width` and row `y` has the row-major index whose
/// column and row are `x` and `y` again.
pub proof fn lemma_index_then_position(size: Size, x: int, y: int)
    requires
        0 <= x < size.width,
        0 <= y,
    ensures
        row_major_index(size.width as int, x, y) % (size.width as int) == x,
        row_major_index(size.width as int, x, y) / (size.width as int) == y,
{
    lemma_fundamental_div_mod_converse(y * size.width + x, size.width as int, y, x);
}

} // verus!
