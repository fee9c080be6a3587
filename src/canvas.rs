//! Row-major pixel indexing: the pixel at `(x, y)` of a `width`-wide canvas
//! lives at index `y * width + x`.

use vstd::prelude::*;

verus! {

/// The column of the pixel at flat index `i`.
pub open spec fn column(i: int, width: int) -> int {
    i % width
}

/// The row of the pixel at flat index `i`.
pub open spec fn row(i: int, width: int) -> int {
    i / width
}

/// Each flat index of a `width * height` canvas names a pixel on it.
pub proof fn lemma_index_coords(i: int, width: int, height: int)
    requires
        0 <= width,
        0 <= height,
        0 <= i < width * height,
    ensures
        0 < width,
        0 <= column(i, width) < width,
        0 <= row(i, width) < height,
        i == row(i, width) * width + column(i, width),
{
    assert(0 < width) by (nonlinear_arith)
        requires
            0 <= i < width * height,
            0 <= width,
            0 <= height,
    ;
    vstd::arithmetic::div_mod::lemma_fundamental_div_mod(i, width);
    vstd::arithmetic::mul::lemma_mul_is_commutative(width, i / width);
    assert(row(i, width) < height) by (nonlinear_arith)
        requires
            0 <= i < width * height,
            0 < width,
            i == width * (i / width) + i % width,
            0 <= i % width < width,
    ;
}

} // verus!
