//! Row-major raster geometry: pixel indices, the interior, and clamped
//! window positions shared by the convolution and the max filter.

use vstd::prelude::*;

verus! {

/// The position `pos + offset`, moved to the nearest position of
/// `0 .. len` where it lies outside (replicate-edge addressing).
pub open spec fn clamped(pos: int, offset: int, len: int) -> int {
    if pos + offset < 0 {
        0
    } else if pos + offset > len - 1 {
        len - 1
    } else {
        pos + offset
    }
}

/// Index of the pixel that tap `k` of a `size`-wide window centred on
/// `(x, y)` reads when the window lies along the row.
pub open spec fn row_tap(width: int, x: int, y: int, k: int, size: int) -> int {
    y * width + clamped(x, k - size / 2, width)
}

/// Index of the pixel that tap `k` of a `size`-high window centred on
/// `(x, y)` reads when the window lies along the column.
pub open spec fn column_tap(width: int, height: int, x: int, y: int, k: int, size: int) -> int {
    clamped(y, k - size / 2, height) * width + x
}

/// Whether index `i` names a pixel that touches no border of the raster.
pub open spec fn is_interior(width: int, height: int, i: int) -> bool {
    &&& 0 <= i < width * height
    &&& 1 <= i % width < width - 1
    &&& 1 <= i / width < height - 1
}

/// Whether `i` and `j` are distinct pixels whose columns and rows differ by
/// at most one (8-connectivity).
pub open spec fn adjacent(width: int, i: int, j: int) -> bool {
    &&& i != j
    &&& -1 <= i % width - j % width <= 1
    &&& -1 <= i / width - j / width <= 1
}

/// Whether a row-major scan that stands at column `x` of row `y` has
/// passed pixel `j`.
pub open spec fn scanned(width: int, x: int, y: int, j: int) -> bool {
    j / width < y || (j / width == y && j % width < x)
}

/// A pixel given by in-range coordinates has an in-range index, and the
/// index gives the coordinates back.
pub proof fn lemma_pixel_index(width: int, height: int, x: int, y: int)
    requires
        0 <= x < width,
        0 <= y < height,
    ensures
        0 <= y * width <= y * width + x < width * height,
        y * width + width <= width * height,
        (y * width + x) % width == x,
        (y * width + x) / width == y,
{
    assert(0 <= y * width && y * width + width <= width * height) by (nonlinear_arith)
        requires
            0 <= y < height,
            0 < width,
    ;
    vstd::arithmetic::div_mod::lemma_fundamental_div_mod_converse(y * width + x, width, y, x);
}

/// An in-range index has in-range coordinates that give the index back.
pub proof fn lemma_pixel_coordinates(width: int, height: int, i: int)
    requires
        0 <= i < width * height,
        0 <= width,
    ensures
        0 <= i % width < width,
        0 <= i / width < height,
        i == (i / width) * width + i % width,
{
    assert(width > 0) by (nonlinear_arith)
        requires
            0 <= i < width * height,
            0 <= width,
    ;
    vstd::arithmetic::div_mod::lemma_fundamental_div_mod(i, width);
    vstd::arithmetic::div_mod::lemma_mod_bound(i, width);
    let q = i / width;
    assert(0 <= q < height) by (nonlinear_arith)
        requires
            i == width * q + i % width,
            0 <= i % width < width,
            0 <= i < width * height,
            0 < width,
    ;
    assert(width * q == q * width) by (nonlinear_arith);
}

/// Replicate-edge addressing: the position that tap `k` of a window with
/// `half` taps before its centre reads around `pos`.
pub fn clamped_position(pos: usize, k: usize, half: usize, len: usize) -> (r: usize)
    requires
        pos < len,
    ensures
        r == clamped(pos as int, k - half, len as int),
        r < len,
{
    if k >= half {
        let forward: usize = k - half;
        if forward >= len - 1 - pos {
            len - 1
        } else {
            pos + forward
        }
    } else {
        let back: usize = half - k;
        if back > pos {
            0
        } else {
            pos - back
        }
    }
}

} // verus!
