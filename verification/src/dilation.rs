//! Morphological dilation of an edge mask: a separable square max filter
//! with replicate-edge addressing.

use vstd::prelude::*;
use crate::raster::{
    clamped, clamped_position, column_tap, lemma_pixel_coordinates, lemma_pixel_index, row_tap,
};

verus! {

/// Largest value among the first `n` taps of the `size`-wide row window
/// centred on `(x, y)`; 0 for an empty window.
pub open spec fn row_max(mask: Seq<u8>, width: int, x: int, y: int, size: int, n: int) -> u8
    decreases n,
{
    if n <= 0 {
        0
    } else {
        let rest = row_max(mask, width, x, y, size, n - 1);
        let value = mask[row_tap(width, x, y, n - 1, size)];
        if value > rest {
            value
        } else {
            rest
        }
    }
}

/// Largest value among the first `n` taps of the `size`-high column window
/// centred on `(x, y)`; 0 for an empty window.
pub open spec fn column_max(
    mask: Seq<u8>,
    width: int,
    height: int,
    x: int,
    y: int,
    size: int,
    n: int,
) -> u8
    decreases n,
{
    if n <= 0 {
        0
    } else {
        let rest = column_max(mask, width, height, x, y, size, n - 1);
        let value = mask[column_tap(width, height, x, y, n - 1, size)];
        if value > rest {
            value
        } else {
            rest
        }
    }
}

/// The mask after the horizontal pass: each pixel takes the maximum of its
/// row window.
pub open spec fn dilated_rows(mask: Seq<u8>, width: int, height: int, size: int) -> Seq<u8> {
    Seq::new(
        (width * height) as nat,
        |i: int| row_max(mask, width, i % width, i / width, size, size),
    )
}

/// The mask after the vertical pass: each pixel takes the maximum of its
/// column window.
pub open spec fn dilated_columns(mask: Seq<u8>, width: int, height: int, size: int) -> Seq<u8> {
    Seq::new(
        (width * height) as nat,
        |i: int| column_max(mask, width, height, i % width, i / width, size, size),
    )
}

/// The dilated mask: the vertical pass applied to the result of the
/// horizontal pass.
pub open spec fn dilated(mask: Seq<u8>, width: int, height: int, size: int) -> Seq<u8> {
    dilated_columns(dilated_rows(mask, width, height, size), width, height, size)
}

/// Maximum of the row window centred on `(x, y)`.
fn row_window_max(
    mask: &[u8],
    width: usize,
    height: usize,
    x: usize,
    y: usize,
    kernel_size: usize,
) -> (max_val: u8)
    requires
        mask@.len() == width * height,
        x < width,
        y < height,
    ensures
        max_val == row_max(
            mask@,
            width as int,
            x as int,
            y as int,
            kernel_size as int,
            kernel_size as int,
        ),
{
    let half_kernel = kernel_size / 2;
    let n = mask.len();
    let mut max_val: u8 = 0;
    for k in 0..kernel_size
        invariant
            n == width * height,
            mask@.len() == n,
            x < width,
            y < height,
            half_kernel == kernel_size / 2,
            max_val == row_max(
                mask@,
                width as int,
                x as int,
                y as int,
                kernel_size as int,
                k as int,
            ),
    {
        let nx = clamped_position(x, k, half_kernel, width);
        proof {
            lemma_pixel_index(width as int, height as int, nx as int, y as int);
        }
        let val = mask[y * width + nx];
        if val > max_val {
            max_val = val;
        }
    }
    max_val
}

/// Maximum of the column window centred on `(x, y)`.
fn column_window_max(
    mask: &[u8],
    width: usize,
    height: usize,
    x: usize,
    y: usize,
    kernel_size: usize,
) -> (max_val: u8)
    requires
        mask@.len() == width * height,
        x < width,
        y < height,
    ensures
        max_val == column_max(
            mask@,
            width as int,
            height as int,
            x as int,
            y as int,
            kernel_size as int,
            kernel_size as int,
        ),
{
    let half_kernel = kernel_size / 2;
    let n = mask.len();
    let mut max_val: u8 = 0;
    for k in 0..kernel_size
        invariant
            n == width * height,
            mask@.len() == n,
            x < width,
            y < height,
            half_kernel == kernel_size / 2,
            max_val == column_max(
                mask@,
                width as int,
                height as int,
                x as int,
                y as int,
                kernel_size as int,
                k as int,
            ),
    {
        let ny = clamped_position(y, k, half_kernel, height);
        proof {
            lemma_pixel_index(width as int, height as int, x as int, ny as int);
        }
        let val = mask[ny * width + x];
        if val > max_val {
            max_val = val;
        }
    }
    max_val
}

/// Horizontal pass of the max filter.
fn dilate_rows(edges: &[u8], width: usize, height: usize, kernel_size: usize) -> (temp: Vec<u8>)
    requires
        edges@.len() == width * height,
    ensures
        temp@ == dilated_rows(edges@, width as int, height as int, kernel_size as int),
{
    let n = edges.len();
    let mut temp = vec![0u8; n];
    assert(0 * width == 0 && height * width == width * height) by (nonlinear_arith);
    for y in 0..height
        invariant
            n == width * height,
            height * width == width * height,
            edges@.len() == width * height,
            temp@.len() == width * height,
            forall|j: int|
                0 <= j < y * width ==> temp@[j] == dilated_rows(
                    edges@,
                    width as int,
                    height as int,
                    kernel_size as int,
                )[j],
    {
        for x in 0..width
            invariant
                y < height,
                n == width * height,
                edges@.len() == width * height,
                temp@.len() == width * height,
                forall|j: int|
                    0 <= j < y * width + x ==> temp@[j] == dilated_rows(
                        edges@,
                        width as int,
                        height as int,
                        kernel_size as int,
                    )[j],
        {
            let max_val = row_window_max(edges, width, height, x, y, kernel_size);
            proof {
                lemma_pixel_index(width as int, height as int, x as int, y as int);
            }
            temp.set(y * width + x, max_val);
        }
        proof {
            assert((y + 1) * width == y * width + width) by (nonlinear_arith);
        }
    }
    proof {
        assert(temp@ =~= dilated_rows(edges@, width as int, height as int, kernel_size as int));
    }
    temp
}

/// Maximum of a column window that lies wholly inside the raster, so that
/// no tap needs clamping.
fn column_window_max_inner(
    mask: &[u8],
    width: usize,
    height: usize,
    x: usize,
    y: usize,
    kernel_size: usize,
) -> (max_val: u8)
    requires
        mask@.len() == width * height,
        x < width,
        kernel_size / 2 <= y,
        y + kernel_size / 2 < height,
    ensures
        max_val == column_max(
            mask@,
            width as int,
            height as int,
            x as int,
            y as int,
            kernel_size as int,
            kernel_size as int,
        ),
{
    let half_kernel = kernel_size / 2;
    let n = mask.len();
    let top = y - half_kernel;
    let mut max_val: u8 = 0;
    for k in 0..kernel_size
        invariant
            n == width * height,
            mask@.len() == n,
            x < width,
            half_kernel == kernel_size / 2,
            top == y - half_kernel,
            y + half_kernel < height,
            max_val == column_max(
                mask@,
                width as int,
                height as int,
                x as int,
                y as int,
                kernel_size as int,
                k as int,
            ),
    {
        let ny = top + k;
        proof {
            assert(ny == clamped(y as int, k - half_kernel, height as int));
            lemma_pixel_index(width as int, height as int, x as int, ny as int);
        }
        let val = mask[ny * width + x];
        if val > max_val {
            max_val = val;
        }
    }
    max_val
}

/// Whether every pixel before row `rows` of `out` holds its value of the
/// vertical pass over `temp`.
spec fn columns_done(
    out: Seq<u8>,
    temp: Seq<u8>,
    width: int,
    height: int,
    size: int,
    rows: int,
) -> bool {
    &&& out.len() == width * height
    &&& forall|j: int|
        0 <= j < rows * width ==> out[j] == dilated_columns(temp, width, height, size)[j]
}

/// Vertical pass over the rows `first .. last`, with clamped windows.
fn dilate_border_rows(
    temp: &[u8],
    width: usize,
    height: usize,
    kernel_size: usize,
    first: usize,
    last: usize,
    dilated_mask: &mut Vec<u8>,
)
    requires
        temp@.len() == width * height,
        first <= last <= height,
        columns_done(
            old(dilated_mask)@,
            temp@,
            width as int,
            height as int,
            kernel_size as int,
            first as int,
        ),
    ensures
        columns_done(
            final(dilated_mask)@,
            temp@,
            width as int,
            height as int,
            kernel_size as int,
            last as int,
        ),
{
    let n = temp.len();
    for y in first..last
        invariant
            n == width * height,
            temp@.len() == n,
            last <= height,
            columns_done(
                dilated_mask@,
                temp@,
                width as int,
                height as int,
                kernel_size as int,
                y as int,
            ),
    {
        for x in 0..width
            invariant
                y < height,
                n == width * height,
                temp@.len() == n,
                dilated_mask@.len() == n,
                forall|j: int|
                    0 <= j < y * width + x ==> dilated_mask@[j] == dilated_columns(
                        temp@,
                        width as int,
                        height as int,
                        kernel_size as int,
                    )[j],
        {
            let max_val = column_window_max(temp, width, height, x, y, kernel_size);
            proof {
                lemma_pixel_index(width as int, height as int, x as int, y as int);
            }
            dilated_mask.set(y * width + x, max_val);
        }
        proof {
            assert((y + 1) * width == y * width + width) by (nonlinear_arith);
        }
    }
}

/// Vertical pass over the rows `first .. last`, all of whose windows lie
/// wholly inside the raster.
fn dilate_inner_rows(
    temp: &[u8],
    width: usize,
    height: usize,
    kernel_size: usize,
    first: usize,
    last: usize,
    dilated_mask: &mut Vec<u8>,
)
    requires
        temp@.len() == width * height,
        first <= last <= height,
        first < last ==> kernel_size / 2 <= first && last + kernel_size / 2 <= height,
        columns_done(
            old(dilated_mask)@,
            temp@,
            width as int,
            height as int,
            kernel_size as int,
            first as int,
        ),
    ensures
        columns_done(
            final(dilated_mask)@,
            temp@,
            width as int,
            height as int,
            kernel_size as int,
            last as int,
        ),
{
    let n = temp.len();
    for y in first..last
        invariant
            n == width * height,
            temp@.len() == n,
            last <= height,
            first < last ==> kernel_size / 2 <= first && last + kernel_size / 2 <= height,
            columns_done(
                dilated_mask@,
                temp@,
                width as int,
                height as int,
                kernel_size as int,
                y as int,
            ),
    {
        for x in 0..width
            invariant
                first <= y < last,
                last <= height,
                kernel_size / 2 <= first,
                last + kernel_size / 2 <= height,
                n == width * height,
                temp@.len() == n,
                dilated_mask@.len() == n,
                forall|j: int|
                    0 <= j < y * width + x ==> dilated_mask@[j] == dilated_columns(
                        temp@,
                        width as int,
                        height as int,
                        kernel_size as int,
                    )[j],
        {
            let max_val = column_window_max_inner(temp, width, height, x, y, kernel_size);
            proof {
                lemma_pixel_index(width as int, height as int, x as int, y as int);
            }
            dilated_mask.set(y * width + x, max_val);
        }
        proof {
            assert((y + 1) * width == y * width + width) by (nonlinear_arith);
        }
    }
}

/// Dilates `edges` into `dilated_mask`. The vertical pass treats the rows
/// in three bands: the rows within half a window of the top and of the
/// bottom border clamp their taps, the rows between them read their
/// windows unclamped.
pub fn dilate_fast(
    edges: &[u8],
    width: usize,
    height: usize,
    kernel_size: usize,
    dilated_mask: &mut Vec<u8>,
)
    requires
        edges@.len() == width * height,
        old(dilated_mask)@.len() == width * height,
    ensures
        final(dilated_mask)@ == dilated(edges@, width as int, height as int, kernel_size as int),
{
    let half_kernel = kernel_size / 2;
    let temp = dilate_rows(edges, width, height, kernel_size);

    let y_safe_start = if half_kernel < height {
        half_kernel
    } else {
        height
    };
    let y_safe_end = if height - y_safe_start > y_safe_start {
        height - y_safe_start
    } else {
        y_safe_start
    };
    assert(0 * width == 0 && height * width == width * height) by (nonlinear_arith);
    dilate_border_rows(temp.as_slice(), width, height, kernel_size, 0, y_safe_start, dilated_mask);
    dilate_inner_rows(
        temp.as_slice(),
        width,
        height,
        kernel_size,
        y_safe_start,
        y_safe_end,
        dilated_mask,
    );
    dilate_border_rows(
        temp.as_slice(),
        width,
        height,
        kernel_size,
        y_safe_end,
        height,
        dilated_mask,
    );
    proof {
        assert(dilated_mask@ =~= dilated_columns(
            temp@,
            width as int,
            height as int,
            kernel_size as int,
        ));
    }
}

/// Dilates `edges` with a `kernel_size` × `kernel_size` square: a horizontal
/// max filter followed by a vertical one, both with replicate-edge
/// addressing.
pub fn dilate(edges: &[u8], width: usize, height: usize, kernel_size: usize) -> (dilated_mask: Vec<
    u8,
>)
    requires
        edges@.len() == width * height,
    ensures
        dilated_mask@ == dilated(edges@, width as int, height as int, kernel_size as int),
{
    let mut dilated_mask = vec![0u8; edges.len()];
    dilate_fast(edges, width, height, kernel_size, &mut dilated_mask);
    dilated_mask
}

/// A window maximum is at least the value at each of its taps.
proof fn lemma_row_max_covers(
    mask: Seq<u8>,
    width: int,
    x: int,
    y: int,
    size: int,
    n: int,
    k: int,
)
    requires
        0 <= k < n,
    ensures
        row_max(mask, width, x, y, size, n) >= mask[row_tap(width, x, y, k, size)],
    decreases n,
{
    if k < n - 1 {
        lemma_row_max_covers(mask, width, x, y, size, n - 1, k);
    }
}

/// A window maximum is at least the value at each of its taps.
proof fn lemma_column_max_covers(
    mask: Seq<u8>,
    width: int,
    height: int,
    x: int,
    y: int,
    size: int,
    n: int,
    k: int,
)
    requires
        0 <= k < n,
    ensures
        column_max(mask, width, height, x, y, size, n) >= mask[column_tap(
            width,
            height,
            x,
            y,
            k,
            size,
        )],
    decreases n,
{
    if k < n - 1 {
        lemma_column_max_covers(mask, width, height, x, y, size, n - 1, k);
    }
}

/// A window maximum is 0 or the value at one of its taps.
proof fn lemma_row_max_is_tap(mask: Seq<u8>, width: int, x: int, y: int, size: int, n: int)
    ensures
        row_max(mask, width, x, y, size, n) == 0 || exists|k: int|
            0 <= k < n && row_max(mask, width, x, y, size, n) == mask[#[trigger] row_tap(
                width,
                x,
                y,
                k,
                size,
            )],
    decreases n,
{
    if n > 0 {
        lemma_row_max_is_tap(mask, width, x, y, size, n - 1);
        let rest = row_max(mask, width, x, y, size, n - 1);
        let value = mask[row_tap(width, x, y, n - 1, size)];
        if value > rest {
        } else if rest != 0 {
            let k = choose|k: int|
                0 <= k < n - 1 && rest == mask[#[trigger] row_tap(width, x, y, k, size)];
            assert(0 <= k < n);
        }
    }
}

/// A window maximum is 0 or the value at one of its taps.
proof fn lemma_column_max_is_tap(
    mask: Seq<u8>,
    width: int,
    height: int,
    x: int,
    y: int,
    size: int,
    n: int,
)
    ensures
        column_max(mask, width, height, x, y, size, n) == 0 || exists|k: int|
            0 <= k < n && column_max(mask, width, height, x, y, size, n)
                == mask[#[trigger] column_tap(width, height, x, y, k, size)],
    decreases n,
{
    if n > 0 {
        lemma_column_max_is_tap(mask, width, height, x, y, size, n - 1);
        let rest = column_max(mask, width, height, x, y, size, n - 1);
        let value = mask[column_tap(width, height, x, y, n - 1, size)];
        if value > rest {
        } else if rest != 0 {
            let k = choose|k: int|
                0 <= k < n - 1 && rest == mask[#[trigger] column_tap(width, height, x, y, k, size)];
            assert(0 <= k < n);
        }
    }
}

/// Dilation with a 1 × 1 square leaves every mask as it is.
pub proof fn lemma_unit_dilation_is_identity(mask: Seq<u8>, width: int, height: int)
    requires
        mask.len() == width * height,
        0 <= width,
    ensures
        dilated(mask, width, height, 1) == mask,
{
    let rows = dilated_rows(mask, width, height, 1);
    let out = dilated(mask, width, height, 1);
    assert forall|i: int| 0 <= i < mask.len() implies #[trigger] rows[i] == mask[i] by {
        lemma_pixel_coordinates(width, height, i);
        assert(row_tap(width, i % width, i / width, 0, 1) == i);
        reveal_with_fuel(row_max, 2);
    }
    assert forall|i: int| 0 <= i < mask.len() implies out[i] == mask[i] by {
        lemma_pixel_coordinates(width, height, i);
        assert(column_tap(width, height, i % width, i / width, 0, 1) == i);
        reveal_with_fuel(column_max, 2);
        assert(rows[i] == mask[i]);
    }
    assert(out =~= mask);
}

/// Dilation never lowers a pixel: with a square of at least one pixel,
/// every pixel of the result is at least what it was. A pixel that was 255
/// stays 255, so the edge pixels of the result take in those of the mask.
pub proof fn lemma_dilation_grows(mask: Seq<u8>, width: int, height: int, size: int, i: int)
    requires
        mask.len() == width * height,
        0 <= width,
        1 <= size,
        0 <= i < mask.len(),
    ensures
        dilated(mask, width, height, size)[i] >= mask[i],
        mask[i] == 255 ==> dilated(mask, width, height, size)[i] == 255,
{
    let rows = dilated_rows(mask, width, height, size);
    lemma_pixel_coordinates(width, height, i);
    let x = i % width;
    let y = i / width;
    let centre = size / 2;
    assert(row_tap(width, x, y, centre, size) == i);
    assert(column_tap(width, height, x, y, centre, size) == i);
    lemma_row_max_covers(mask, width, x, y, size, size, centre);
    lemma_column_max_covers(rows, width, height, x, y, size, size, centre);
}

/// Dilation keeps a binary mask binary: where every pixel of the mask is 0
/// or 255, so is every pixel of the result.
pub proof fn lemma_dilation_keeps_binary(
    mask: Seq<u8>,
    width: int,
    height: int,
    size: int,
    i: int,
)
    requires
        mask.len() == width * height,
        0 <= width,
        forall|j: int| 0 <= j < mask.len() ==> mask[j] == 0 || mask[j] == 255,
        0 <= i < mask.len(),
    ensures
        dilated(mask, width, height, size)[i] == 0 || dilated(mask, width, height, size)[i] == 255,
{
    let rows = dilated_rows(mask, width, height, size);
    assert forall|j: int| 0 <= j < rows.len() implies rows[j] == 0 || rows[j] == 255 by {
        lemma_pixel_coordinates(width, height, j);
        let x = j % width;
        let y = j / width;
        lemma_row_max_is_tap(mask, width, x, y, size, size);
        if rows[j] != 0 {
            let k = choose|k: int|
                0 <= k < size && row_max(mask, width, x, y, size, size)
                    == mask[#[trigger] row_tap(width, x, y, k, size)];
            lemma_pixel_index(width, height, clamped(x, k - size / 2, width), y);
        }
    }
    lemma_pixel_coordinates(width, height, i);
    let x = i % width;
    let y = i / width;
    lemma_column_max_is_tap(rows, width, height, x, y, size, size);
    if dilated(mask, width, height, size)[i] != 0 {
        let k = choose|k: int|
            0 <= k < size && column_max(rows, width, height, x, y, size, size)
                == rows[#[trigger] column_tap(width, height, x, y, k, size)];
        lemma_pixel_index(width, height, x, clamped(y, k - size / 2, height));
    }
}

} // verus!
