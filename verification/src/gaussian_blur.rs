//! Separable Gaussian blur in fixed-point arithmetic.
//!
//! Kernel weights are fractions at scale 2^16. The horizontal pass brings
//! its sums down to scale 2^8 before it stores them, so that the sums of
//! the vertical pass, at scale 2^24, fit a 64-bit accumulator; the vertical
//! pass brings its sums down to whole intensities and saturates them at
//! 255.

use vstd::prelude::*;
use crate::raster::{
    clamped, clamped_position, column_tap, lemma_pixel_coordinates, lemma_pixel_index, row_tap,
};

verus! {

/// The weight 1.0 at scale 2^16.
pub const FIXED_POINT_ONE: u32 = 65536;

/// Number of bits by which the horizontal pass shifts its sums down.
pub const INTERMEDIATE_SHIFT: u32 = 8;

/// Divisor that corresponds to `INTERMEDIATE_SHIFT`.
pub const INTERMEDIATE_SCALE: u64 = 256;

/// Number of bits by which the vertical pass shifts its sums down.
pub const OUTPUT_SHIFT: u32 = 24;

/// Divisor that corresponds to `OUTPUT_SHIFT`.
pub const OUTPUT_SCALE: u64 = 16777216;

/// Sum of the first `n` weights.
pub open spec fn kernel_total(weights: Seq<u32>, n: int) -> int
    decreases n,
{
    if n <= 0 {
        0
    } else {
        kernel_total(weights, n - 1) + weights[n - 1]
    }
}

/// Whether `weights` can serve as a kernel: their number is odd and their
/// sum fits in 32 bits.
pub open spec fn valid_weights(weights: Seq<u32>) -> bool {
    &&& weights.len() % 2 == 1
    &&& kernel_total(weights, weights.len() as int) <= u32::MAX
}

/// Weighted sum over the first `n` taps of the row window centred on
/// `(x, y)`.
pub open spec fn row_sum(
    src: Seq<u8>,
    width: int,
    weights: Seq<u32>,
    x: int,
    y: int,
    n: int,
) -> int
    decreases n,
{
    if n <= 0 {
        0
    } else {
        row_sum(src, width, weights, x, y, n - 1) + weights[n - 1] * src[row_tap(
            width,
            x,
            y,
            n - 1,
            weights.len() as int,
        )]
    }
}

/// Weighted sum over the first `n` taps of the column window centred on
/// `(x, y)`.
pub open spec fn column_sum(
    mid: Seq<u32>,
    width: int,
    height: int,
    weights: Seq<u32>,
    x: int,
    y: int,
    n: int,
) -> int
    decreases n,
{
    if n <= 0 {
        0
    } else {
        column_sum(mid, width, height, weights, x, y, n - 1) + weights[n - 1] * mid[column_tap(
            width,
            height,
            x,
            y,
            n - 1,
            weights.len() as int,
        )]
    }
}

/// Value that the horizontal pass stores for pixel `(x, y)`: the row sum
/// at scale 2^8.
pub open spec fn row_value(src: Seq<u8>, width: int, weights: Seq<u32>, x: int, y: int) -> int {
    row_sum(src, width, weights, x, y, weights.len() as int) / (INTERMEDIATE_SCALE as int)
}

/// Value that the vertical pass stores for pixel `(x, y)`: the column sum
/// as a whole intensity, saturated at 255.
pub open spec fn column_value(
    mid: Seq<u32>,
    width: int,
    height: int,
    weights: Seq<u32>,
    x: int,
    y: int,
) -> int {
    let whole = column_sum(mid, width, height, weights, x, y, weights.len() as int) / (
    OUTPUT_SCALE as int);
    if whole > 255 {
        255
    } else {
        whole
    }
}

/// The raster after the horizontal pass.
pub open spec fn blurred_rows(src: Seq<u8>, width: int, height: int, weights: Seq<u32>) -> Seq<
    u32,
> {
    Seq::new(
        (width * height) as nat,
        |i: int| row_value(src, width, weights, i % width, i / width) as u32,
    )
}

/// The raster after the vertical pass.
pub open spec fn blurred_columns(
    mid: Seq<u32>,
    width: int,
    height: int,
    weights: Seq<u32>,
) -> Seq<u8> {
    Seq::new(
        (width * height) as nat,
        |i: int| column_value(mid, width, height, weights, i % width, i / width) as u8,
    )
}

/// The blurred raster: the vertical pass applied to the result of the
/// horizontal pass.
pub open spec fn blurred(src: Seq<u8>, width: int, height: int, weights: Seq<u32>) -> Seq<u8> {
    blurred_columns(blurred_rows(src, width, height, weights), width, height, weights)
}

/// Partial sums of the weights grow with the number of weights taken.
pub proof fn lemma_kernel_total_grows(weights: Seq<u32>, m: int, n: int)
    requires
        0 <= m <= n,
    ensures
        0 <= kernel_total(weights, m) <= kernel_total(weights, n),
    decreases n,
{
    if m < n {
        lemma_kernel_total_grows(weights, m, n - 1);
    } else if n > 0 {
        lemma_kernel_total_grows(weights, n - 1, n - 1);
    }
}

/// A row sum over 8-bit pixels is at most 255 times the weights taken.
pub proof fn lemma_row_sum_bound(
    src: Seq<u8>,
    width: int,
    weights: Seq<u32>,
    x: int,
    y: int,
    n: int,
)
    requires
        0 <= n,
    ensures
        0 <= row_sum(src, width, weights, x, y, n) <= 255 * kernel_total(weights, n),
    decreases n,
{
    if n > 0 {
        lemma_row_sum_bound(src, width, weights, x, y, n - 1);
        let w = weights[n - 1];
        let p = src[row_tap(width, x, y, n - 1, weights.len() as int)];
        assert(0 <= w * p <= 255 * w) by (nonlinear_arith)
            requires
                0 <= w,
                0 <= p <= 255,
        ;
    }
}

/// A column sum over 32-bit values is at most `u32::MAX` times the weights
/// taken.
pub proof fn lemma_column_sum_bound(
    mid: Seq<u32>,
    width: int,
    height: int,
    weights: Seq<u32>,
    x: int,
    y: int,
    n: int,
)
    requires
        0 <= n,
    ensures
        0 <= column_sum(mid, width, height, weights, x, y, n) <= 0xffff_ffff * kernel_total(
            weights,
            n,
        ),
    decreases n,
{
    if n > 0 {
        lemma_column_sum_bound(mid, width, height, weights, x, y, n - 1);
        let w = weights[n - 1];
        let p = mid[column_tap(width, height, x, y, n - 1, weights.len() as int)];
        assert(0 <= w * p <= 0xffff_ffff * w) by (nonlinear_arith)
            requires
                0 <= w,
                0 <= p <= 0xffff_ffff,
        ;
    }
}

/// A 1-D convolution kernel: an odd number of weights at scale 2^16 whose
/// sum fits in 32 bits.
#[derive(Debug)]
pub struct Kernel {
    weights: Vec<u32>,
}

impl Kernel {
    /// The weights, first tap first.
    pub closed spec fn view(&self) -> Seq<u32> {
        self.weights@
    }

    #[verifier::type_invariant]
    spec fn well_formed(&self) -> bool {
        valid_weights(self.weights@)
    }

    /// Makes a kernel of `weights`, or `None` where their number is even
    /// or their sum does not fit in 32 bits.
    pub fn from_weights(weights: Vec<u32>) -> (kernel: Option<Kernel>)
        ensures
            kernel is Some <==> valid_weights(weights@),
            kernel matches Some(k) ==> k@ == weights@,
    {
        let n = weights.len();
        if n % 2 == 0 {
            return None;
        }
        let mut total: u64 = 0;
        for k in 0..n
            invariant
                n == weights@.len(),
                total == kernel_total(weights@, k as int),
                total <= u32::MAX,
        {
            proof {
                lemma_kernel_total_grows(weights@, k + 1, n as int);
            }
            total = total + weights[k] as u64;
            if total > u32::MAX as u64 {
                return None;
            }
        }
        Some(Kernel { weights })
    }

    /// The kernel of one tap with weight 1.0, which leaves a raster as it
    /// is.
    pub fn identity() -> (kernel: Kernel)
        ensures
            kernel@ == seq![FIXED_POINT_ONE],
    {
        let weights = vec![FIXED_POINT_ONE];
        proof {
            assert(weights@ =~= seq![FIXED_POINT_ONE]);
            reveal_with_fuel(kernel_total, 2);
        }
        Kernel { weights }
    }

    /// Number of taps.
    pub fn size(&self) -> (n: usize)
        ensures
            n == self@.len(),
    {
        self.weights.len()
    }

    /// The weights, first tap first.
    pub fn weights(&self) -> (weights: &[u32])
        ensures
            weights@ == self@,
            valid_weights(weights@),
    {
        proof {
            use_type_invariant(self);
        }
        self.weights.as_slice()
    }
}

impl Clone for Kernel {
    fn clone(&self) -> (kernel: Self)
        ensures
            kernel@ == self@,
    {
        proof {
            use_type_invariant(self);
        }
        let weights = self.weights.clone();
        proof {
            assert(weights@ =~= self.weights@);
        }
        Kernel { weights }
    }
}

/// Value of one pixel of the horizontal pass.
fn row_pixel(src: &[u8], width: usize, height: usize, kernel: &[u32], x: usize, y: usize) -> (value:
    u32)
    requires
        src@.len() == width * height,
        valid_weights(kernel@),
        x < width,
        y < height,
    ensures
        value == row_value(src@, width as int, kernel@, x as int, y as int),
{
    let kernel_len = kernel.len();
    let half_kernel = kernel_len / 2;
    let n = src.len();
    let mut sum: u64 = 0;
    for k_idx in 0..kernel_len
        invariant
            n == width * height,
            src@.len() == n,
            kernel_len == kernel@.len(),
            half_kernel == kernel_len / 2,
            valid_weights(kernel@),
            x < width,
            y < height,
            sum == row_sum(src@, width as int, kernel@, x as int, y as int, k_idx as int),
    {
        let px = clamped_position(x, k_idx, half_kernel, width);
        proof {
            lemma_pixel_index(width as int, height as int, px as int, y as int);
            lemma_row_sum_bound(src@, width as int, kernel@, x as int, y as int, k_idx + 1);
            lemma_kernel_total_grows(kernel@, k_idx + 1, kernel_len as int);
            let w = kernel@[k_idx as int];
            let p = src@[y * width + px];
            assert(0 <= w * p <= 255 * w) by (nonlinear_arith)
                requires
                    0 <= w,
                    0 <= p <= 255,
            ;
        }
        sum = sum + (kernel[k_idx] as u64) * (src[y * width + px] as u64);
    }
    proof {
        lemma_row_sum_bound(src@, width as int, kernel@, x as int, y as int, kernel_len as int);
        assert(sum >> 8 == sum / 256) by (bit_vector);
    }
    (sum >> INTERMEDIATE_SHIFT) as u32
}

/// Value of one pixel of the vertical pass.
fn column_pixel(
    src: &[u32],
    width: usize,
    height: usize,
    kernel: &[u32],
    x: usize,
    y: usize,
) -> (value: u8)
    requires
        src@.len() == width * height,
        valid_weights(kernel@),
        x < width,
        y < height,
    ensures
        value == column_value(src@, width as int, height as int, kernel@, x as int, y as int),
{
    let kernel_len = kernel.len();
    let half_kernel = kernel_len / 2;
    let n = src.len();
    let mut sum: u64 = 0;
    for k_idx in 0..kernel_len
        invariant
            n == width * height,
            src@.len() == n,
            kernel_len == kernel@.len(),
            half_kernel == kernel_len / 2,
            valid_weights(kernel@),
            x < width,
            y < height,
            sum == column_sum(
                src@,
                width as int,
                height as int,
                kernel@,
                x as int,
                y as int,
                k_idx as int,
            ),
    {
        let ny = clamped_position(y, k_idx, half_kernel, height);
        proof {
            lemma_pixel_index(width as int, height as int, x as int, ny as int);
            lemma_column_sum_bound(
                src@,
                width as int,
                height as int,
                kernel@,
                x as int,
                y as int,
                k_idx + 1,
            );
            lemma_kernel_total_grows(kernel@, k_idx + 1, kernel_len as int);
            let w = kernel@[k_idx as int];
            let p = src@[ny * width + x];
            assert(0 <= w * p <= 0xffff_ffff * w) by (nonlinear_arith)
                requires
                    0 <= w,
                    0 <= p <= 0xffff_ffff,
            ;
        }
        sum = sum + (kernel[k_idx] as u64) * (src[ny * width + x] as u64);
    }
    proof {
        assert(sum >> 24 == sum / 16777216) by (bit_vector);
    }
    let result = sum >> OUTPUT_SHIFT;
    if result > 255 {
        255
    } else {
        result as u8
    }
}

/// A three-tap row sum is the sum of its three products.
proof fn lemma_row_sum_of_three(src: Seq<u8>, width: int, weights: Seq<u32>, x: int, y: int)
    requires
        weights.len() == 3,
    ensures
        row_sum(src, width, weights, x, y, 3) == weights[0] * src[row_tap(width, x, y, 0, 3)]
            + weights[1] * src[row_tap(width, x, y, 1, 3)] + weights[2] * src[row_tap(
            width,
            x,
            y,
            2,
            3,
        )],
{
    reveal_with_fuel(row_sum, 4);
}

/// A three-tap column sum is the sum of its three products.
proof fn lemma_column_sum_of_three(
    mid: Seq<u32>,
    width: int,
    height: int,
    weights: Seq<u32>,
    x: int,
    y: int,
)
    requires
        weights.len() == 3,
    ensures
        column_sum(mid, width, height, weights, x, y, 3) == weights[0] * mid[column_tap(
            width,
            height,
            x,
            y,
            0,
            3,
        )] + weights[1] * mid[column_tap(width, height, x, y, 1, 3)] + weights[2]
            * mid[column_tap(width, height, x, y, 2, 3)],
{
    reveal_with_fuel(column_sum, 4);
}

/// The sum of three weights is the total of a three-tap kernel.
proof fn lemma_total_of_three(weights: Seq<u32>)
    requires
        weights.len() == 3,
    ensures
        kernel_total(weights, 3) == weights[0] + weights[1] + weights[2],
{
    reveal_with_fuel(kernel_total, 4);
}

/// Three taps of the horizontal pass, at scale 2^8.
fn three_row_taps(
    src: &[u8],
    kernel: &[u32],
    left: usize,
    centre: usize,
    right: usize,
) -> (value: u32)
    requires
        kernel@.len() == 3,
        valid_weights(kernel@),
        left < src@.len(),
        centre < src@.len(),
        right < src@.len(),
    ensures
        value == (kernel@[0] * src@[left as int] + kernel@[1] * src@[centre as int] + kernel@[2]
            * src@[right as int]) / (INTERMEDIATE_SCALE as int),
{
    let k0 = kernel[0] as u64;
    let k1 = kernel[1] as u64;
    let k2 = kernel[2] as u64;
    let a = src[left] as u64;
    let b = src[centre] as u64;
    let c = src[right] as u64;
    proof {
        lemma_total_of_three(kernel@);
        assert(0 <= k0 * a <= 255 * k0 && 0 <= k1 * b <= 255 * k1 && 0 <= k2 * c <= 255 * k2)
            by (nonlinear_arith)
            requires
                0 <= k0,
                0 <= k1,
                0 <= k2,
                0 <= a <= 255,
                0 <= b <= 255,
                0 <= c <= 255,
        ;
    }
    let sum = k0 * a + k1 * b + k2 * c;
    proof {
        assert(sum >> 8 == sum / 256) by (bit_vector);
    }
    (sum >> INTERMEDIATE_SHIFT) as u32
}

/// Three taps of the vertical pass, as a whole intensity saturated at 255.
fn three_column_taps(
    src: &[u32],
    kernel: &[u32],
    above: usize,
    centre: usize,
    below: usize,
) -> (value: u8)
    requires
        kernel@.len() == 3,
        valid_weights(kernel@),
        above < src@.len(),
        centre < src@.len(),
        below < src@.len(),
    ensures
        value == {
            let whole = (kernel@[0] * src@[above as int] + kernel@[1] * src@[centre as int]
                + kernel@[2] * src@[below as int]) / (OUTPUT_SCALE as int);
            if whole > 255 {
                255
            } else {
                whole
            }
        },
{
    let k0 = kernel[0] as u64;
    let k1 = kernel[1] as u64;
    let k2 = kernel[2] as u64;
    let a = src[above] as u64;
    let b = src[centre] as u64;
    let c = src[below] as u64;
    proof {
        lemma_total_of_three(kernel@);
        assert(0 <= k0 * a <= 0xffff_ffff * k0 && 0 <= k1 * b <= 0xffff_ffff * k1 && 0 <= k2 * c
            <= 0xffff_ffff * k2) by (nonlinear_arith)
            requires
                0 <= k0,
                0 <= k1,
                0 <= k2,
                0 <= a <= 0xffff_ffff,
                0 <= b <= 0xffff_ffff,
                0 <= c <= 0xffff_ffff,
        ;
    }
    let sum = k0 * a + k1 * b + k2 * c;
    proof {
        assert(sum >> 24 == sum / 16777216) by (bit_vector);
    }
    let result = sum >> OUTPUT_SHIFT;
    if result > 255 {
        255
    } else {
        result as u8
    }
}

/// Horizontal pass for a kernel of three taps: the first and the last
/// pixel of a row repeat themselves in place of the neighbour they lack,
/// the pixels between them read their neighbours without clamping.
fn horizontal_pass_3x3_fixed(src: &[u8], width: usize, height: usize, kernel: &[u32]) -> (dst: Vec<
    u32,
>)
    requires
        src@.len() == width * height,
        valid_weights(kernel@),
        kernel@.len() == 3,
    ensures
        dst@ == blurred_rows(src@, width as int, height as int, kernel@),
{
    let n = src.len();
    let mut dst = vec![0u32; n];
    let ghost target = blurred_rows(src@, width as int, height as int, kernel@);
    assert(0 * width == 0 && height * width == width * height) by (nonlinear_arith);
    if width == 0 {
        assert(dst@ =~= target);
        return dst;
    }
    for y in 0..height
        invariant
            n == width * height,
            height * width == width * height,
            width > 0,
            src@.len() == n,
            dst@.len() == n,
            valid_weights(kernel@),
            kernel@.len() == 3,
            target == blurred_rows(src@, width as int, height as int, kernel@),
            forall|j: int| 0 <= j < y * width ==> dst@[j] == target[j],
    {
        proof {
            lemma_pixel_index(width as int, height as int, 0, y as int);
            lemma_pixel_index(width as int, height as int, width - 1, y as int);
            lemma_row_sum_of_three(src@, width as int, kernel@, 0, y as int);
        }
        let row_offset = y * width;

        // First pixel: the left tap repeats it.
        let second = if width > 1 {
            row_offset + 1
        } else {
            row_offset
        };
        let first_value = three_row_taps(src, kernel, row_offset, row_offset, second);
        dst.set(row_offset, first_value);
        assert(dst@[row_offset as int] == target[row_offset as int]);

        let middle_end = if width > 1 {
            width - 1
        } else {
            1
        };
        for x in 1..middle_end
            invariant
                middle_end == if width > 1 {
                    width - 1
                } else {
                    1
                },
                y < height,
                row_offset == y * width,
                n == width * height,
                width > 0,
                src@.len() == n,
                dst@.len() == n,
                valid_weights(kernel@),
                kernel@.len() == 3,
                target == blurred_rows(src@, width as int, height as int, kernel@),
                forall|j: int| 0 <= j < y * width + x ==> dst@[j] == target[j],
        {
            proof {
                lemma_pixel_index(width as int, height as int, x as int, y as int);
                lemma_row_sum_of_three(src@, width as int, kernel@, x as int, y as int);
            }
            let value = three_row_taps(
                src,
                kernel,
                row_offset + x - 1,
                row_offset + x,
                row_offset + x + 1,
            );
            dst.set(row_offset + x, value);
            assert(dst@[row_offset + x] == target[row_offset + x]);
        }

        // Last pixel: the right tap repeats it.
        if width > 1 {
            let last = width - 1;
            proof {
                lemma_row_sum_of_three(src@, width as int, kernel@, last as int, y as int);
            }
            let last_value = three_row_taps(
                src,
                kernel,
                row_offset + last - 1,
                row_offset + last,
                row_offset + last,
            );
            dst.set(row_offset + last, last_value);
            assert(dst@[row_offset + last] == target[row_offset + last]);
        }
        proof {
            assert((y + 1) * width == y * width + width) by (nonlinear_arith);
        }
    }
    proof {
        assert(dst@ =~= target);
    }
    dst
}

/// Vertical pass for a kernel of three taps: the first and the last row
/// repeat themselves in place of the row they lack, the rows between them
/// read their neighbours without clamping.
fn vertical_pass_3x3_fixed(src: &[u32], width: usize, height: usize, kernel: &[u32]) -> (dst: Vec<
    u8,
>)
    requires
        src@.len() == width * height,
        valid_weights(kernel@),
        kernel@.len() == 3,
    ensures
        dst@ == blurred_columns(src@, width as int, height as int, kernel@),
{
    let n = src.len();
    let mut dst = vec![0u8; n];
    let ghost target = blurred_columns(src@, width as int, height as int, kernel@);
    assert(0 * width == 0 && 1 * width == width && height * width == width * height)
        by (nonlinear_arith);
    if width == 0 || height == 0 {
        assert(n == 0) by (nonlinear_arith)
            requires
                n == width * height,
                width == 0 || height == 0,
        ;
        assert(dst@ =~= target);
        return dst;
    }
    // First row: the upper tap repeats it.
    let second_row = if height > 1 {
        width
    } else {
        0
    };
    for x in 0..width
        invariant
            n == width * height,
            width > 0,
            height > 0,
            second_row == if height > 1 {
                width
            } else {
                0
            },
            src@.len() == n,
            dst@.len() == n,
            valid_weights(kernel@),
            kernel@.len() == 3,
            target == blurred_columns(src@, width as int, height as int, kernel@),
            forall|j: int| 0 <= j < x ==> dst@[j] == target[j],
    {
        proof {
            lemma_pixel_index(width as int, height as int, x as int, 0);
            if height > 1 {
                lemma_pixel_index(width as int, height as int, x as int, 1);
            }
            lemma_column_sum_of_three(src@, width as int, height as int, kernel@, x as int, 0);
        }
        let value = three_column_taps(src, kernel, x, x, second_row + x);
        dst.set(x, value);
    }

    let middle_end = if height > 1 {
        height - 1
    } else {
        1
    };
    for y in 1..middle_end
        invariant
            middle_end == if height > 1 {
                height - 1
            } else {
                1
            },
            n == width * height,
            width > 0,
            height > 0,
            src@.len() == n,
            dst@.len() == n,
            valid_weights(kernel@),
            kernel@.len() == 3,
            target == blurred_columns(src@, width as int, height as int, kernel@),
            forall|j: int| 0 <= j < y * width ==> dst@[j] == target[j],
    {
        proof {
            lemma_pixel_index(width as int, height as int, 0, y as int);
            assert((y - 1) * width == y * width - width && (y + 1) * width == y * width + width)
                by (nonlinear_arith);
        }
        let row_offset = y * width;
        for x in 0..width
            invariant
                1 <= y < height - 1,
                row_offset == y * width,
                (y - 1) * width == y * width - width,
                (y + 1) * width == y * width + width,
                n == width * height,
                src@.len() == n,
                dst@.len() == n,
                valid_weights(kernel@),
                kernel@.len() == 3,
                target == blurred_columns(src@, width as int, height as int, kernel@),
                forall|j: int| 0 <= j < y * width + x ==> dst@[j] == target[j],
        {
            proof {
                lemma_pixel_index(width as int, height as int, x as int, y as int);
                lemma_pixel_index(width as int, height as int, x as int, y - 1);
                lemma_pixel_index(width as int, height as int, x as int, y + 1);
                lemma_column_sum_of_three(
                    src@,
                    width as int,
                    height as int,
                    kernel@,
                    x as int,
                    y as int,
                );
            }
            let value = three_column_taps(
                src,
                kernel,
                row_offset - width + x,
                row_offset + x,
                row_offset + width + x,
            );
            dst.set(row_offset + x, value);
        }
    }

    // Last row: the lower tap repeats it.
    if height > 1 {
        let y = height - 1;
        proof {
            lemma_pixel_index(width as int, height as int, 0, y as int);
            assert((y - 1) * width == y * width - width) by (nonlinear_arith);
        }
        let row_offset = y * width;
        for x in 0..width
            invariant
                y == height - 1,
                y >= 1,
                row_offset == y * width,
                (y - 1) * width == y * width - width,
                n == width * height,
                src@.len() == n,
                dst@.len() == n,
                valid_weights(kernel@),
                kernel@.len() == 3,
                target == blurred_columns(src@, width as int, height as int, kernel@),
                forall|j: int| 0 <= j < y * width + x ==> dst@[j] == target[j],
        {
            proof {
                lemma_pixel_index(width as int, height as int, x as int, y as int);
                lemma_pixel_index(width as int, height as int, x as int, y - 1);
                lemma_column_sum_of_three(
                    src@,
                    width as int,
                    height as int,
                    kernel@,
                    x as int,
                    y as int,
                );
            }
            let value = three_column_taps(
                src,
                kernel,
                row_offset - width + x,
                row_offset + x,
                row_offset + x,
            );
            dst.set(row_offset + x, value);
        }
        proof {
            assert((y + 1) * width == y * width + width) by (nonlinear_arith);
        }
    }
    proof {
        assert(dst@ =~= target);
    }
    dst
}

/// Horizontal pass: convolves every row with the kernel and stores the
/// sums at scale 2^8.
fn horizontal_pass_fixed(src: &[u8], width: usize, height: usize, kernel: &[u32]) -> (dst: Vec<
    u32,
>)
    requires
        src@.len() == width * height,
        valid_weights(kernel@),
    ensures
        dst@ == blurred_rows(src@, width as int, height as int, kernel@),
{
    if kernel.len() == 3 {
        return horizontal_pass_3x3_fixed(src, width, height, kernel);
    }
    let n = src.len();
    let mut dst = vec![0u32; n];
    assert(0 * width == 0 && height * width == width * height) by (nonlinear_arith);
    for y in 0..height
        invariant
            n == width * height,
            height * width == width * height,
            src@.len() == n,
            dst@.len() == n,
            valid_weights(kernel@),
            forall|j: int|
                0 <= j < y * width ==> dst@[j] == blurred_rows(
                    src@,
                    width as int,
                    height as int,
                    kernel@,
                )[j],
    {
        for x in 0..width
            invariant
                y < height,
                n == width * height,
                src@.len() == n,
                dst@.len() == n,
                valid_weights(kernel@),
                forall|j: int|
                    0 <= j < y * width + x ==> dst@[j] == blurred_rows(
                        src@,
                        width as int,
                        height as int,
                        kernel@,
                    )[j],
        {
            let value = row_pixel(src, width, height, kernel, x, y);
            proof {
                lemma_pixel_index(width as int, height as int, x as int, y as int);
            }
            dst.set(y * width + x, value);
        }
        proof {
            assert((y + 1) * width == y * width + width) by (nonlinear_arith);
        }
    }
    proof {
        assert(dst@ =~= blurred_rows(src@, width as int, height as int, kernel@));
    }
    dst
}

/// Vertical pass: convolves every column with the kernel and stores the
/// sums as whole intensities, saturated at 255.
fn vertical_pass_fixed(src: &[u32], width: usize, height: usize, kernel: &[u32]) -> (dst: Vec<u8>)
    requires
        src@.len() == width * height,
        valid_weights(kernel@),
    ensures
        dst@ == blurred_columns(src@, width as int, height as int, kernel@),
{
    if kernel.len() == 3 {
        return vertical_pass_3x3_fixed(src, width, height, kernel);
    }
    let n = src.len();
    let mut dst = vec![0u8; n];
    assert(0 * width == 0 && height * width == width * height) by (nonlinear_arith);
    for y in 0..height
        invariant
            n == width * height,
            height * width == width * height,
            src@.len() == n,
            dst@.len() == n,
            valid_weights(kernel@),
            forall|j: int|
                0 <= j < y * width ==> dst@[j] == blurred_columns(
                    src@,
                    width as int,
                    height as int,
                    kernel@,
                )[j],
    {
        for x in 0..width
            invariant
                y < height,
                n == width * height,
                src@.len() == n,
                dst@.len() == n,
                valid_weights(kernel@),
                forall|j: int|
                    0 <= j < y * width + x ==> dst@[j] == blurred_columns(
                        src@,
                        width as int,
                        height as int,
                        kernel@,
                    )[j],
        {
            let value = column_pixel(src, width, height, kernel, x, y);
            proof {
                lemma_pixel_index(width as int, height as int, x as int, y as int);
            }
            dst.set(y * width + x, value);
        }
        proof {
            assert((y + 1) * width == y * width + width) by (nonlinear_arith);
        }
    }
    proof {
        assert(dst@ =~= blurred_columns(src@, width as int, height as int, kernel@));
    }
    dst
}

/// Blurs a grayscale raster with a separable kernel: a horizontal pass
/// followed by a vertical pass, both with replicate-edge addressing.
pub fn blur(grayscale: &[u8], width: usize, height: usize, kernel: &Kernel) -> (result: Vec<u8>)
    requires
        grayscale@.len() == width * height,
    ensures
        result@ == blurred(grayscale@, width as int, height as int, kernel@),
{
    let kernel_fixed = kernel.weights();
    let temp_buffer = horizontal_pass_fixed(grayscale, width, height, kernel_fixed);
    vertical_pass_fixed(temp_buffer.as_slice(), width, height, kernel_fixed)
}

/// Blurring with the one-tap kernel of weight 1.0 leaves every raster as
/// it is.
pub proof fn lemma_unit_kernel_is_identity(src: Seq<u8>, width: int, height: int)
    requires
        src.len() == width * height,
        0 <= width,
    ensures
        blurred(src, width, height, seq![FIXED_POINT_ONE]) == src,
{
    let weights = seq![FIXED_POINT_ONE];
    let mid = blurred_rows(src, width, height, weights);
    let out = blurred(src, width, height, weights);
    assert(weights.len() == 1);
    assert(weights[0] == 65536);
    assert forall|i: int| 0 <= i < src.len() implies #[trigger] mid[i] == 256 * src[i] by {
        lemma_pixel_coordinates(width, height, i);
        let x = i % width;
        let y = i / width;
        assert(row_tap(width, x, y, 0, 1) == i);
        reveal_with_fuel(row_sum, 2);
        assert(row_sum(src, width, weights, x, y, 1) == 65536 * src[i]);
    }
    assert forall|i: int| 0 <= i < src.len() implies out[i] == src[i] by {
        lemma_pixel_coordinates(width, height, i);
        let x = i % width;
        let y = i / width;
        assert(column_tap(width, height, x, y, 0, 1) == i);
        reveal_with_fuel(column_sum, 2);
        assert(mid[i] == 256 * src[i]);
        assert(column_sum(mid, width, height, weights, x, y, 1) == 65536 * mid[i]);
    }
    assert(out =~= src);
}

/// On a raster of one value, a row sum is that value times the weights
/// taken.
proof fn lemma_flat_row_sum(
    src: Seq<u8>,
    width: int,
    height: int,
    weights: Seq<u32>,
    value: u8,
    x: int,
    y: int,
    n: int,
)
    requires
        src.len() == width * height,
        forall|i: int| 0 <= i < src.len() ==> src[i] == value,
        0 <= x < width,
        0 <= y < height,
        0 <= n,
    ensures
        row_sum(src, width, weights, x, y, n) == kernel_total(weights, n) * value,
    decreases n,
{
    if n > 0 {
        lemma_flat_row_sum(src, width, height, weights, value, x, y, n - 1);
        lemma_pixel_index(width, height, clamped(x, n - 1 - weights.len() / 2, width), y);
        let rest = kernel_total(weights, n - 1);
        let w = weights[n - 1];
        assert((rest + w) * value == rest * value + w * value) by (nonlinear_arith);
    }
}

/// On a raster of one value, a column sum is that value times the weights
/// taken.
proof fn lemma_flat_column_sum(
    mid: Seq<u32>,
    width: int,
    height: int,
    weights: Seq<u32>,
    value: u32,
    x: int,
    y: int,
    n: int,
)
    requires
        mid.len() == width * height,
        forall|i: int| 0 <= i < mid.len() ==> mid[i] == value,
        0 <= x < width,
        0 <= y < height,
        0 <= n,
    ensures
        column_sum(mid, width, height, weights, x, y, n) == kernel_total(weights, n) * value,
    decreases n,
{
    if n > 0 {
        lemma_flat_column_sum(mid, width, height, weights, value, x, y, n - 1);
        lemma_pixel_index(width, height, x, clamped(y, n - 1 - weights.len() / 2, height));
        let rest = kernel_total(weights, n - 1);
        let w = weights[n - 1];
        assert((rest + w) * value == rest * value + w * value) by (nonlinear_arith);
    }
}

/// A kernel whose weights sum to exactly 1.0 leaves a raster of one value
/// as it is.
pub proof fn lemma_normalised_kernel_keeps_flat(
    src: Seq<u8>,
    width: int,
    height: int,
    weights: Seq<u32>,
    value: u8,
)
    requires
        src.len() == width * height,
        0 <= width,
        forall|i: int| 0 <= i < src.len() ==> src[i] == value,
        kernel_total(weights, weights.len() as int) == FIXED_POINT_ONE,
    ensures
        blurred(src, width, height, weights) == src,
{
    let mid = blurred_rows(src, width, height, weights);
    let out = blurred(src, width, height, weights);
    let size = weights.len() as int;
    assert forall|i: int| 0 <= i < mid.len() implies mid[i] == 256 * value by {
        lemma_pixel_coordinates(width, height, i);
        lemma_flat_row_sum(src, width, height, weights, value, i % width, i / width, size);
        assert(65536 * value / 256 == 256 * value);
    }
    assert forall|i: int| 0 <= i < src.len() implies out[i] == src[i] by {
        lemma_pixel_coordinates(width, height, i);
        lemma_flat_column_sum(
            mid,
            width,
            height,
            weights,
            (256 * value) as u32,
            i % width,
            i / width,
            size,
        );
        assert(65536 * (256 * value) / 16777216 == value);
    }
    assert(out =~= src);
}

} // verus!
