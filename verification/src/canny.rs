//! The edge detector as a whole: blur, gradients, non-maximum suppression,
//! hysteresis, and dilation on request, in that order.

use vstd::prelude::*;
use crate::dilation::{dilate, dilated, lemma_dilation_keeps_binary};
use crate::gaussian_blur::{blur, blurred, Kernel};
use crate::gradient_calculation::{calculate_gradients, gradients};
use crate::hysteresis::{edge_mask, hysteresis_thresholding_binary, lemma_like_thresholds};
use crate::non_maximum_suppression::{non_maximum_suppression, suppressed_keys};

verus! {

/// The horizontal derivatives of an interleaved gradient field.
pub open spec fn horizontal_gradients(field: Seq<i16>) -> Seq<i16> {
    Seq::new((field.len() / 2) as nat, |i: int| field[2 * i])
}

/// The vertical derivatives of an interleaved gradient field.
pub open spec fn vertical_gradients(field: Seq<i16>) -> Seq<i16> {
    Seq::new((field.len() / 2) as nat, |i: int| field[2 * i + 1])
}

/// The threshold as the keys of the magnitude field meet it. With the L1
/// norm a magnitude reaches the threshold exactly when its key does. With
/// the L2 norm the threshold is squared, and a magnitude reaches the
/// squared threshold `t²` exactly when its key, the square of the
/// magnitude, reaches `t⁴`.
pub open spec fn key_threshold(threshold: int, l2_gradient: bool) -> int {
    if l2_gradient {
        (threshold * threshold) * (threshold * threshold)
    } else {
        threshold
    }
}

/// The edge mask before dilation: each stage applied to the result of the
/// stage before it.
pub open spec fn tracked_edges(
    grayscale: Seq<u8>,
    width: int,
    height: int,
    low: int,
    high: int,
    weights: Seq<u32>,
    l2_gradient: bool,
) -> Seq<u8> {
    let field = gradients(blurred(grayscale, width, height, weights), width, height);
    let suppressed = suppressed_keys(
        horizontal_gradients(field),
        vertical_gradients(field),
        width,
        height,
        l2_gradient,
    );
    edge_mask(
        suppressed,
        width,
        height,
        key_threshold(low, l2_gradient),
        key_threshold(high, l2_gradient),
    )
}

/// The final edge mask: the tracked edges, dilated where that is asked
/// for.
pub open spec fn canny_edges(
    grayscale: Seq<u8>,
    width: int,
    height: int,
    low: int,
    high: int,
    weights: Seq<u32>,
    l2_gradient: bool,
    apply_dilation: bool,
    dilation_kernel_size: int,
) -> Seq<u8> {
    let edges = tracked_edges(grayscale, width, height, low, high, weights, l2_gradient);
    if apply_dilation {
        dilated(edges, width, height, dilation_kernel_size)
    } else {
        edges
    }
}

/// Least key threshold above every 32-bit key.
pub const UNREACHED: u64 = 0x1_0000_0000;

/// The key threshold, brought into the range of the keys: below 0 it is 0,
/// above every key it is `UNREACHED`. Every 32-bit key meets the result as
/// it meets `key_threshold`.
fn adjust_threshold(threshold: i32, l2_gradient: bool) -> (adjusted: u64)
    ensures
        adjusted == {
            let exact = key_threshold(threshold as int, l2_gradient);
            if exact <= 0 {
                0
            } else if exact >= UNREACHED {
                UNREACHED as int
            } else {
                exact
            }
        },
{
    if !l2_gradient {
        if threshold < 0 {
            0
        } else {
            threshold as u64
        }
    } else {
        let size: u64 = if threshold < 0 {
            (-(threshold as i64)) as u64
        } else {
            threshold as u64
        };
        assert(size * size == threshold * threshold && size * size <= 0x8000_0000 * 0x8000_0000)
            by (nonlinear_arith)
            requires
                size == threshold || size == -threshold,
                0 <= size <= 0x8000_0000,
        ;
        let squared = size * size;
        if squared >= 0x1_0000 {
            assert(squared * squared >= 0x1_0000_0000) by (nonlinear_arith)
                requires
                    squared >= 0x1_0000,
            ;
            UNREACHED
        } else {
            assert(squared * squared < 0x1_0000_0000) by (nonlinear_arith)
                requires
                    0 <= squared < 0x1_0000,
            ;
            squared * squared
        }
    }
}

/// Detects the edges of a grayscale raster.
///
/// The raster is blurred with `kernel`; the gradient of the blurred raster
/// is taken by central differences; magnitudes that are no maximum along
/// the gradient are suppressed; the thresholds, squared with the L2 norm,
/// select and track the edges; and the mask is dilated where
/// `apply_dilation` is set. The result holds 255 at an edge pixel and 0
/// elsewhere.
///
/// With the L1 norm a pixel is a seed where `|dx| + |dy|` reaches
/// `high_threshold`. With the L2 norm it is a seed where
/// `sqrt(dx² + dy²)` reaches the square of `high_threshold`; the low
/// threshold goes alike.
pub fn canny_edge_detector_full(
    grayscale: &[u8],
    width: usize,
    height: usize,
    low_threshold: i32,
    high_threshold: i32,
    kernel: &Kernel,
    l2_gradient: bool,
    apply_dilation: bool,
    dilation_kernel_size: usize,
) -> (canny_edges_mask: Vec<u8>)
    requires
        grayscale@.len() == width * height,
        2 * (width * height) <= usize::MAX,
    ensures
        canny_edges_mask@ == canny_edges(
            grayscale@,
            width as int,
            height as int,
            low_threshold as int,
            high_threshold as int,
            kernel@,
            l2_gradient,
            apply_dilation,
            dilation_kernel_size as int,
        ),
{
    let size = grayscale.len();
    let blurred_image = blur(grayscale, width, height, kernel);

    let field = calculate_gradients(blurred_image.as_slice(), width, height);
    let mut dx_i16: Vec<i16> = Vec::with_capacity(size);
    let mut dy_i16: Vec<i16> = Vec::with_capacity(size);
    for i in 0..size
        invariant
            size == width * height,
            2 * size <= usize::MAX,
            field@.len() == 2 * size,
            dx_i16@.len() == i,
            dy_i16@.len() == i,
            forall|j: int| 0 <= j < i ==> dx_i16@[j] == field@[2 * j],
            forall|j: int| 0 <= j < i ==> dy_i16@[j] == field@[2 * j + 1],
    {
        dx_i16.push(field[2 * i]);
        dy_i16.push(field[2 * i + 1]);
    }
    proof {
        assert(dx_i16@ =~= horizontal_gradients(field@));
        assert(dy_i16@ =~= vertical_gradients(field@));
    }

    let suppressed = non_maximum_suppression(
        dx_i16.as_slice(),
        dy_i16.as_slice(),
        width,
        height,
        l2_gradient,
    );

    let final_low_threshold = adjust_threshold(low_threshold, l2_gradient);
    let final_high_threshold = adjust_threshold(high_threshold, l2_gradient);
    let mut canny_edges_mask = hysteresis_thresholding_binary(
        suppressed.keys(),
        width,
        height,
        final_low_threshold,
        final_high_threshold,
    );
    proof {
        lemma_like_thresholds(
            suppressed@,
            width as int,
            height as int,
            final_low_threshold as int,
            final_high_threshold as int,
            key_threshold(low_threshold as int, l2_gradient),
            key_threshold(high_threshold as int, l2_gradient),
        );
    }

    if apply_dilation {
        canny_edges_mask = dilate(canny_edges_mask.as_slice(), width, height, dilation_kernel_size);
    }
    canny_edges_mask
}

/// The detector's result is a binary mask: every pixel is 0 or 255,
/// dilated or not.
pub proof fn lemma_canny_edges_binary(
    grayscale: Seq<u8>,
    width: int,
    height: int,
    low: int,
    high: int,
    weights: Seq<u32>,
    l2_gradient: bool,
    apply_dilation: bool,
    dilation_kernel_size: int,
    i: int,
)
    requires
        0 <= width,
        0 <= height,
        0 <= i < width * height,
    ensures
        ({
            let pixel = canny_edges(
                grayscale,
                width,
                height,
                low,
                high,
                weights,
                l2_gradient,
                apply_dilation,
                dilation_kernel_size,
            )[i];
            pixel == 0 || pixel == 255
        }),
{
    let edges = tracked_edges(grayscale, width, height, low, high, weights, l2_gradient);
    if apply_dilation {
        lemma_dilation_keeps_binary(edges, width, height, dilation_kernel_size, i);
    }
}

/// A whole length reaches the squared threshold exactly when its square
/// reaches the key threshold of the L2 norm; a whole L1 magnitude is its
/// own key.
pub proof fn lemma_key_threshold_meets_length(length: int, threshold: int)
    requires
        0 <= length,
    ensures
        length >= threshold * threshold <==> length * length >= key_threshold(threshold, true),
        length >= threshold <==> length >= key_threshold(threshold, false),
{
    let squared = threshold * threshold;
    assert(0 <= squared) by (nonlinear_arith)
        requires
            squared == threshold * threshold,
    ;
    assert(length >= squared <==> length * length >= squared * squared) by (nonlinear_arith)
        requires
            0 <= length,
            0 <= squared,
    ;
}

} // verus!
