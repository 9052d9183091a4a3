//! Central-difference gradients of a blurred raster.

use vstd::prelude::*;
use crate::raster::{is_interior, lemma_pixel_coordinates, lemma_pixel_index, scanned};

verus! {

/// Horizontal derivative at pixel `i`: right neighbour minus left
/// neighbour for an interior pixel, 0 on the border.
pub open spec fn gradient_x(blurred: Seq<u8>, width: int, height: int, i: int) -> int {
    if is_interior(width, height, i) {
        blurred[i + 1] - blurred[i - 1]
    } else {
        0
    }
}

/// Vertical derivative at pixel `i`: lower neighbour minus upper neighbour
/// for an interior pixel, 0 on the border.
pub open spec fn gradient_y(blurred: Seq<u8>, width: int, height: int, i: int) -> int {
    if is_interior(width, height, i) {
        blurred[i + width] - blurred[i - width]
    } else {
        0
    }
}

/// The gradient field, interleaved: entry `2 * i` holds the horizontal and
/// entry `2 * i + 1` the vertical derivative of pixel `i`.
pub open spec fn gradients(blurred: Seq<u8>, width: int, height: int) -> Seq<i16> {
    Seq::new(
        (2 * (width * height)) as nat,
        |k: int|
            if k % 2 == 0 {
                gradient_x(blurred, width, height, k / 2) as i16
            } else {
                gradient_y(blurred, width, height, k / 2) as i16
            },
    )
}

/// Whether every pixel of `image` holds the same value.
pub open spec fn is_constant(image: Seq<u8>) -> bool {
    forall|i: int, j: int|
        0 <= i < image.len() && 0 <= j < image.len() ==> #[trigger] image[i] == #[trigger] image[j]
}

/// Computes the gradient of every pixel by central differences. Border
/// pixels get the gradient (0, 0). A raster of one value has the gradient
/// (0, 0) everywhere.
pub fn calculate_gradients(blurred: &[u8], width: usize, height: usize) -> (result: Vec<i16>)
    requires
        blurred@.len() == width * height,
        2 * (width * height) <= usize::MAX,
    ensures
        result@ == gradients(blurred@, width as int, height as int),
        is_constant(blurred@) ==> forall|k: int|
            0 <= k < result@.len() ==> #[trigger] result@[k] == 0,
{
    let size = blurred.len();
    let mut result = vec![0i16; 2 * size];
    let ghost target = gradients(blurred@, width as int, height as int);
    if width >= 3 && height >= 3 {
        for y in 1..height - 1
            invariant
                size == width * height,
                2 * size <= usize::MAX,
                blurred@.len() == size,
                width >= 3,
                height >= 3,
                result@.len() == 2 * size,
                target == gradients(blurred@, width as int, height as int),
                forall|k: int|
                    0 <= k < 2 * size ==> #[trigger] result@[k] == if scanned(
                        width as int,
                        0,
                        y as int,
                        k / 2,
                    ) {
                        target[k]
                    } else {
                        0i16
                    },
        {
            for x in 1..width - 1
                invariant
                    size == width * height,
                    2 * size <= usize::MAX,
                    blurred@.len() == size,
                    width >= 3,
                    1 <= y < height - 1,
                    result@.len() == 2 * size,
                    target == gradients(blurred@, width as int, height as int),
                    forall|k: int|
                        0 <= k < 2 * size ==> #[trigger] result@[k] == if scanned(
                            width as int,
                            x as int,
                            y as int,
                            k / 2,
                        ) {
                            target[k]
                        } else {
                            0i16
                        },
            {
                proof {
                    lemma_pixel_index(width as int, height as int, x as int, y as int);
                    lemma_pixel_index(width as int, height as int, x as int, y - 1);
                    lemma_pixel_index(width as int, height as int, x as int, y + 1);
                    assert((y - 1) * width == y * width - width && (y + 1) * width == y * width
                        + width) by (nonlinear_arith);
                }
                let idx = y * width + x;
                let gx = blurred[idx + 1] as i16 - blurred[idx - 1] as i16;
                let gy = blurred[idx + width] as i16 - blurred[idx - width] as i16;
                let ghost before = result@;
                result.set(2 * idx, gx);
                result.set(2 * idx + 1, gy);
                proof {
                    assert(is_interior(width as int, height as int, idx as int));
                    assert forall|k: int| 0 <= k < 2 * size implies #[trigger] result@[k]
                        == if scanned(width as int, x + 1, y as int, k / 2) {
                        target[k]
                    } else {
                        0i16
                    } by {
                        lemma_pixel_coordinates(width as int, height as int, k / 2);
                        if k / 2 != idx {
                            assert(result@[k] == before[k]);
                        }
                    }
                }
            }
        }
    }
    proof {
        assert forall|k: int| 0 <= k < 2 * size implies result@[k] == target[k] by {
            lemma_pixel_coordinates(width as int, height as int, k / 2);
        }
        assert(result@ =~= target);
        if is_constant(blurred@) {
            assert forall|k: int| 0 <= k < result@.len() implies #[trigger] result@[k] == 0 by {
                lemma_constant_image_has_no_gradient(
                    blurred@,
                    width as int,
                    height as int,
                    blurred@[0],
                    k,
                );
            }
        }
    }
    result
}

/// On a raster of one value the gradient vanishes everywhere, whatever
/// the size of the raster.
pub proof fn lemma_constant_image_has_no_gradient(
    blurred: Seq<u8>,
    width: int,
    height: int,
    value: u8,
    k: int,
)
    requires
        blurred.len() == width * height,
        0 <= width,
        forall|i: int| 0 <= i < blurred.len() ==> blurred[i] == value,
        0 <= k < 2 * (width * height),
    ensures
        gradients(blurred, width, height)[k] == 0,
{
    let i = k / 2;
    if is_interior(width, height, i) {
        lemma_pixel_coordinates(width, height, i);
        lemma_pixel_index(width, height, i % width, i / width - 1);
        lemma_pixel_index(width, height, i % width, i / width + 1);
        assert((i / width - 1) * width == (i / width) * width - width && (i / width + 1) * width
            == (i / width) * width + width) by (nonlinear_arith);
    }
}

} // verus!
