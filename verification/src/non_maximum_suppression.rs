//! Gradient magnitude and non-maximum suppression along the gradient
//! direction.
//!
//! With the L1 norm the magnitude of a gradient is `|dx| + |dy|`; with the
//! L2 norm it is the length `sqrt(dx² + dy²)`. A length is seldom a whole
//! number, so an L2 field is held by the squares of its lengths, under a
//! name of its own: `MagnitudeField::SquaredLengths`. Squaring keeps the
//! order of the lengths, so a length reaches a threshold `t` exactly when
//! its square reaches `t²`.

use vstd::prelude::*;
use vstd::math::abs;
use crate::raster::{is_interior, lemma_pixel_coordinates, lemma_pixel_index, scanned};

verus! {

/// Numerator of the tangent of 67.5 degrees, 2.4142, over
/// `TAN_DENOMINATOR`.
pub const TAN_NUMERATOR: i64 = 24142;

/// Denominator of the tangent of 67.5 degrees.
pub const TAN_DENOMINATOR: i64 = 10000;

/// L1 magnitude of the gradient `(gx, gy)`: `|gx| + |gy|`.
pub open spec fn l1_length(gx: int, gy: int) -> int {
    (abs(gx) + abs(gy)) as int
}

/// Square of the L2 magnitude of the gradient `(gx, gy)`: the magnitude is
/// `sqrt(gx² + gy²)`, its square `gx² + gy²`.
pub open spec fn squared_length(gx: int, gy: int) -> int {
    gx * gx + gy * gy
}

/// The whole number that stands for the magnitude of `(gx, gy)`: the L1
/// magnitude itself, or the square of the L2 magnitude.
pub open spec fn magnitude_key(gx: int, gy: int, l2_gradient: bool) -> int {
    if l2_gradient {
        squared_length(gx, gy)
    } else {
        l1_length(gx, gy)
    }
}

/// The key of every pixel of a gradient field.
pub open spec fn magnitude_keys(dx: Seq<i16>, dy: Seq<i16>, l2_gradient: bool) -> Seq<u32> {
    Seq::new(dx.len(), |i: int| magnitude_key(dx[i] as int, dy[i] as int, l2_gradient) as u32)
}

/// A field of gradient magnitudes, one entry for each pixel.
#[derive(Debug, PartialEq, Eq)]
pub enum MagnitudeField {
    /// L1 norm: each entry is the magnitude `|dx| + |dy|`.
    Lengths(Vec<u32>),
    /// L2 norm: each entry is the square of the magnitude, so that the
    /// magnitude `sqrt(dx² + dy²)` is the square root of the entry.
    SquaredLengths(Vec<u32>),
}

impl MagnitudeField {
    /// The entries: lengths or squared lengths, as `is_squared` tells.
    pub open spec fn view(&self) -> Seq<u32> {
        match self {
            MagnitudeField::Lengths(values) => values@,
            MagnitudeField::SquaredLengths(values) => values@,
        }
    }

    /// Whether the entries are squares of the magnitudes.
    pub open spec fn squared(&self) -> bool {
        self is SquaredLengths
    }

    /// Whether the entries are squares of the magnitudes.
    pub fn is_squared(&self) -> (squared: bool)
        ensures
            squared == self.squared(),
    {
        match self {
            MagnitudeField::Lengths(_) => false,
            MagnitudeField::SquaredLengths(_) => true,
        }
    }

    /// The entries: lengths or squared lengths, as `is_squared` tells. Keys
    /// of one field compare as its magnitudes do.
    pub fn keys(&self) -> (keys: &[u32])
        ensures
            keys@ == self@,
    {
        match self {
            MagnitudeField::Lengths(values) => values.as_slice(),
            MagnitudeField::SquaredLengths(values) => values.as_slice(),
        }
    }
}

/// Whether the gradient is steeper than 67.5 degrees: `|gy| > 2.4142 |gx|`.
pub open spec fn is_vertical(gx: int, gy: int) -> bool {
    abs(gy) * TAN_DENOMINATOR > abs(gx) * TAN_NUMERATOR
}

/// Whether the gradient is flatter than 22.5 degrees: `|gx| > 2.4142 |gy|`.
pub open spec fn is_horizontal(gx: int, gy: int) -> bool {
    abs(gx) * TAN_DENOMINATOR > abs(gy) * TAN_NUMERATOR
}

/// Whether both components are positive or both are negative.
pub open spec fn same_sign(gx: int, gy: int) -> bool {
    (gx > 0 && gy > 0) || (gx < 0 && gy < 0)
}

/// Distance in the raster from a pixel to each of the two neighbours that
/// its gradient selects: the pixels above and below for a vertical
/// gradient, left and right for a horizontal one, top-right and
/// bottom-left for a diagonal one whose components agree in sign, and
/// top-left and bottom-right for the other diagonal.
pub open spec fn neighbour_offset(width: int, gx: int, gy: int) -> int {
    if is_vertical(gx, gy) {
        width
    } else if is_horizontal(gx, gy) {
        1
    } else if same_sign(gx, gy) {
        width - 1
    } else {
        width + 1
    }
}

/// Key of pixel `i` after suppression: an interior pixel keeps its
/// magnitude if that is at least the magnitude of both selected
/// neighbours; every other pixel is 0.
pub open spec fn suppressed_key(
    dx: Seq<i16>,
    dy: Seq<i16>,
    width: int,
    height: int,
    l2_gradient: bool,
    i: int,
) -> u32 {
    let field = magnitude_keys(dx, dy, l2_gradient);
    let offset = neighbour_offset(width, dx[i] as int, dy[i] as int);
    if is_interior(width, height, i) && field[i] >= field[i - offset] && field[i] >= field[i
        + offset] {
        field[i]
    } else {
        0
    }
}

/// The keys of the suppressed magnitude field of a gradient field.
pub open spec fn suppressed_keys(
    dx: Seq<i16>,
    dy: Seq<i16>,
    width: int,
    height: int,
    l2_gradient: bool,
) -> Seq<u32> {
    Seq::new(
        (width * height) as nat,
        |i: int| suppressed_key(dx, dy, width, height, l2_gradient, i),
    )
}

/// Every key fits in 32 bits.
pub proof fn lemma_magnitude_bound(gx: i16, gy: i16, l2_gradient: bool)
    ensures
        0 <= magnitude_key(gx as int, gy as int, l2_gradient) <= 0x8000_0000,
{
    assert(0 <= gx * gx <= 0x4000_0000) by (nonlinear_arith)
        requires
            -0x8000 <= gx <= 0x8000,
    ;
    assert(0 <= gy * gy <= 0x4000_0000) by (nonlinear_arith)
        requires
            -0x8000 <= gy <= 0x8000,
    ;
}

/// Computes the magnitude of every pixel of a gradient field.
fn calculate_magnitude(dx: &[i16], dy: &[i16], l2_gradient: bool) -> (magnitude_field: Vec<u32>)
    requires
        dx@.len() == dy@.len(),
    ensures
        magnitude_field@ == magnitude_keys(dx@, dy@, l2_gradient),
{
    let n = dx.len();
    let mut magnitude_field = vec![0u32; n];
    for i in 0..n
        invariant
            n == dx@.len(),
            n == dy@.len(),
            magnitude_field@.len() == n,
            forall|j: int|
                0 <= j < i ==> #[trigger] magnitude_field@[j] == magnitude_key(
                    dx@[j] as int,
                    dy@[j] as int,
                    l2_gradient,
                ) as u32,
    {
        let gx = dx[i] as i64;
        let gy = dy[i] as i64;
        proof {
            lemma_magnitude_bound(dx@[i as int], dy@[i as int], l2_gradient);
        }
        if l2_gradient {
            assert(0 <= gx * gx <= 0x4000_0000) by (nonlinear_arith)
                requires
                    -0x8000 <= gx <= 0x8000,
            ;
            assert(0 <= gy * gy <= 0x4000_0000) by (nonlinear_arith)
                requires
                    -0x8000 <= gy <= 0x8000,
            ;
            magnitude_field.set(i, (gx * gx + gy * gy) as u32);
        } else {
            let abs_gx = if gx < 0 {
                -gx
            } else {
                gx
            };
            let abs_gy = if gy < 0 {
                -gy
            } else {
                gy
            };
            magnitude_field.set(i, (abs_gx + abs_gy) as u32);
        }
    }
    proof {
        assert(magnitude_field@ =~= magnitude_keys(dx@, dy@, l2_gradient));
    }
    magnitude_field
}

/// Computes the gradient magnitude of every pixel and keeps it only where
/// it is a maximum along the gradient direction.
///
/// The direction of the gradient at an interior pixel selects two of its
/// eight neighbours; the pixel keeps its magnitude if that is at least the
/// magnitude of both, and becomes 0 otherwise. Border pixels are 0. With
/// the L1 norm the field holds the magnitudes `|dx| + |dy|`; with the L2
/// norm it holds the squares `dx² + dy²` of the magnitudes
/// `sqrt(dx² + dy²)`.
pub fn non_maximum_suppression(
    dx: &[i16],
    dy: &[i16],
    width: usize,
    height: usize,
    l2_gradient: bool,
) -> (field: MagnitudeField)
    requires
        dx@.len() == width * height,
        dy@.len() == width * height,
    ensures
        field.squared() == l2_gradient,
        field@ == suppressed_keys(dx@, dy@, width as int, height as int, l2_gradient),
{
    let n = dx.len();
    let magnitude_field = calculate_magnitude(dx, dy, l2_gradient);
    let mut suppressed = vec![0u32; n];
    let ghost target = suppressed_keys(dx@, dy@, width as int, height as int, l2_gradient);
    if width >= 3 && height >= 3 {
        for y in 1..height - 1
            invariant
                n == width * height,
                dx@.len() == n,
                dy@.len() == n,
                width >= 3,
                height >= 3,
                magnitude_field@ == magnitude_keys(dx@, dy@, l2_gradient),
                suppressed@.len() == n,
                target == suppressed_keys(dx@, dy@, width as int, height as int, l2_gradient),
                forall|j: int|
                    0 <= j < n ==> #[trigger] suppressed@[j] == if scanned(
                        width as int,
                        0,
                        y as int,
                        j,
                    ) {
                        target[j]
                    } else {
                        0u32
                    },
        {
            for x in 1..width - 1
                invariant
                    n == width * height,
                    dx@.len() == n,
                    dy@.len() == n,
                    width >= 3,
                    1 <= y < height - 1,
                    magnitude_field@ == magnitude_keys(dx@, dy@, l2_gradient),
                    suppressed@.len() == n,
                    target == suppressed_keys(dx@, dy@, width as int, height as int, l2_gradient),
                    forall|j: int|
                        0 <= j < n ==> #[trigger] suppressed@[j] == if scanned(
                            width as int,
                            x as int,
                            y as int,
                            j,
                        ) {
                            target[j]
                        } else {
                            0u32
                        },
            {
                proof {
                    lemma_pixel_index(width as int, height as int, x as int, y as int);
                    lemma_pixel_index(width as int, height as int, x as int, y - 1);
                    lemma_pixel_index(width as int, height as int, x as int, y + 1);
                    assert((y - 1) * width == y * width - width && (y + 1) * width == y * width
                        + width) by (nonlinear_arith);
                }
                let idx = y * width + x;
                let mag = magnitude_field[idx];
                let ghost before = suppressed@;
                if mag != 0 {
                    let gx = dx[idx] as i64;
                    let gy = dy[idx] as i64;
                    let abs_gx = if gx < 0 {
                        -gx
                    } else {
                        gx
                    };
                    let abs_gy = if gy < 0 {
                        -gy
                    } else {
                        gy
                    };
                    let (neighbor1, neighbor2) = if abs_gy * TAN_DENOMINATOR > abs_gx
                        * TAN_NUMERATOR {
                        (magnitude_field[idx - width], magnitude_field[idx + width])
                    } else if abs_gx * TAN_DENOMINATOR > abs_gy * TAN_NUMERATOR {
                        (magnitude_field[idx - 1], magnitude_field[idx + 1])
                    } else if (gx > 0 && gy > 0) || (gx < 0 && gy < 0) {
                        (magnitude_field[idx - width + 1], magnitude_field[idx + width - 1])
                    } else {
                        (magnitude_field[idx - width - 1], magnitude_field[idx + width + 1])
                    };
                    if mag >= neighbor1 && mag >= neighbor2 {
                        suppressed.set(idx, mag);
                    }
                }
                proof {
                    assert(is_interior(width as int, height as int, idx as int));
                    assert(suppressed@[idx as int] == target[idx as int]);
                    assert forall|j: int| 0 <= j < n implies #[trigger] suppressed@[j]
                        == if scanned(width as int, x + 1, y as int, j) {
                        target[j]
                    } else {
                        0u32
                    } by {
                        lemma_pixel_coordinates(width as int, height as int, j);
                        if j != idx {
                            assert(suppressed@[j] == before[j]);
                        }
                    }
                }
            }
        }
    }
    proof {
        assert forall|j: int| 0 <= j < n implies suppressed@[j] == target[j] by {
            lemma_pixel_coordinates(width as int, height as int, j);
        }
        assert(suppressed@ =~= target);
    }
    if l2_gradient {
        MagnitudeField::SquaredLengths(suppressed)
    } else {
        MagnitudeField::Lengths(suppressed)
    }
}

/// A peak along a row survives and clears its sides: where the gradient is
/// purely horizontal at an interior pixel and at its left and right
/// neighbours, and the pixel's magnitude exceeds both of theirs, the pixel
/// keeps its magnitude and both neighbours become 0. The magnitude it
/// keeps is `|dx|` with either norm: the L1 entry is `|dx|`, the L2 entry
/// its square.
pub proof fn lemma_horizontal_peak(
    dx: Seq<i16>,
    dy: Seq<i16>,
    width: int,
    height: int,
    l2_gradient: bool,
    i: int,
)
    requires
        dx.len() == width * height,
        dy.len() == width * height,
        is_interior(width, height, i),
        dy[i - 1] == 0 && dy[i] == 0 && dy[i + 1] == 0,
        magnitude_keys(dx, dy, l2_gradient)[i] > magnitude_keys(dx, dy, l2_gradient)[i - 1],
        magnitude_keys(dx, dy, l2_gradient)[i] > magnitude_keys(dx, dy, l2_gradient)[i + 1],
    ensures
        suppressed_keys(dx, dy, width, height, l2_gradient)[i] == magnitude_keys(
            dx,
            dy,
            l2_gradient,
        )[i],
        suppressed_keys(dx, dy, width, height, l2_gradient)[i - 1] == 0,
        suppressed_keys(dx, dy, width, height, l2_gradient)[i + 1] == 0,
        !l2_gradient ==> suppressed_keys(dx, dy, width, height, l2_gradient)[i] == abs(
            dx[i] as int,
        ),
        l2_gradient ==> suppressed_keys(dx, dy, width, height, l2_gradient)[i] == abs(
            dx[i] as int,
        ) * abs(dx[i] as int),
{
    let field = magnitude_keys(dx, dy, l2_gradient);
    assert(abs(dx[i] as int) * abs(dx[i] as int) == dx[i] * dx[i]) by (nonlinear_arith);
    lemma_pixel_coordinates(width, height, i);
    lemma_pixel_index(width, height, i % width - 1, i / width);
    lemma_pixel_index(width, height, i % width + 1, i / width);
    lemma_magnitude_bound(dx[i - 1], dy[i - 1], l2_gradient);
    lemma_magnitude_bound(dx[i], dy[i], l2_gradient);
    lemma_magnitude_bound(dx[i + 1], dy[i + 1], l2_gradient);
    assert(dx[i] != 0) by {
        if dx[i] == 0 {
            assert(dx[i] * dx[i] == 0);
            assert(field[i] == 0);
        }
    }
    assert(neighbour_offset(width, dx[i] as int, dy[i] as int) == 1);
    if dx[i - 1] == 0 {
        assert(dx[i - 1] * dx[i - 1] == 0);
        assert(field[i - 1] == 0);
    } else {
        assert(neighbour_offset(width, dx[i - 1] as int, dy[i - 1] as int) == 1);
    }
    if dx[i + 1] == 0 {
        assert(dx[i + 1] * dx[i + 1] == 0);
        assert(field[i + 1] == 0);
    } else {
        assert(neighbour_offset(width, dx[i + 1] as int, dy[i + 1] as int) == 1);
    }
}

/// Suppression never invents a value: every entry of the suppressed field
/// is 0 or the magnitude of its own pixel, and every border entry is 0.
pub proof fn lemma_survivor_keeps_own_magnitude(
    dx: Seq<i16>,
    dy: Seq<i16>,
    width: int,
    height: int,
    l2_gradient: bool,
    i: int,
)
    requires
        dx.len() == width * height,
        dy.len() == width * height,
        0 <= i < width * height,
    ensures
        suppressed_keys(dx, dy, width, height, l2_gradient)[i] == 0 || suppressed_keys(
            dx,
            dy,
            width,
            height,
            l2_gradient,
        )[i] == magnitude_key(dx[i] as int, dy[i] as int, l2_gradient),
        !is_interior(width, height, i) ==> suppressed_keys(dx, dy, width, height, l2_gradient)[i]
            == 0,
{
    lemma_magnitude_bound(dx[i], dy[i], l2_gradient);
}

} // verus!
