//! Double-threshold hysteresis: interior pixels at or above the high
//! threshold seed edges, and edges grow through 8-connected pixels at or
//! above the low threshold.
//!
//! Magnitudes and thresholds are whole numbers in one unit. For a field of
//! lengths the thresholds are lengths; for a field of squared lengths they
//! are squares.

use vstd::prelude::*;
use crate::raster::{adjacent, is_interior, lemma_pixel_coordinates, lemma_pixel_index, scanned};

verus! {

/// Edge-map value of a candidate pixel that no edge has reached.
pub const WEAK: u8 = 0;

/// Edge-map value of a pixel that can never be part of an edge.
pub const NON_EDGE: u8 = 1;

/// Edge-map value of an edge pixel.
pub const STRONG: u8 = 2;

/// Whether pixel `i` starts an edge: it is interior and its magnitude
/// reaches the high threshold.
pub open spec fn is_seed(suppressed: Seq<u32>, width: int, height: int, high: int, i: int) -> bool {
    is_interior(width, height, i) && suppressed[i] >= high
}

/// Whether pixel `i` may belong to an edge: it is interior and its
/// magnitude reaches one of the thresholds.
pub open spec fn is_candidate(
    suppressed: Seq<u32>,
    width: int,
    height: int,
    low: int,
    high: int,
    i: int,
) -> bool {
    is_interior(width, height, i) && (suppressed[i] >= high || suppressed[i] >= low)
}

/// Whether `path` leads from a seed through candidates, each adjacent to
/// the one before it.
pub open spec fn is_edge_path(
    suppressed: Seq<u32>,
    width: int,
    height: int,
    low: int,
    high: int,
    path: Seq<int>,
) -> bool {
    &&& path.len() > 0
    &&& is_seed(suppressed, width, height, high, path[0])
    &&& forall|k: int|
        0 <= k < path.len() ==> is_candidate(
            suppressed,
            width,
            height,
            low,
            high,
            #[trigger] path[k],
        )
    &&& forall|k: int| 0 <= k < path.len() - 1 ==> adjacent(width, #[trigger] path[k], path[k + 1])
}

/// Whether pixel `i` is an edge pixel: some path of candidates leads to it
/// from a seed.
pub open spec fn is_edge(
    suppressed: Seq<u32>,
    width: int,
    height: int,
    low: int,
    high: int,
    i: int,
) -> bool {
    exists|path: Seq<int>|
        #[trigger] is_edge_path(suppressed, width, height, low, high, path) && path.last() == i
}

/// Final state of pixel `i`: `STRONG` for an edge pixel, `WEAK` for a
/// candidate that no edge reaches, `NON_EDGE` otherwise.
pub open spec fn edge_state(
    suppressed: Seq<u32>,
    width: int,
    height: int,
    low: int,
    high: int,
    i: int,
) -> u8 {
    if is_edge(suppressed, width, height, low, high, i) {
        STRONG
    } else if is_candidate(suppressed, width, height, low, high, i) {
        WEAK
    } else {
        NON_EDGE
    }
}

/// The tri-state edge map of a suppressed magnitude field.
pub open spec fn edge_states(
    suppressed: Seq<u32>,
    width: int,
    height: int,
    low: int,
    high: int,
) -> Seq<u8> {
    Seq::new(
        (width * height) as nat,
        |i: int| edge_state(suppressed, width, height, low, high, i),
    )
}

/// The binary mask of a tri-state edge map: 255 where the map is `STRONG`.
pub open spec fn binary_mask(states: Seq<u8>) -> Seq<u8> {
    Seq::new(
        states.len(),
        |i: int|
            if states[i] == STRONG {
                255u8
            } else {
                0u8
            },
    )
}

/// The binary edge mask of a suppressed magnitude field: 255 at the edge
/// pixels, 0 elsewhere.
pub open spec fn edge_mask(
    suppressed: Seq<u32>,
    width: int,
    height: int,
    low: int,
    high: int,
) -> Seq<u8> {
    Seq::new(
        (width * height) as nat,
        |i: int|
            if is_edge(suppressed, width, height, low, high, i) {
                255u8
            } else {
                0u8
            },
    )
}

/// State of pixel `i` after thresholding alone, before any growth.
spec fn threshold_state(
    suppressed: Seq<u32>,
    width: int,
    height: int,
    low: int,
    high: int,
    i: int,
) -> u8 {
    if is_seed(suppressed, width, height, high, i) {
        STRONG
    } else if is_candidate(suppressed, width, height, low, high, i) {
        WEAK
    } else {
        NON_EDGE
    }
}

/// Whether `i` is on the work stack.
spec fn on_stack(stack: Seq<usize>, i: int) -> bool {
    exists|k: int| 0 <= k < stack.len() && #[trigger] stack[k] == i
}

/// Number of `WEAK` pixels among the first `n` of `states`.
spec fn weak_count(states: Seq<u8>, n: int) -> nat
    decreases n,
{
    if n <= 0 {
        0
    } else {
        weak_count(states, n - 1) + if states[n - 1] == WEAK {
            1nat
        } else {
            0nat
        }
    }
}

/// What the tracker knows of pixel `i` at every step: its state agrees with
/// its thresholds, seeds are marked, and marked pixels are edge pixels.
spec fn pixel_tracked(
    suppressed: Seq<u32>,
    width: int,
    height: int,
    low: int,
    high: int,
    states: Seq<u8>,
    i: int,
) -> bool {
    &&& states[i] == WEAK || states[i] == NON_EDGE || states[i] == STRONG
    &&& states[i] == NON_EDGE <==> !is_candidate(suppressed, width, height, low, high, i)
    &&& is_seed(suppressed, width, height, high, i) ==> states[i] == STRONG
    &&& states[i] == STRONG ==> is_edge(suppressed, width, height, low, high, i)
}

/// Whether the edge through pixel `i` has been carried on to each of its
/// candidate neighbours.
spec fn pixel_closed(
    suppressed: Seq<u32>,
    width: int,
    height: int,
    low: int,
    high: int,
    states: Seq<u8>,
    i: int,
) -> bool {
    forall|j: int|
        0 <= j < states.len() && #[trigger] adjacent(width, i, j) && is_candidate(
            suppressed,
            width,
            height,
            low,
            high,
            j,
        ) ==> states[j] == STRONG
}

/// The tracker's invariant. `open` is the pixel whose neighbours are being
/// visited, or a negative number between visits.
spec fn tracking(
    suppressed: Seq<u32>,
    width: int,
    height: int,
    low: int,
    high: int,
    states: Seq<u8>,
    stack: Seq<usize>,
    open: int,
) -> bool {
    &&& suppressed.len() == width * height
    &&& states.len() == width * height
    &&& forall|i: int|
        0 <= i < states.len() ==> #[trigger] pixel_tracked(
            suppressed,
            width,
            height,
            low,
            high,
            states,
            i,
        )
    &&& forall|k: int|
        0 <= k < stack.len() ==> 0 <= #[trigger] stack[k] < states.len() && states[stack[k] as int]
            == STRONG && is_interior(width, height, stack[k] as int)
    &&& forall|i: int|
        0 <= i < states.len() && states[i] == STRONG && i != open && !on_stack(stack, i)
            ==> #[trigger] pixel_closed(suppressed, width, height, low, high, states, i)
}

/// Marking a weak pixel strong removes exactly one weak pixel.
proof fn lemma_weak_count_update(states: Seq<u8>, i: int, n: int)
    requires
        0 <= i < states.len(),
        0 <= n <= states.len(),
        states[i] == WEAK,
    ensures
        weak_count(states.update(i, STRONG), n) == if i < n {
            weak_count(states, n) - 1
        } else {
            weak_count(states, n) as int
        },
    decreases n,
{
    if n > 0 {
        lemma_weak_count_update(states, i, n - 1);
    }
}

/// The eight neighbours of an interior pixel lie in the raster, and they
/// are all the pixels adjacent to it.
proof fn lemma_neighbours(width: int, height: int, c: int)
    requires
        is_interior(width, height, c),
    ensures
        width + 1 <= c,
        c + width + 1 < width * height,
        adjacent(width, c, c - width - 1),
        adjacent(width, c, c - width),
        adjacent(width, c, c - width + 1),
        adjacent(width, c, c - 1),
        adjacent(width, c, c + 1),
        adjacent(width, c, c + width - 1),
        adjacent(width, c, c + width),
        adjacent(width, c, c + width + 1),
        forall|j: int|
            0 <= j < width * height && #[trigger] adjacent(width, c, j) ==> j == c - width - 1 || j
                == c - width || j == c - width + 1 || j == c - 1 || j == c + 1 || j == c + width
                - 1 || j == c + width || j == c + width + 1,
{
    let x = c % width;
    let y = c / width;
    lemma_pixel_coordinates(width, height, c);
    assert((y - 1) * width == y * width - width && (y + 1) * width == y * width + width)
        by (nonlinear_arith);
    lemma_pixel_index(width, height, x - 1, y - 1);
    lemma_pixel_index(width, height, x, y - 1);
    lemma_pixel_index(width, height, x + 1, y - 1);
    lemma_pixel_index(width, height, x - 1, y);
    lemma_pixel_index(width, height, x + 1, y);
    lemma_pixel_index(width, height, x - 1, y + 1);
    lemma_pixel_index(width, height, x, y + 1);
    lemma_pixel_index(width, height, x + 1, y + 1);
    assert forall|j: int| 0 <= j < width * height && #[trigger] adjacent(width, c, j) implies j
        == c - width - 1 || j == c - width || j == c - width + 1 || j == c - 1 || j == c + 1 || j
        == c + width - 1 || j == c + width || j == c + width + 1 by {
        lemma_pixel_coordinates(width, height, j);
        let jy = j / width;
        if jy == y - 1 {
            assert(jy * width == y * width - width);
        } else if jy == y {
            assert(jy * width == y * width);
        } else {
            assert(jy == y + 1);
            assert(jy * width == y * width + width);
        }
    }
}

/// Taking the top pixel off the stack leaves the invariant in place with
/// that pixel open.
proof fn lemma_tracking_pop(
    suppressed: Seq<u32>,
    width: int,
    height: int,
    low: int,
    high: int,
    states: Seq<u8>,
    stack: Seq<usize>,
)
    requires
        stack.len() > 0,
        tracking(suppressed, width, height, low, high, states, stack, -1),
    ensures
        tracking(
            suppressed,
            width,
            height,
            low,
            high,
            states,
            stack.drop_last(),
            stack.last() as int,
        ),
{
    let rest = stack.drop_last();
    let top = stack.last() as int;
    assert forall|i: int|
        0 <= i < states.len() && states[i] == STRONG && i != top && !on_stack(
            rest,
            i,
        ) implies #[trigger] pixel_closed(suppressed, width, height, low, high, states, i) by {
        if on_stack(stack, i) {
            let k = choose|k: int| 0 <= k < stack.len() && #[trigger] stack[k] == i;
            assert(k < rest.len());
            assert(rest[k] == i);
        }
    }
    assert forall|k: int| 0 <= k < rest.len() implies 0 <= #[trigger] rest[k] < states.len()
        && states[rest[k] as int] == STRONG && is_interior(width, height, rest[k] as int) by {
        assert(rest[k] == stack[k]);
    }
}

/// Marking a weak neighbour of the open pixel strong and pushing it keeps
/// the invariant.
proof fn lemma_tracking_promote(
    suppressed: Seq<u32>,
    width: int,
    height: int,
    low: int,
    high: int,
    states: Seq<u8>,
    stack: Seq<usize>,
    open: int,
    neighbour: usize,
)
    requires
        tracking(suppressed, width, height, low, high, states, stack, open),
        0 <= open < states.len(),
        states[open] == STRONG,
        0 <= neighbour < states.len(),
        adjacent(width, open, neighbour as int),
        states[neighbour as int] == WEAK,
    ensures
        tracking(
            suppressed,
            width,
            height,
            low,
            high,
            states.update(neighbour as int, STRONG),
            stack.push(neighbour),
            open,
        ),
{
    let marked = states.update(neighbour as int, STRONG);
    let grown = stack.push(neighbour);
    let nb = neighbour as int;
    assert(pixel_tracked(suppressed, width, height, low, high, states, nb));
    assert(pixel_tracked(suppressed, width, height, low, high, states, open));
    assert(is_edge(suppressed, width, height, low, high, nb)) by {
        let path = choose|path: Seq<int>|
            #[trigger] is_edge_path(suppressed, width, height, low, high, path) && path.last()
                == open;
        let longer = path.push(nb);
        assert forall|k: int| 0 <= k < longer.len() implies is_candidate(
            suppressed,
            width,
            height,
            low,
            high,
            #[trigger] longer[k],
        ) by {
            if k < path.len() {
                assert(longer[k] == path[k]);
            }
        }
        assert forall|k: int| 0 <= k < longer.len() - 1 implies adjacent(
            width,
            #[trigger] longer[k],
            longer[k + 1],
        ) by {
            if k < path.len() - 1 {
                assert(longer[k] == path[k]);
                assert(longer[k + 1] == path[k + 1]);
            }
        }
        assert(longer[0] == path[0]);
        assert(is_edge_path(suppressed, width, height, low, high, longer));
        assert(longer.last() == nb);
    }
    assert forall|i: int| 0 <= i < marked.len() implies #[trigger] pixel_tracked(
        suppressed,
        width,
        height,
        low,
        high,
        marked,
        i,
    ) by {
        assert(pixel_tracked(suppressed, width, height, low, high, states, i));
    }
    assert forall|k: int| 0 <= k < grown.len() implies 0 <= #[trigger] grown[k] < marked.len()
        && marked[grown[k] as int] == STRONG && is_interior(width, height, grown[k] as int) by {
        if k < stack.len() {
            assert(grown[k] == stack[k]);
        }
    }
    assert forall|i: int|
        0 <= i < marked.len() && marked[i] == STRONG && i != open && !on_stack(
            grown,
            i,
        ) implies #[trigger] pixel_closed(suppressed, width, height, low, high, marked, i) by {
        assert(grown[stack.len() as int] == nb);
        assert(i != nb);
        if on_stack(stack, i) {
            let k = choose|k: int| 0 <= k < stack.len() && #[trigger] stack[k] == i;
            assert(grown[k] == i);
        }
        assert(pixel_closed(suppressed, width, height, low, high, states, i));
    }
}

/// Once every neighbour of the open pixel is past `WEAK`, the pixel is
/// closed and the invariant holds between visits.
proof fn lemma_tracking_close(
    suppressed: Seq<u32>,
    width: int,
    height: int,
    low: int,
    high: int,
    states: Seq<u8>,
    stack: Seq<usize>,
    open: int,
)
    requires
        tracking(suppressed, width, height, low, high, states, stack, open),
        is_interior(width, height, open),
        states[open - width - 1] != WEAK,
        states[open - width] != WEAK,
        states[open - width + 1] != WEAK,
        states[open - 1] != WEAK,
        states[open + 1] != WEAK,
        states[open + width - 1] != WEAK,
        states[open + width] != WEAK,
        states[open + width + 1] != WEAK,
    ensures
        tracking(suppressed, width, height, low, high, states, stack, -1),
{
    lemma_neighbours(width, height, open);
    assert forall|j: int|
        0 <= j < states.len() && #[trigger] adjacent(width, open, j) && is_candidate(
            suppressed,
            width,
            height,
            low,
            high,
            j,
        ) implies states[j] == STRONG by {
        assert(pixel_tracked(suppressed, width, height, low, high, states, j));
    }
    assert(pixel_closed(suppressed, width, height, low, high, states, open));
}

/// With the stack empty, every pixel of an edge path is marked.
proof fn lemma_path_marked(
    suppressed: Seq<u32>,
    width: int,
    height: int,
    low: int,
    high: int,
    states: Seq<u8>,
    path: Seq<int>,
    k: int,
)
    requires
        tracking(suppressed, width, height, low, high, states, Seq::<usize>::empty(), -1),
        is_edge_path(suppressed, width, height, low, high, path),
        0 <= k < path.len(),
    ensures
        states[path[k]] == STRONG,
    decreases k,
{
    assert(is_candidate(suppressed, width, height, low, high, path[k]));
    assert(pixel_tracked(suppressed, width, height, low, high, states, path[k]));
    if k > 0 {
        lemma_path_marked(suppressed, width, height, low, high, states, path, k - 1);
        let before = path[k - 1];
        assert(is_candidate(suppressed, width, height, low, high, before));
        assert(!on_stack(Seq::<usize>::empty(), before));
        assert(pixel_closed(suppressed, width, height, low, high, states, before));
        assert(adjacent(width, path[k - 1], path[k - 1 + 1]));
    }
}

/// With the stack empty, the tracked states are the final edge map.
proof fn lemma_tracking_done(
    suppressed: Seq<u32>,
    width: int,
    height: int,
    low: int,
    high: int,
    states: Seq<u8>,
)
    requires
        tracking(suppressed, width, height, low, high, states, Seq::<usize>::empty(), -1),
    ensures
        states == edge_states(suppressed, width, height, low, high),
{
    let target = edge_states(suppressed, width, height, low, high);
    assert forall|i: int| 0 <= i < states.len() implies states[i] == target[i] by {
        assert(pixel_tracked(suppressed, width, height, low, high, states, i));
        if is_edge(suppressed, width, height, low, high, i) {
            let path = choose|path: Seq<int>|
                #[trigger] is_edge_path(suppressed, width, height, low, high, path) && path.last()
                    == i;
            lemma_path_marked(suppressed, width, height, low, high, states, path, path.len() - 1);
        }
    }
    assert(states =~= target);
}

/// Thresholding alone establishes the invariant, with every seed on the
/// stack.
proof fn lemma_tracking_start(
    suppressed: Seq<u32>,
    width: int,
    height: int,
    low: int,
    high: int,
    states: Seq<u8>,
    stack: Seq<usize>,
)
    requires
        suppressed.len() == width * height,
        states.len() == width * height,
        forall|i: int|
            0 <= i < states.len() ==> #[trigger] states[i] == threshold_state(
                suppressed,
                width,
                height,
                low,
                high,
                i,
            ),
        forall|i: int|
            0 <= i < states.len() && #[trigger] states[i] == STRONG ==> on_stack(stack, i),
        forall|k: int|
            0 <= k < stack.len() ==> 0 <= #[trigger] stack[k] < states.len()
                && states[stack[k] as int] == STRONG,
    ensures
        tracking(suppressed, width, height, low, high, states, stack, -1),
{
    assert forall|i: int| 0 <= i < states.len() implies #[trigger] pixel_tracked(
        suppressed,
        width,
        height,
        low,
        high,
        states,
        i,
    ) by {
        assert(states[i] == threshold_state(suppressed, width, height, low, high, i));
        if states[i] == STRONG {
            let path = seq![i];
            assert(path[0] == i);
            assert(is_edge_path(suppressed, width, height, low, high, path));
            assert(path.last() == i);
        }
    }
    assert forall|k: int| 0 <= k < stack.len() implies 0 <= #[trigger] stack[k] < states.len()
        && states[stack[k] as int] == STRONG && is_interior(width, height, stack[k] as int) by {
        let i = stack[k] as int;
        assert(states[i] == threshold_state(suppressed, width, height, low, high, i));
    }
}

/// What the thresholding scan has established when it stands at column `x`
/// of row `y`: the pixels it has passed hold their threshold state, the
/// others are still `NON_EDGE`, and the stack holds the seeds found so far.
spec fn scanning(
    suppressed: Seq<u32>,
    width: int,
    height: int,
    low: int,
    high: int,
    states: Seq<u8>,
    stack: Seq<usize>,
    x: int,
    y: int,
) -> bool {
    &&& suppressed.len() == width * height
    &&& states.len() == width * height
    &&& forall|j: int|
        0 <= j < states.len() ==> #[trigger] states[j] == if scanned(width, x, y, j) {
            threshold_state(suppressed, width, height, low, high, j)
        } else {
            NON_EDGE
        }
    &&& forall|j: int|
        0 <= j < states.len() && #[trigger] states[j] == STRONG ==> on_stack(stack, j)
    &&& forall|k: int|
        0 <= k < stack.len() ==> 0 <= #[trigger] stack[k] < states.len() && states[stack[k] as int]
            == STRONG
}

/// Thresholds every interior pixel and collects the seeds on a stack.
fn classify(
    suppressed: &[u32],
    width: usize,
    height: usize,
    low_threshold: u64,
    high_threshold: u64,
) -> (result: (Vec<u8>, Vec<usize>))
    requires
        suppressed@.len() == width * height,
    ensures
        tracking(
            suppressed@,
            width as int,
            height as int,
            low_threshold as int,
            high_threshold as int,
            result.0@,
            result.1@,
            -1,
        ),
{
    let n = suppressed.len();
    let mut edge_map = vec![NON_EDGE; n];
    let mut stack: Vec<usize> = Vec::new();
    let ghost w = width as int;
    let ghost h = height as int;
    let ghost low = low_threshold as int;
    let ghost high = high_threshold as int;
    if width >= 3 && height >= 3 {
        for y in 1..height - 1
            invariant
                n == width * height,
                width >= 3,
                height >= 3,
                w == width,
                h == height,
                low == low_threshold,
                high == high_threshold,
                scanning(suppressed@, w, h, low, high, edge_map@, stack@, 0, y as int),
        {
            for x in 1..width - 1
                invariant
                    n == width * height,
                    width >= 3,
                    1 <= y < height - 1,
                    w == width,
                    h == height,
                    low == low_threshold,
                    high == high_threshold,
                    scanning(suppressed@, w, h, low, high, edge_map@, stack@, x as int, y as int),
            {
                proof {
                    lemma_pixel_index(w, h, x as int, y as int);
                }
                let idx = y * width + x;
                let mag = suppressed[idx];
                let ghost before = edge_map@;
                let ghost seeds = stack@;
                if mag as u64 >= high_threshold {
                    edge_map.set(idx, STRONG);
                    stack.push(idx);
                } else if mag as u64 >= low_threshold {
                    edge_map.set(idx, WEAK);
                }
                proof {
                    assert(is_interior(w, h, idx as int));
                    assert(edge_map@[idx as int] == threshold_state(
                        suppressed@,
                        w,
                        h,
                        low,
                        high,
                        idx as int,
                    ));
                    assert forall|j: int| 0 <= j < edge_map@.len() implies #[trigger] edge_map@[j]
                        == if scanned(w, x + 1, y as int, j) {
                        threshold_state(suppressed@, w, h, low, high, j)
                    } else {
                        NON_EDGE
                    } by {
                        lemma_pixel_coordinates(w, h, j);
                        if j != idx {
                            assert(edge_map@[j] == before[j]);
                        }
                    }
                    assert forall|j: int|
                        0 <= j < edge_map@.len() && #[trigger] edge_map@[j]
                            == STRONG implies on_stack(stack@, j) by {
                        if j == idx {
                            assert(stack@[seeds.len() as int] == idx);
                        } else {
                            assert(before[j] == STRONG);
                            let k = choose|k: int| 0 <= k < seeds.len() && #[trigger] seeds[k] == j;
                            assert(stack@[k] == j);
                        }
                    }
                    assert forall|k: int| 0 <= k < stack@.len() implies 0 <= #[trigger] stack@[k]
                        < edge_map@.len() && edge_map@[stack@[k] as int] == STRONG by {
                        if k < seeds.len() {
                            assert(stack@[k] == seeds[k]);
                            assert(before[seeds[k] as int] == STRONG);
                        }
                    }
                }
            }
        }
    }
    proof {
        assert forall|i: int| 0 <= i < edge_map@.len() implies #[trigger] edge_map@[i]
            == threshold_state(suppressed@, w, h, low, high, i) by {}
        lemma_tracking_start(suppressed@, w, h, low, high, edge_map@, stack@);
    }
    (edge_map, stack)
}

/// Visits one neighbour of the open pixel: a weak neighbour becomes strong
/// and goes on the stack.
fn visit(
    edge_map: &mut Vec<u8>,
    stack: &mut Vec<usize>,
    neighbour: usize,
    Ghost(suppressed): Ghost<Seq<u32>>,
    Ghost(width): Ghost<int>,
    Ghost(height): Ghost<int>,
    Ghost(low): Ghost<int>,
    Ghost(high): Ghost<int>,
    Ghost(current): Ghost<int>,
)
    requires
        tracking(suppressed, width, height, low, high, old(edge_map)@, old(stack)@, current),
        0 <= current < old(edge_map)@.len(),
        old(edge_map)@[current] == STRONG,
        neighbour < old(edge_map)@.len(),
        adjacent(width, current, neighbour as int),
    ensures
        tracking(suppressed, width, height, low, high, final(edge_map)@, final(stack)@, current),
        final(edge_map)@.len() == old(edge_map)@.len(),
        final(edge_map)@[neighbour as int] != WEAK,
        forall|j: int|
            0 <= j < old(edge_map)@.len() && old(edge_map)@[j] != WEAK
                ==> #[trigger] final(edge_map)@[j] != WEAK,
        final(edge_map)@[current] == STRONG,
        weak_count(final(edge_map)@, final(edge_map)@.len() as int) < weak_count(
            old(edge_map)@,
            old(edge_map)@.len() as int,
        ) || (weak_count(final(edge_map)@, final(edge_map)@.len() as int) == weak_count(
            old(edge_map)@,
            old(edge_map)@.len() as int,
        ) && final(stack)@.len() == old(stack)@.len()),
{
    if edge_map[neighbour] == WEAK {
        proof {
            lemma_tracking_promote(
                suppressed,
                width,
                height,
                low,
                high,
                edge_map@,
                stack@,
                current,
                neighbour,
            );
            lemma_weak_count_update(edge_map@, neighbour as int, edge_map@.len() as int);
        }
        edge_map.set(neighbour, STRONG);
        stack.push(neighbour);
    }
}

/// Classifies every pixel of a suppressed magnitude field by double
/// thresholding and edge tracking.
///
/// Interior pixels at or above `high_threshold` are edge pixels; so is
/// every interior pixel at or above `low_threshold` that an edge reaches
/// through 8-connected such pixels. The result holds `STRONG` for an edge
/// pixel, `WEAK` for a pixel at or above `low_threshold` that no edge
/// reaches, and `NON_EDGE` for every other pixel, the border included.
pub fn hysteresis_thresholding(
    suppressed: &[u32],
    width: usize,
    height: usize,
    low_threshold: u64,
    high_threshold: u64,
) -> (edge_map: Vec<u8>)
    requires
        suppressed@.len() == width * height,
    ensures
        edge_map@ == edge_states(
            suppressed@,
            width as int,
            height as int,
            low_threshold as int,
            high_threshold as int,
        ),
{
    let (mut edge_map, mut stack) = classify(
        suppressed,
        width,
        height,
        low_threshold,
        high_threshold,
    );
    let n = suppressed.len();
    let ghost field = suppressed@;
    let ghost w = width as int;
    let ghost h = height as int;
    let ghost low = low_threshold as int;
    let ghost high = high_threshold as int;
    while stack.len() > 0
        invariant
            tracking(field, w, h, low, high, edge_map@, stack@, -1),
            w == width,
            n == w * h,
        decreases weak_count(edge_map@, edge_map@.len() as int), stack@.len(),
    {
        let ghost before = stack@;
        let top = stack.pop();
        if let Some(current) = top {
            let ghost c = current as int;
            proof {
                lemma_tracking_pop(field, w, h, low, high, edge_map@, before);
                assert(before[before.len() - 1] == current);
                lemma_neighbours(w, h, c);
            }
            visit(
                &mut edge_map,
                &mut stack,
                current - width - 1,
                Ghost(field),
                Ghost(w),
                Ghost(h),
                Ghost(low),
                Ghost(high),
                Ghost(c),
            );
            visit(
                &mut edge_map,
                &mut stack,
                current - width,
                Ghost(field),
                Ghost(w),
                Ghost(h),
                Ghost(low),
                Ghost(high),
                Ghost(c),
            );
            visit(
                &mut edge_map,
                &mut stack,
                current - width + 1,
                Ghost(field),
                Ghost(w),
                Ghost(h),
                Ghost(low),
                Ghost(high),
                Ghost(c),
            );
            visit(
                &mut edge_map,
                &mut stack,
                current - 1,
                Ghost(field),
                Ghost(w),
                Ghost(h),
                Ghost(low),
                Ghost(high),
                Ghost(c),
            );
            visit(
                &mut edge_map,
                &mut stack,
                current + 1,
                Ghost(field),
                Ghost(w),
                Ghost(h),
                Ghost(low),
                Ghost(high),
                Ghost(c),
            );
            visit(
                &mut edge_map,
                &mut stack,
                current + width - 1,
                Ghost(field),
                Ghost(w),
                Ghost(h),
                Ghost(low),
                Ghost(high),
                Ghost(c),
            );
            visit(
                &mut edge_map,
                &mut stack,
                current + width,
                Ghost(field),
                Ghost(w),
                Ghost(h),
                Ghost(low),
                Ghost(high),
                Ghost(c),
            );
            visit(
                &mut edge_map,
                &mut stack,
                current + width + 1,
                Ghost(field),
                Ghost(w),
                Ghost(h),
                Ghost(low),
                Ghost(high),
                Ghost(c),
            );
            proof {
                lemma_tracking_close(field, w, h, low, high, edge_map@, stack@, c);
            }
        }
    }
    proof {
        assert(stack@ =~= Seq::<usize>::empty());
        lemma_tracking_done(field, w, h, low, high, edge_map@);
    }
    edge_map
}

/// Turns a tri-state edge map into a binary mask: 255 where the map holds
/// `STRONG`, 0 elsewhere.
pub fn edge_map_to_binary(edge_map: &[u8]) -> (binary: Vec<u8>)
    ensures
        binary@ == binary_mask(edge_map@),
{
    let n = edge_map.len();
    let mut binary = vec![0u8; n];
    for i in 0..n
        invariant
            n == edge_map@.len(),
            binary@.len() == n,
            forall|j: int|
                0 <= j < i ==> #[trigger] binary@[j] == if edge_map@[j] == STRONG {
                    255u8
                } else {
                    0u8
                },
    {
        binary.set(
            i,
            if edge_map[i] == STRONG {
                255
            } else {
                0
            },
        );
    }
    proof {
        assert(binary@ =~= binary_mask(edge_map@));
    }
    binary
}

/// Double thresholding and edge tracking, straight to the binary edge
/// mask: 255 at the edge pixels, 0 elsewhere.
pub fn hysteresis_thresholding_binary(
    suppressed: &[u32],
    width: usize,
    height: usize,
    low_threshold: u64,
    high_threshold: u64,
) -> (binary: Vec<u8>)
    requires
        suppressed@.len() == width * height,
    ensures
        binary@ == edge_mask(
            suppressed@,
            width as int,
            height as int,
            low_threshold as int,
            high_threshold as int,
        ),
{
    let edge_map = hysteresis_thresholding(
        suppressed,
        width,
        height,
        low_threshold,
        high_threshold,
    );
    let binary = edge_map_to_binary(edge_map.as_slice());
    proof {
        lemma_binary_of_states(
            suppressed@,
            width as int,
            height as int,
            low_threshold as int,
            high_threshold as int,
        );
    }
    binary
}

/// Converting the tri-state edge map of a field to a binary mask gives the
/// field's binary edge mask: the two-step path and the direct path agree.
pub proof fn lemma_binary_of_states(
    suppressed: Seq<u32>,
    width: int,
    height: int,
    low: int,
    high: int,
)
    ensures
        binary_mask(edge_states(suppressed, width, height, low, high)) == edge_mask(
            suppressed,
            width,
            height,
            low,
            high,
        ),
{
    assert(binary_mask(edge_states(suppressed, width, height, low, high)) =~= edge_mask(
        suppressed,
        width,
        height,
        low,
        high,
    ));
}

/// An edge takes in every candidate next to it: where a pixel of the mask
/// is 255, each adjacent candidate is 255 too.
pub proof fn lemma_edge_spreads(
    suppressed: Seq<u32>,
    width: int,
    height: int,
    low: int,
    high: int,
    i: int,
    j: int,
)
    requires
        is_edge(suppressed, width, height, low, high, i),
        adjacent(width, i, j),
        is_candidate(suppressed, width, height, low, high, j),
    ensures
        is_edge(suppressed, width, height, low, high, j),
        edge_mask(suppressed, width, height, low, high)[j] == 255,
{
    let path = choose|path: Seq<int>|
        #[trigger] is_edge_path(suppressed, width, height, low, high, path) && path.last() == i;
    let longer = path.push(j);
    assert forall|k: int| 0 <= k < longer.len() implies is_candidate(
        suppressed,
        width,
        height,
        low,
        high,
        #[trigger] longer[k],
    ) by {
        if k < path.len() {
            assert(longer[k] == path[k]);
        }
    }
    assert forall|k: int| 0 <= k < longer.len() - 1 implies adjacent(
        width,
        #[trigger] longer[k],
        longer[k + 1],
    ) by {
        if k < path.len() - 1 {
            assert(longer[k] == path[k]);
            assert(longer[k + 1] == path[k + 1]);
        }
    }
    assert(longer[0] == path[0]);
    assert(is_edge_path(suppressed, width, height, low, high, longer));
    assert(longer.last() == j);
}

/// A connected run of candidates that starts at a pixel at or above the
/// high threshold is promoted as a whole: the mask is 255 at each of its
/// pixels.
pub proof fn lemma_component_promoted(
    suppressed: Seq<u32>,
    width: int,
    height: int,
    low: int,
    high: int,
    path: Seq<int>,
    k: int,
)
    requires
        is_edge_path(suppressed, width, height, low, high, path),
        0 <= k < path.len(),
    ensures
        is_edge(suppressed, width, height, low, high, path[k]),
        edge_mask(suppressed, width, height, low, high)[path[k]] == 255,
{
    let head = path.subrange(0, k + 1);
    assert(head[0] == path[0]);
    assert forall|m: int| 0 <= m < head.len() implies is_candidate(
        suppressed,
        width,
        height,
        low,
        high,
        #[trigger] head[m],
    ) by {
        assert(head[m] == path[m]);
    }
    assert forall|m: int| 0 <= m < head.len() - 1 implies adjacent(
        width,
        #[trigger] head[m],
        head[m + 1],
    ) by {
        assert(head[m] == path[m]);
        assert(head[m + 1] == path[m + 1]);
    }
    assert(is_edge_path(suppressed, width, height, low, high, head));
    assert(head.last() == path[k]);
}

/// A region without a pixel at or above the high threshold, and with no
/// candidate next to it but its own pixels, stays clear: the mask is 0 at
/// each of its pixels.
pub proof fn lemma_isolated_region_clear(
    suppressed: Seq<u32>,
    width: int,
    height: int,
    low: int,
    high: int,
    region: Set<int>,
    i: int,
)
    requires
        forall|p: int| region.contains(p) ==> !is_seed(suppressed, width, height, high, p),
        forall|p: int, q: int|
            region.contains(p) && #[trigger] adjacent(width, p, q) && is_candidate(
                suppressed,
                width,
                height,
                low,
                high,
                q,
            ) ==> region.contains(q),
        region.contains(i),
        0 <= i < width * height,
    ensures
        !is_edge(suppressed, width, height, low, high, i),
        edge_mask(suppressed, width, height, low, high)[i] == 0,
{
    if is_edge(suppressed, width, height, low, high, i) {
        let path = choose|path: Seq<int>|
            #[trigger] is_edge_path(suppressed, width, height, low, high, path) && path.last() == i;
        lemma_path_stays_in_region(suppressed, width, height, low, high, region, path, 0);
    }
}

/// A path that ends in a region closed under candidate neighbours lies in
/// the region from its first pixel on.
proof fn lemma_path_stays_in_region(
    suppressed: Seq<u32>,
    width: int,
    height: int,
    low: int,
    high: int,
    region: Set<int>,
    path: Seq<int>,
    k: int,
)
    requires
        forall|p: int, q: int|
            region.contains(p) && #[trigger] adjacent(width, p, q) && is_candidate(
                suppressed,
                width,
                height,
                low,
                high,
                q,
            ) ==> region.contains(q),
        is_edge_path(suppressed, width, height, low, high, path),
        region.contains(path.last()),
        0 <= k < path.len(),
    ensures
        region.contains(path[k]),
    decreases path.len() - k,
{
    if k < path.len() - 1 {
        lemma_path_stays_in_region(suppressed, width, height, low, high, region, path, k + 1);
        assert(adjacent(width, path[k], path[k + 1]));
        assert(adjacent(width, path[k + 1], path[k]));
        assert(is_candidate(suppressed, width, height, low, high, path[k]));
    }
}

/// Border pixels are never edge pixels: the mask is 0 wherever the pixel
/// touches the border of the raster.
pub proof fn lemma_border_clear(
    suppressed: Seq<u32>,
    width: int,
    height: int,
    low: int,
    high: int,
    i: int,
)
    requires
        0 <= i < width * height,
        !is_interior(width, height, i),
    ensures
        edge_mask(suppressed, width, height, low, high)[i] == 0,
        edge_states(suppressed, width, height, low, high)[i] == NON_EDGE,
{
    if is_edge(suppressed, width, height, low, high, i) {
        let path = choose|path: Seq<int>|
            #[trigger] is_edge_path(suppressed, width, height, low, high, path) && path.last() == i;
        assert(is_candidate(suppressed, width, height, low, high, path[path.len() - 1]));
    }
}

/// A path under one pair of thresholds is a path under another pair that
/// every magnitude of the field meets alike.
proof fn lemma_path_under_like_thresholds(
    suppressed: Seq<u32>,
    width: int,
    height: int,
    low: int,
    high: int,
    other_low: int,
    other_high: int,
    path: Seq<int>,
)
    requires
        suppressed.len() == width * height,
        forall|i: int|
            0 <= i < suppressed.len() ==> (#[trigger] suppressed[i] >= high <==> suppressed[i]
                >= other_high) && (suppressed[i] >= low <==> suppressed[i] >= other_low),
        is_edge_path(suppressed, width, height, low, high, path),
    ensures
        is_edge_path(suppressed, width, height, other_low, other_high, path),
{
    assert(is_candidate(suppressed, width, height, low, high, path[0]));
    assert forall|k: int| 0 <= k < path.len() implies is_candidate(
        suppressed,
        width,
        height,
        other_low,
        other_high,
        #[trigger] path[k],
    ) by {
        assert(is_candidate(suppressed, width, height, low, high, path[k]));
    }
}

/// Thresholds count only through the magnitudes that reach them: two pairs
/// of thresholds that every magnitude of the field meets alike give the
/// same edge map and the same mask.
pub proof fn lemma_like_thresholds(
    suppressed: Seq<u32>,
    width: int,
    height: int,
    low: int,
    high: int,
    other_low: int,
    other_high: int,
)
    requires
        suppressed.len() == width * height,
        forall|i: int|
            0 <= i < suppressed.len() ==> (#[trigger] suppressed[i] >= high <==> suppressed[i]
                >= other_high) && (suppressed[i] >= low <==> suppressed[i] >= other_low),
    ensures
        edge_states(suppressed, width, height, low, high) == edge_states(
            suppressed,
            width,
            height,
            other_low,
            other_high,
        ),
        edge_mask(suppressed, width, height, low, high) == edge_mask(
            suppressed,
            width,
            height,
            other_low,
            other_high,
        ),
{
    assert forall|i: int| 0 <= i < width * height implies (is_edge(
        suppressed,
        width,
        height,
        low,
        high,
        i,
    ) <==> is_edge(suppressed, width, height, other_low, other_high, i)) && (is_candidate(
        suppressed,
        width,
        height,
        low,
        high,
        i,
    ) <==> is_candidate(suppressed, width, height, other_low, other_high, i)) by {
        assert(suppressed[i] >= high <==> suppressed[i] >= other_high);
        if is_edge(suppressed, width, height, low, high, i) {
            let path = choose|path: Seq<int>|
                #[trigger] is_edge_path(suppressed, width, height, low, high, path) && path.last()
                    == i;
            lemma_path_under_like_thresholds(
                suppressed,
                width,
                height,
                low,
                high,
                other_low,
                other_high,
                path,
            );
        }
        if is_edge(suppressed, width, height, other_low, other_high, i) {
            let path = choose|path: Seq<int>|
                #[trigger] is_edge_path(suppressed, width, height, other_low, other_high, path)
                    && path.last() == i;
            lemma_path_under_like_thresholds(
                suppressed,
                width,
                height,
                other_low,
                other_high,
                low,
                high,
                path,
            );
        }
    }
    assert(edge_states(suppressed, width, height, low, high) =~= edge_states(
        suppressed,
        width,
        height,
        other_low,
        other_high,
    ));
    assert(edge_mask(suppressed, width, height, low, high) =~= edge_mask(
        suppressed,
        width,
        height,
        other_low,
        other_high,
    ));
}

} // verus!
