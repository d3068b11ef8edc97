//! The cells that the edge-aware smoothing of the mask reads around a
//! pixel of a `w`×`h` row-major grid.

use vstd::prelude::*;

verus! {

/// The index of the cell at column `x` and row `y`.
pub open spec fn cell(w: int, x: int, y: int) -> int {
    y * w + x
}

/// The cells left, right, above and below cell (`x`, `y`) whose values
/// give the local gradient; where one falls outside the grid, the cell
/// itself stands in for it.
pub fn gradient_neighbours(x: usize, y: usize, w: usize, h: usize) -> (r: (
    usize,
    usize,
    usize,
    usize,
))
    requires
        x < w,
        y < h,
        w * h <= usize::MAX,
    ensures
        r.0 == (if x > 0 {
            cell(w as int, x - 1, y as int)
        } else {
            cell(w as int, x as int, y as int)
        }),
        r.1 == (if x + 1 < w {
            cell(w as int, x + 1, y as int)
        } else {
            cell(w as int, x as int, y as int)
        }),
        r.2 == (if y > 0 {
            cell(w as int, x as int, y - 1)
        } else {
            cell(w as int, x as int, y as int)
        }),
        r.3 == (if y + 1 < h {
            cell(w as int, x as int, y + 1)
        } else {
            cell(w as int, x as int, y as int)
        }),
        r.0 < w * h && r.1 < w * h && r.2 < w * h && r.3 < w * h,
{
    proof {
        assert(y * w + x < w * h) by (nonlinear_arith)
            requires
                x < w,
                y < h,
        ;
        assert((y + 1) * w == y * w + w) by (nonlinear_arith);
        assert(x + 1 < w ==> y * w + x + 1 < w * h) by (nonlinear_arith)
            requires
                y < h,
        ;
        assert(y > 0 ==> (y - 1) * w == y * w - w) by (nonlinear_arith);
        assert(y + 1 < h ==> (y + 1) * w + x < w * h) by (nonlinear_arith)
            requires
                x < w,
        ;
    }
    let idx = y * w + x;
    let left = if x > 0 {
        idx - 1
    } else {
        idx
    };
    let right = if x + 1 < w {
        idx + 1
    } else {
        idx
    };
    let up = if y > 0 {
        idx - w
    } else {
        idx
    };
    let down = if y + 1 < h {
        idx + w
    } else {
        idx
    };
    (left, right, up, down)
}

/// The cell at offset `k` (0 to 8) of the 3×3 block around (`x`, `y`),
/// row by row from the top left, when it lies inside the grid.
pub open spec fn block_cell(x: int, y: int, w: int, h: int, k: int) -> Option<int> {
    let nx = x + k % 3 - 1;
    let ny = y + k / 3 - 1;
    if 0 <= nx < w && 0 <= ny < h {
        Some(cell(w, nx, ny))
    } else {
        None
    }
}

/// The cells of the first `k` offsets of the 3×3 block around (`x`, `y`)
/// that lie inside the grid, in order.
pub open spec fn block_cells(x: int, y: int, w: int, h: int, k: int) -> Seq<int>
    decreases k,
{
    if k <= 0 {
        Seq::empty()
    } else {
        match block_cell(x, y, w, h, k - 1) {
            Some(c) => block_cells(x, y, w, h, k - 1).push(c),
            None => block_cells(x, y, w, h, k - 1),
        }
    }
}

/// The cells of the 3×3 block around (`x`, `y`) that lie inside the grid,
/// row by row from the top left: the cells the smoothing averages, in the
/// order in which it adds them up.
pub fn box_neighbours(x: usize, y: usize, w: usize, h: usize) -> (r: Vec<usize>)
    requires
        x < w,
        y < h,
        w * h <= usize::MAX,
        w <= i32::MAX,
        h <= i32::MAX,
    ensures
        r@.map_values(|c: usize| c as int) == block_cells(x as int, y as int, w as int, h as int, 9),
        forall|k: int| 0 <= k < r@.len() ==> #[trigger] r@[k] < w * h,
{
    let mut out: Vec<usize> = Vec::new();
    let radius: i32 = 1;
    let mut dy: i32 = -radius;
    while dy <= radius
        invariant
            radius == 1,
            -1 <= dy <= 2,
            x < w,
            y < h,
            w * h <= usize::MAX,
            w <= i32::MAX,
            h <= i32::MAX,
            out@.map_values(|c: usize| c as int) == block_cells(
                x as int,
                y as int,
                w as int,
                h as int,
                3 * (dy + 1),
            ),
            forall|k: int| 0 <= k < out@.len() ==> #[trigger] out@[k] < w * h,
        decreases 2 - dy,
    {
        let mut dx: i32 = -radius;
        while dx <= radius
            invariant
                radius == 1,
                -1 <= dy <= 1,
                -1 <= dx <= 2,
                x < w,
                y < h,
                w * h <= usize::MAX,
                w <= i32::MAX,
                h <= i32::MAX,
                out@.map_values(|c: usize| c as int) == block_cells(
                    x as int,
                    y as int,
                    w as int,
                    h as int,
                    3 * (dy + 1) + dx + 1,
                ),
                forall|k: int| 0 <= k < out@.len() ==> #[trigger] out@[k] < w * h,
            decreases 2 - dx,
        {
            let ghost k = 3 * (dy + 1) + dx + 1;
            let ghost before = out@;
            let nx = x as i32 + dx;
            let ny = y as i32 + dy;
            proof {
                assert(k % 3 == dx + 1);
                assert(k / 3 == dy + 1);
            }
            if nx >= 0 && ny >= 0 && (nx as usize) < w && (ny as usize) < h {
                proof {
                    assert((ny as usize) * w + (nx as usize) < w * h) by (nonlinear_arith)
                        requires
                            (nx as usize) < w,
                            (ny as usize) < h,
                    ;
                }
                let c = ny as usize * w + nx as usize;
                out.push(c);
                proof {
                    assert(block_cell(x as int, y as int, w as int, h as int, k) == Some(c as int));
                    assert(out@.map_values(|c: usize| c as int) =~= before.map_values(
                        |c: usize| c as int,
                    ).push(c as int));
                    assert forall|m: int| 0 <= m < out@.len() implies #[trigger] out@[m] < w * h by {
                        if m < before.len() {
                            assert(out@[m] == before[m]);
                        }
                    }
                }
            } else {
                proof {
                    assert(block_cell(x as int, y as int, w as int, h as int, k) is None);
                }
            }
            dx = dx + 1;
        }
        dy = dy + 1;
    }
    out
}

} // verus!
