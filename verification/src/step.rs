//! One jump-flooding pass.
//!
//! For every pixel `p` of the destination grid, the pass looks at `p`'s
//! own current cell and at the eight neighbors `p + step * (dx, dy)`
//! for `dx, dy` in `{-1, 0, 1}` (excluding `(0, 0)`), with sample
//! coordinates clamped to the grid bounds (never wrapping).  Among
//! those nine candidates it keeps the seed with the smallest Euclidean
//! distance to `p`; on a tie the earliest candidate in sample order
//! wins, and the pixel's own value is sampled first.  Comparing squared
//! distances orders candidates exactly as comparing real distances
//! does, so the model stays in integers.

use vstd::prelude::*;
use crate::field::{Cell, Field, cell_ok, grid_ok, MAX_DIM};
use vstd::arithmetic::div_mod::{lemma_fundamental_div_mod, lemma_mod_bound};

verus! {

/// Clamps `v` into `[lo, hi]`.
pub open spec fn clamp_to(v: int, lo: int, hi: int) -> int {
    if v < lo {
        lo
    } else if v > hi {
        hi
    } else {
        v
    }
}

/// Squared Euclidean distance between `(x, y)` and `(sx, sy)`.
pub open spec fn dist_sq(x: int, y: int, sx: int, sy: int) -> int {
    (x - sx) * (x - sx) + (y - sy) * (y - sy)
}

/// Horizontal offset direction of the `n`-th neighbor (`n` in `0..8`),
/// in the fixed sample order: row-major over `dy`, then `dx`, with the
/// center `(0, 0)` left out.
pub open spec fn neighbor_dx(n: int) -> int {
    (if n >= 4 { n + 1 } else { n }) % 3 - 1
}

/// Vertical offset direction of the `n`-th neighbor.
pub open spec fn neighbor_dy(n: int) -> int {
    (if n >= 4 { n + 1 } else { n }) / 3 - 1
}

/// Column sampled for neighbor `n` of a pixel in column `x`.
pub open spec fn sample_x(w: int, x: int, step: int, n: int) -> int {
    clamp_to(x + neighbor_dx(n) * step, 0, w - 1)
}

/// Row sampled for neighbor `n` of a pixel in row `y`.
pub open spec fn sample_y(h: int, y: int, step: int, n: int) -> int {
    clamp_to(y + neighbor_dy(n) * step, 0, h - 1)
}

/// The `k`-th candidate value for pixel `(x, y)`: its own cell for
/// `k == 0`, then the eight clamped neighbor samples.
pub open spec fn candidate(g: Seq<Cell>, w: int, h: int, x: int, y: int, step: int, k: int) -> Cell {
    if k == 0 {
        g[y * w + x]
    } else {
        g[sample_y(h, y, step, k - 1) * w + sample_x(w, x, step, k - 1)]
    }
}

/// Keeps `best` unless `cand` carries a seed strictly closer to
/// `(x, y)`; an empty `best` is replaced by any seed.  The strict
/// comparison is the tie-break rule: the first minimum in sample order
/// wins, which makes the pass deterministic.
pub open spec fn better(x: int, y: int, best: Cell, cand: Cell) -> Cell {
    match cand {
        Cell::Empty => best,
        Cell::Seed { x: cx, y: cy } => match best {
            Cell::Empty => cand,
            Cell::Seed { x: bx, y: by } => {
                if dist_sq(x, y, cx as int, cy as int) < dist_sq(x, y, bx as int, by as int) {
                    cand
                } else {
                    best
                }
            },
        },
    }
}

/// Folds the first `n` candidates of pixel `(x, y)` in sample order.
pub open spec fn best_upto(g: Seq<Cell>, w: int, h: int, x: int, y: int, step: int, n: nat) -> Cell
    decreases n,
{
    if n == 0 {
        Cell::Empty
    } else {
        better(
            x,
            y,
            best_upto(g, w, h, x, y, step, (n - 1) as nat),
            candidate(g, w, h, x, y, step, n as int - 1),
        )
    }
}

/// The value one pass writes into pixel `(x, y)`: the fold over all
/// nine candidates.
pub open spec fn pixel_step(g: Seq<Cell>, w: int, h: int, x: int, y: int, step: int) -> Cell {
    best_upto(g, w, h, x, y, step, 9)
}

/// The whole grid one pass writes, pixel by pixel.
pub open spec fn step_grid(g: Seq<Cell>, w: int, h: int, step: int) -> Seq<Cell> {
    Seq::new((w * h) as nat, |j: int| pixel_step(g, w, h, j % w, j / w, step))
}

/// The sample index of every candidate lies on the grid.
pub proof fn lemma_sample_in_bounds(g: Seq<Cell>, w: int, h: int, x: int, y: int, step: int, k: int)
    requires
        grid_ok(g, w, h),
        1 <= w,
        1 <= h,
        0 <= x < w,
        0 <= y < h,
        0 <= k < 9,
    ensures
        ({
            let cx = if k == 0 { x } else { sample_x(w, x, step, k - 1) };
            let cy = if k == 0 { y } else { sample_y(h, y, step, k - 1) };
            &&& 0 <= cx < w
            &&& 0 <= cy < h
            &&& 0 <= cy * w + cx < g.len()
            &&& candidate(g, w, h, x, y, step, k) == g[cy * w + cx]
        }),
{
    let cx = if k == 0 { x } else { sample_x(w, x, step, k - 1) };
    let cy = if k == 0 { y } else { sample_y(h, y, step, k - 1) };
    assert(0 <= cx < w && 0 <= cy < h);
    assert(cy * w + cx < h * w) by (nonlinear_arith)
        requires 0 <= cx < w, 0 <= cy < h;
    assert(0 <= cy * w) by (nonlinear_arith)
        requires 0 <= cy, 1 <= w;
    assert(g.len() == w * h);
}

/// Every candidate of a valid grid is a valid cell.
pub proof fn lemma_candidate_ok(g: Seq<Cell>, w: int, h: int, x: int, y: int, step: int, k: int)
    requires
        grid_ok(g, w, h),
        1 <= w,
        1 <= h,
        0 <= x < w,
        0 <= y < h,
        0 <= k < 9,
    ensures
        cell_ok(candidate(g, w, h, x, y, step, k), w, h),
{
    lemma_sample_in_bounds(g, w, h, x, y, step, k);
}

/// The candidate fold of a valid grid yields a valid cell.
pub proof fn lemma_best_upto_ok(g: Seq<Cell>, w: int, h: int, x: int, y: int, step: int, n: nat)
    requires
        grid_ok(g, w, h),
        1 <= w,
        1 <= h,
        0 <= x < w,
        0 <= y < h,
        n <= 9,
    ensures
        cell_ok(best_upto(g, w, h, x, y, step, n), w, h),
    decreases n,
{
    if n > 0 {
        lemma_best_upto_ok(g, w, h, x, y, step, (n - 1) as nat);
        lemma_candidate_ok(g, w, h, x, y, step, n as int - 1);
    }
}

/// Squared Euclidean distance, executable.
pub fn dist_sq_exec(x: usize, y: usize, sx: usize, sy: usize) -> (d: u64)
    requires
        x < MAX_DIM,
        y < MAX_DIM,
        sx < MAX_DIM,
        sy < MAX_DIM,
    ensures
        d == dist_sq(x as int, y as int, sx as int, sy as int),
{
    let dx: u64 = if x >= sx { (x - sx) as u64 } else { (sx - x) as u64 };
    let dy: u64 = if y >= sy { (y - sy) as u64 } else { (sy - y) as u64 };
    proof {
        assert(dx * dx + dy * dy < 0x8000_0000) by (nonlinear_arith)
            requires dx < 32768, dy < 32768;
        assert(dx as int * dx as int == (x as int - sx as int) * (x as int - sx as int))
            by (nonlinear_arith)
            requires dx as int == x as int - sx as int || dx as int == sx as int - x as int;
        assert(dy as int * dy as int == (y as int - sy as int) * (y as int - sy as int))
            by (nonlinear_arith)
            requires dy as int == y as int - sy as int || dy as int == sy as int - y as int;
    }
    dx * dx + dy * dy
}

/// Executable counterpart of `better`.
fn better_exec(x: usize, y: usize, best: Cell, cand: Cell) -> (r: Cell)
    requires
        x < MAX_DIM,
        y < MAX_DIM,
        cell_ok(best, MAX_DIM as int, MAX_DIM as int),
        cell_ok(cand, MAX_DIM as int, MAX_DIM as int),
    ensures
        r == better(x as int, y as int, best, cand),
{
    match cand {
        Cell::Empty => best,
        Cell::Seed { x: cx, y: cy } => match best {
            Cell::Empty => cand,
            Cell::Seed { x: bx, y: by } => {
                if dist_sq_exec(x, y, cx, cy) < dist_sq_exec(x, y, bx, by) {
                    cand
                } else {
                    best
                }
            },
        },
    }
}

/// Reads the `k`-th candidate (`k` in `1..9`: the clamped neighbor
/// samples) out of the source field.
fn candidate_exec(src: &Field, x: usize, y: usize, step: usize, k: usize) -> (c: Cell)
    requires
        src.wf(),
        x < src.width,
        y < src.height,
        1 <= step <= MAX_DIM,
        1 <= k < 9,
    ensures
        c == candidate(
            src.cells@,
            src.width as int,
            src.height as int,
            x as int,
            y as int,
            step as int,
            k as int,
        ),
{
    let w = src.width;
    let h = src.height;
    let ghost n = k as int - 1;
    let m: usize = if k - 1 >= 4 { k } else { k - 1 };
    proof {
        assert(m as int == if n >= 4 { n + 1 } else { n });
    }
    let dxi: usize = m % 3;
    let dyi: usize = m / 3;
    let cx: usize = if dxi == 0 {
        proof {
            assert(neighbor_dx(n) == -1);
            assert(neighbor_dx(n) * step as int == -(step as int)) by (nonlinear_arith)
                requires neighbor_dx(n) == -1;
        }
        if x >= step { x - step } else { 0 }
    } else if dxi == 1 {
        proof {
            assert(neighbor_dx(n) == 0);
            assert(neighbor_dx(n) * step as int == 0) by (nonlinear_arith)
                requires neighbor_dx(n) == 0;
        }
        x
    } else {
        proof {
            assert(neighbor_dx(n) == 1);
            assert(neighbor_dx(n) * step as int == step as int) by (nonlinear_arith)
                requires neighbor_dx(n) == 1;
        }
        let t = x + step;
        if t > w - 1 { w - 1 } else { t }
    };
    let cy: usize = if dyi == 0 {
        proof {
            assert(neighbor_dy(n) == -1);
            assert(neighbor_dy(n) * step as int == -(step as int)) by (nonlinear_arith)
                requires neighbor_dy(n) == -1;
        }
        if y >= step { y - step } else { 0 }
    } else if dyi == 1 {
        proof {
            assert(neighbor_dy(n) == 0);
            assert(neighbor_dy(n) * step as int == 0) by (nonlinear_arith)
                requires neighbor_dy(n) == 0;
        }
        y
    } else {
        proof {
            assert(neighbor_dy(n) == 1);
            assert(neighbor_dy(n) * step as int == step as int) by (nonlinear_arith)
                requires neighbor_dy(n) == 1;
        }
        let t = y + step;
        if t > h - 1 { h - 1 } else { t }
    };
    proof {
        assert(cx == sample_x(w as int, x as int, step as int, n));
        assert(cy == sample_y(h as int, y as int, step as int, n));
        lemma_sample_in_bounds(
            src.cells@, w as int, h as int, x as int, y as int, step as int, k as int,
        );
        assert((cy as int) * (w as int) + (cx as int) < src.cells@.len());
        assert((cy as int) * (w as int) + (cx as int) < 0x4000_0000) by (nonlinear_arith)
            requires 0 <= (cy as int) < 32768, 0 <= (cx as int) < 32768, 0 < (w as int) <= 32768;
    }
    src.cells[cy * w + cx]
}

/// Computes the value one pass writes into pixel `(x, y)`.
fn compute_pixel(src: &Field, x: usize, y: usize, step: usize) -> (c: Cell)
    requires
        src.wf(),
        x < src.width,
        y < src.height,
        1 <= step <= MAX_DIM,
    ensures
        c == pixel_step(
            src.cells@,
            src.width as int,
            src.height as int,
            x as int,
            y as int,
            step as int,
        ),
{
    let ghost g = src.cells@;
    let ghost wi = src.width as int;
    let ghost hi = src.height as int;
    let ghost si = step as int;
    let mut best = Cell::Empty;
    let mut k: usize = 0;
    while k < 9
        invariant
            src.wf(),
            x < src.width,
            y < src.height,
            1 <= step <= MAX_DIM,
            g == src.cells@,
            wi == src.width as int,
            hi == src.height as int,
            si == step as int,
            k <= 9,
            best == best_upto(g, wi, hi, x as int, y as int, si, k as nat),
            cell_ok(best, MAX_DIM as int, MAX_DIM as int),
        decreases 9 - k,
    {
        let cand = if k == 0 {
            proof {
                lemma_sample_in_bounds(g, wi, hi, x as int, y as int, si, 0);
                assert((y as int) * wi + (x as int) < wi * hi) by (nonlinear_arith)
                    requires 0 <= (x as int) < wi, 0 <= (y as int) < hi;
                assert(g.len() == wi * hi);
                assert((y as int) * wi + (x as int) < 0x4000_0000) by (nonlinear_arith)
                    requires 0 <= (x as int) < 32768, 0 <= (y as int) < 32768, 0 < wi <= 32768;
            }
            src.cells[y * src.width + x]
        } else {
            candidate_exec(src, x, y, step, k)
        };
        proof {
            lemma_candidate_ok(g, wi, hi, x as int, y as int, si, k as int);
        }
        best = better_exec(x, y, best, cand);
        k = k + 1;
    }
    best
}

/// Runs one full jump-flooding pass: the returned field holds, for
/// every pixel, the fold of that pixel's nine candidates out of `src`.
pub fn jfa_step(src: &Field, step: usize) -> (dst: Field)
    requires
        src.wf(),
        1 <= step <= MAX_DIM,
    ensures
        dst.wf(),
        dst.width == src.width,
        dst.height == src.height,
        dst.cells@ == step_grid(src.cells@, src.width as int, src.height as int, step as int),
{
    let w = src.width;
    let h = src.height;
    let ghost g = src.cells@;
    let ghost wi = w as int;
    let ghost hi = h as int;
    let ghost si = step as int;
    let mut cells: Vec<Cell> = Vec::new();
    let mut y: usize = 0;
    while y < h
        invariant
            src.wf(),
            w == src.width,
            h == src.height,
            1 <= step <= MAX_DIM,
            g == src.cells@,
            wi == w as int,
            hi == h as int,
            si == step as int,
            y <= h,
            cells@.len() == y * w,
            forall|yy: int, xx: int|
                0 <= yy < y && 0 <= xx < wi ==> #[trigger] cells@[yy * wi + xx]
                    == pixel_step(g, wi, hi, xx, yy, si),
        decreases h - y,
    {
        let mut x: usize = 0;
        while x < w
            invariant
                src.wf(),
                w == src.width,
                h == src.height,
                1 <= step <= MAX_DIM,
                g == src.cells@,
                wi == w as int,
                hi == h as int,
                si == step as int,
                y < h,
                x <= w,
                cells@.len() == y * w + x,
                forall|yy: int, xx: int|
                    0 <= yy < y && 0 <= xx < wi ==> #[trigger] cells@[yy * wi + xx]
                        == pixel_step(g, wi, hi, xx, yy, si),
                forall|xx: int|
                    0 <= xx < x ==> #[trigger] cells@[y as int * wi + xx]
                        == pixel_step(g, wi, hi, xx, y as int, si),
            decreases w - x,
        {
            let c = compute_pixel(src, x, y, step);
            proof {
                assert(forall|yy: int, xx: int|
                    0 <= yy < y && 0 <= xx < wi ==> #[trigger] (yy * wi + xx) < y as int * wi
                        + x as int) by (nonlinear_arith)
                    requires 1 <= wi, 0 <= x as int;
            }
            cells.push(c);
            x = x + 1;
        }
        proof {
            assert(y as int * wi + wi == (y as int + 1) * wi) by (nonlinear_arith);
        }
        y = y + 1;
    }
    let ghost sg = step_grid(g, wi, hi, si);
    proof {
        assert(cells@.len() == hi * wi);
        assert(hi * wi == wi * hi) by (nonlinear_arith);
        assert forall|j: int| 0 <= j < sg.len() implies cells@[j] == sg[j] by {
            let xx = j % wi;
            let yy = j / wi;
            lemma_fundamental_div_mod(j, wi);
            lemma_mod_bound(j, wi);
            assert(yy < hi) by (nonlinear_arith)
                requires j < wi * hi, 1 <= wi, j == wi * yy + xx, 0 <= xx < wi;
            assert(0 <= yy) by (nonlinear_arith)
                requires 0 <= j, 1 <= wi, j == wi * yy + xx, 0 <= xx < wi;
            assert(yy * wi + xx == j) by (nonlinear_arith)
                requires j == wi * yy + xx;
            assert(cells@[yy * wi + xx] == pixel_step(g, wi, hi, xx, yy, si));
        }
        assert(cells@ =~= sg);
        assert forall|j: int| 0 <= j < cells@.len() implies cell_ok(cells@[j], wi, hi) by {
            lemma_mod_bound(j, wi);
            lemma_fundamental_div_mod(j, wi);
            assert(j / wi < hi) by (nonlinear_arith)
                requires j < wi * hi, 1 <= wi, j == wi * (j / wi) + j % wi, 0 <= j % wi < wi;
            assert(0 <= j / wi) by (nonlinear_arith)
                requires 0 <= j, 1 <= wi, j == wi * (j / wi) + j % wi, 0 <= j % wi < wi;
            lemma_best_upto_ok(g, wi, hi, j % wi, j / wi, si, 9);
        }
    }
    Field { width: w, height: h, cells }
}

} // verus!
