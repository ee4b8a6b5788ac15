//! Properties of the whole pipeline, proved once and for all: the
//! seed keeps itself at distance zero, the decoded field is exact (so
//! distances never invert along a ray), rendering is deterministic, a
//! queued resize renders like a fresh pipeline, and the computed pass
//! count is exactly enough — one pass fewer leaves the far corner at
//! the sentinel.

use vstd::prelude::*;
use crate::field::{Cell, cell_ok, grid_ok, MAX_DIM};
use crate::step::{
    best_upto, candidate, dist_sq, lemma_best_upto_ok, lemma_sample_in_bounds, neighbor_dx,
    neighbor_dy, pixel_step, sample_x, sample_y, step_grid,
};
use crate::sequence::{exp2, iter_count, lemma_exp2_le, lemma_iter_count_bounds, run_upto};
use crate::passes::seed_grid;
use crate::pipeline::{
    converged_grid, dims_iterations, frame_image, FrameOrchestrator,
};
use vstd::arithmetic::div_mod::{lemma_fundamental_div_mod, lemma_fundamental_div_mod_converse,
    lemma_mod_bound};

verus! {

/// Every non-sentinel cell of the grid carries exactly the seed
/// `(sx, sy)`: with a single live seed no other coordinate can ever
/// appear in the field.
pub open spec fn only_seed(g: Seq<Cell>, sx: usize, sy: usize) -> bool {
    forall|j: int|
        0 <= j < g.len() ==> (g[j] == Cell::Empty || g[j] == (Cell::Seed { x: sx, y: sy }))
}

/// Every non-sentinel pixel lies within Chebyshev distance `b` of the
/// seed: information spreads at most `step` pixels per pass.
pub open spec fn spread_within(g: Seq<Cell>, w: int, h: int, sx: int, sy: int, b: int) -> bool {
    forall|x: int, y: int|
        0 <= x < w && 0 <= y < h && #[trigger] g[y * w + x] != Cell::Empty ==> -b <= x - sx <= b
            && -b <= y - sy <= b
}

/// Helper: the fold over the first `n` candidates of a single-seed
/// grid is the sentinel or that seed.
proof fn lemma_best_upto_only(
    g: Seq<Cell>,
    w: int,
    h: int,
    x: int,
    y: int,
    step: int,
    sx: usize,
    sy: usize,
    n: nat,
)
    requires
        grid_ok(g, w, h),
        only_seed(g, sx, sy),
        1 <= w,
        1 <= h,
        0 <= x < w,
        0 <= y < h,
        n <= 9,
    ensures
        best_upto(g, w, h, x, y, step, n) == Cell::Empty || best_upto(g, w, h, x, y, step, n)
            == (Cell::Seed { x: sx, y: sy }),
    decreases n,
{
    if n > 0 {
        lemma_best_upto_only(g, w, h, x, y, step, sx, sy, (n - 1) as nat);
        lemma_sample_in_bounds(g, w, h, x, y, step, n as int - 1);
    }
}

/// Helper: once some candidate carries the seed, the fold ends on the
/// seed (the only seed there is cannot lose a distance comparison to
/// itself, and the sentinel never replaces a seed).
proof fn lemma_fold_picks_seed(
    g: Seq<Cell>,
    w: int,
    h: int,
    x: int,
    y: int,
    step: int,
    sx: usize,
    sy: usize,
    k: int,
    n: nat,
)
    requires
        grid_ok(g, w, h),
        only_seed(g, sx, sy),
        1 <= w,
        1 <= h,
        0 <= x < w,
        0 <= y < h,
        0 <= k < n <= 9,
        candidate(g, w, h, x, y, step, k) == (Cell::Seed { x: sx, y: sy }),
    ensures
        best_upto(g, w, h, x, y, step, n) == (Cell::Seed { x: sx, y: sy }),
    decreases n,
{
    lemma_best_upto_only(g, w, h, x, y, step, sx, sy, (n - 1) as nat);
    lemma_sample_in_bounds(g, w, h, x, y, step, n as int - 1);
    if k == n - 1 {
    } else {
        lemma_fold_picks_seed(g, w, h, x, y, step, sx, sy, k, (n - 1) as nat);
    }
}

/// Helper: the fold is the sentinel or one of the candidates it
/// folded over.
proof fn lemma_best_upto_witness(
    g: Seq<Cell>,
    w: int,
    h: int,
    x: int,
    y: int,
    step: int,
    n: nat,
)
    requires
        n <= 9,
    ensures
        best_upto(g, w, h, x, y, step, n) == Cell::Empty || exists|k: int|
            0 <= k < n && best_upto(g, w, h, x, y, step, n) == #[trigger] candidate(
                g,
                w,
                h,
                x,
                y,
                step,
                k,
            ),
    decreases n,
{
    if n > 0 {
        lemma_best_upto_witness(g, w, h, x, y, step, (n - 1) as nat);
    }
}

/// Helper: one pass keeps a valid grid valid.
proof fn lemma_step_grid_ok(g: Seq<Cell>, w: int, h: int, step: int)
    requires
        grid_ok(g, w, h),
        1 <= w <= MAX_DIM,
        1 <= h <= MAX_DIM,
    ensures
        grid_ok(step_grid(g, w, h, step), w, h),
{
    let sg = step_grid(g, w, h, step);
    assert forall|j: int| 0 <= j < sg.len() implies cell_ok(sg[j], w, h) by {
        lemma_mod_bound(j, w);
        lemma_fundamental_div_mod(j, w);
        assert(0 <= j / w && j / w < h) by (nonlinear_arith)
            requires 0 <= j < w * h, 1 <= w, j == w * (j / w) + j % w, 0 <= j % w < w;
        lemma_best_upto_ok(g, w, h, j % w, j / w, step, 9);
    }
}

/// Helper: one pass keeps a single-seed grid single-seed.
proof fn lemma_step_only_seed(g: Seq<Cell>, w: int, h: int, step: int, sx: usize, sy: usize)
    requires
        grid_ok(g, w, h),
        only_seed(g, sx, sy),
        1 <= w <= MAX_DIM,
        1 <= h <= MAX_DIM,
    ensures
        only_seed(step_grid(g, w, h, step), sx, sy),
{
    let sg = step_grid(g, w, h, step);
    assert forall|j: int|
        0 <= j < sg.len() implies (sg[j] == Cell::Empty || sg[j] == (Cell::Seed {
        x: sx,
        y: sy,
    })) by {
        lemma_mod_bound(j, w);
        lemma_fundamental_div_mod(j, w);
        assert(0 <= j / w && j / w < h) by (nonlinear_arith)
            requires 0 <= j < w * h, 1 <= w, j == w * (j / w) + j % w, 0 <= j % w < w;
        lemma_best_upto_only(g, w, h, j % w, j / w, step, sx, sy, 9);
    }
}

/// Helper: each neighbor offset direction is `-1`, `0` or `1`.
proof fn lemma_neighbor_range(n: int)
    requires
        0 <= n < 8,
    ensures
        -1 <= neighbor_dx(n) <= 1,
        -1 <= neighbor_dy(n) <= 1,
{
}

/// Helper: a sampled coordinate moves at most `step` from the pixel.
proof fn lemma_sample_near(w: int, h: int, x: int, y: int, step: int, n: int)
    requires
        1 <= w,
        1 <= h,
        0 <= x < w,
        0 <= y < h,
        0 <= step,
        0 <= n < 8,
    ensures
        -step <= sample_x(w, x, step, n) - x <= step,
        -step <= sample_y(h, y, step, n) - y <= step,
{
    lemma_neighbor_range(n);
    assert(-step <= neighbor_dx(n) * step <= step) by (nonlinear_arith)
        requires -1 <= neighbor_dx(n) <= 1, 0 <= step;
    assert(-step <= neighbor_dy(n) * step <= step) by (nonlinear_arith)
        requires -1 <= neighbor_dy(n) <= 1, 0 <= step;
}

/// Helper: one pass widens the spread bound by at most `step`.
proof fn lemma_step_spread(
    g: Seq<Cell>,
    w: int,
    h: int,
    step: int,
    sx: int,
    sy: int,
    b: int,
)
    requires
        grid_ok(g, w, h),
        spread_within(g, w, h, sx, sy, b),
        1 <= w <= MAX_DIM,
        1 <= h <= MAX_DIM,
        0 <= step,
        0 <= b,
    ensures
        spread_within(step_grid(g, w, h, step), w, h, sx, sy, b + step),
{
    let sg = step_grid(g, w, h, step);
    assert forall|x: int, y: int|
        0 <= x < w && 0 <= y < h && #[trigger] sg[y * w + x] != Cell::Empty implies -(b + step)
        <= x - sx <= b + step && -(b + step) <= y - sy <= b + step by {
        let j = y * w + x;
        assert(0 <= j < w * h) by (nonlinear_arith)
            requires 0 <= x < w, 0 <= y < h, j == y * w + x;
        lemma_fundamental_div_mod_converse(j, w, y, x);
        assert(sg[j] == pixel_step(g, w, h, x, y, step));
        lemma_best_upto_witness(g, w, h, x, y, step, 9);
        let k = choose|k: int|
            0 <= k < 9 && best_upto(g, w, h, x, y, step, 9) == #[trigger] candidate(
                g,
                w,
                h,
                x,
                y,
                step,
                k,
            );
        lemma_sample_in_bounds(g, w, h, x, y, step, k);
        let cx = if k == 0 { x } else { sample_x(w, x, step, k - 1) };
        let cy = if k == 0 { y } else { sample_y(h, y, step, k - 1) };
        if k > 0 {
            lemma_sample_near(w, h, x, y, step, k - 1);
        }
        assert(g[cy * w + cx] != Cell::Empty);
        assert(0 <= cy * w + cx < w * h);
        lemma_fundamental_div_mod_converse(cy * w + cx, w, cy, cx);
        assert(g[cy * w + cx] == g[cy * w + cx]);
        assert(-b <= cx - sx <= b && -b <= cy - sy <= b);
    }
}

/// `d` is a multiple `m * c` of the spacing `c` with `|m| <= r`.
pub open spec fn aligned(d: int, c: int, r: int) -> bool {
    exists|m: int| d == #[trigger] (m * c) && -r <= m <= r
}

/// Every in-bounds pixel whose offset from the seed is, on each axis,
/// an aligned multiple of the spacing `c` already carries the seed.
pub open spec fn covered(
    g: Seq<Cell>,
    w: int,
    h: int,
    sx: usize,
    sy: usize,
    c: int,
    r: int,
) -> bool {
    forall|x: int, y: int|
        0 <= x < w && 0 <= y < h && aligned(x - sx, c, r) && aligned(y - sy, c, r)
            ==> #[trigger] g[y * w + x] == (Cell::Seed { x: sx, y: sy })
}

/// Helper: an offset aligned to spacing `c` with radius `2r + 1`
/// splits into a one-step move of `-c`, `0` or `c` plus an offset
/// aligned to the doubled spacing `2c` with radius `r`; the remaining
/// offset lies between zero and the original one.
proof fn lemma_axis_split(d: int, c: int, r: int)
    requires
        aligned(d, c, 2 * r + 1),
        1 <= c,
        0 <= r,
    ensures
        exists|e: int|
            -1 <= e <= 1 && #[trigger] aligned(d - e * c, 2 * c, r) && (0 <= d - e * c <= d || d
                <= d - e * c <= 0),
{
    let m = choose|m: int| d == #[trigger] (m * c) && -(2 * r + 1) <= m <= 2 * r + 1;
    if m >= 0 {
        let q = m / 2;
        let e = m - 2 * q;
        assert(0 <= e <= 1 && 0 <= q <= r);
        assert(d - e * c == q * (2 * c)) by (nonlinear_arith)
            requires d == m * c, e == m - 2 * q;
        assert(0 <= d - e * c <= d) by (nonlinear_arith)
            requires d == m * c, e == m - 2 * q, 0 <= q, 2 * q <= m, 1 <= c;
        assert(aligned(d - e * c, 2 * c, r));
        assert(-1 <= e <= 1 && aligned(d - e * c, 2 * c, r) && (0 <= d - e * c <= d || d <= d - e
            * c <= 0));
    } else {
        let mm = -m;
        let qm = mm / 2;
        let e = -(mm - 2 * qm);
        assert(-1 <= e <= 0 && 0 <= qm <= r);
        assert(d - e * c == (-qm) * (2 * c)) by (nonlinear_arith)
            requires d == m * c, m == -mm, e == -(mm - 2 * qm);
        assert(d <= d - e * c <= 0) by (nonlinear_arith)
            requires d == m * c, m == -mm, e == -(mm - 2 * qm), 0 <= qm, 2 * qm <= mm, 1 <= c;
        assert(aligned(d - e * c, 2 * c, r));
        assert(-1 <= e <= 1 && aligned(d - e * c, 2 * c, r) && (0 <= d - e * c <= d || d <= d - e
            * c <= 0));
    }
}

/// Helper: every direction pair other than the center appears among
/// the eight neighbor indices.
proof fn lemma_neighbor_index(dx: int, dy: int)
    requires
        -1 <= dx <= 1,
        -1 <= dy <= 1,
        !(dx == 0 && dy == 0),
    ensures
        exists|n: int| 0 <= n < 8 && #[trigger] neighbor_dx(n) == dx && neighbor_dy(n) == dy,
{
    assert(neighbor_dx(0) == -1 && neighbor_dy(0) == -1);
    assert(neighbor_dx(1) == 0 && neighbor_dy(1) == -1);
    assert(neighbor_dx(2) == 1 && neighbor_dy(2) == -1);
    assert(neighbor_dx(3) == -1 && neighbor_dy(3) == 0);
    assert(neighbor_dx(4) == 1 && neighbor_dy(4) == 0);
    assert(neighbor_dx(5) == -1 && neighbor_dy(5) == 1);
    assert(neighbor_dx(6) == 0 && neighbor_dy(6) == 1);
    assert(neighbor_dx(7) == 1 && neighbor_dy(7) == 1);
}

/// Helper: one pass at step `c` extends coverage from spacing `2c`
/// within radius `r` to spacing `c` within radius `2r + 1`: each newly
/// reachable pixel finds an already-covered pixel among its nine
/// candidates.
proof fn lemma_covered_step(
    g: Seq<Cell>,
    w: int,
    h: int,
    sx: usize,
    sy: usize,
    c: int,
    r: int,
)
    requires
        grid_ok(g, w, h),
        only_seed(g, sx, sy),
        1 <= w <= MAX_DIM,
        1 <= h <= MAX_DIM,
        sx < w,
        sy < h,
        covered(g, w, h, sx, sy, 2 * c, r),
        1 <= c,
        0 <= r,
    ensures
        covered(step_grid(g, w, h, c), w, h, sx, sy, c, 2 * r + 1),
{
    let sg = step_grid(g, w, h, c);
    assert forall|x: int, y: int|
        0 <= x < w && 0 <= y < h && aligned(x - sx, c, 2 * r + 1) && aligned(
            y - sy,
            c,
            2 * r + 1,
        ) implies #[trigger] sg[y * w + x] == (Cell::Seed { x: sx, y: sy }) by {
        let j = y * w + x;
        assert(0 <= j < w * h) by (nonlinear_arith)
            requires 0 <= x < w, 0 <= y < h, j == y * w + x;
        lemma_fundamental_div_mod_converse(j, w, y, x);
        assert(sg[j] == pixel_step(g, w, h, x, y, c));
        lemma_axis_split(x - sx, c, r);
        lemma_axis_split(y - sy, c, r);
        let ex = choose|e: int|
            -1 <= e <= 1 && #[trigger] aligned((x - sx) - e * c, 2 * c, r) && (0 <= (x - sx) - e
                * c <= x - sx || x - sx <= (x - sx) - e * c <= 0);
        let ey = choose|e: int|
            -1 <= e <= 1 && #[trigger] aligned((y - sy) - e * c, 2 * c, r) && (0 <= (y - sy) - e
                * c <= y - sy || y - sy <= (y - sy) - e * c <= 0);
        let nx = x - ex * c;
        let ny = y - ey * c;
        assert(0 <= nx < w && 0 <= ny < h);
        assert(aligned(nx - sx, 2 * c, r) && aligned(ny - sy, 2 * c, r));
        assert(g[ny * w + nx] == (Cell::Seed { x: sx, y: sy }));
        if ex == 0 && ey == 0 {
            assert(nx == x && ny == y) by (nonlinear_arith)
                requires nx == x - 0 * c, ny == y - 0 * c;
            assert(candidate(g, w, h, x, y, c, 0) == g[y * w + x]);
            lemma_fold_picks_seed(g, w, h, x, y, c, sx, sy, 0, 9);
        } else {
            lemma_neighbor_index(-ex, -ey);
            let n = choose|n: int|
                0 <= n < 8 && #[trigger] neighbor_dx(n) == -ex && neighbor_dy(n) == -ey;
            assert(x + neighbor_dx(n) * c == nx) by (nonlinear_arith)
                requires neighbor_dx(n) == -ex, nx == x - ex * c;
            assert(y + neighbor_dy(n) * c == ny) by (nonlinear_arith)
                requires neighbor_dy(n) == -ey, ny == y - ey * c;
            assert(sample_x(w, x, c, n) == nx);
            assert(sample_y(h, y, c, n) == ny);
            assert(candidate(g, w, h, x, y, c, n + 1) == g[ny * w + nx]);
            lemma_fold_picks_seed(g, w, h, x, y, c, sx, sy, n + 1, 9);
        }
    }
}

/// Helper: after `i` of `k` passes the seed has filled every pixel
/// whose per-axis offsets are multiples of `exp2(k - i)` within
/// `exp2(i) - 1` such steps, and the grid stays valid and single-seed.
proof fn lemma_run_covered(w: int, h: int, sx: usize, sy: usize, k: nat, i: nat)
    requires
        1 <= w <= MAX_DIM,
        1 <= h <= MAX_DIM,
        sx < w,
        sy < h,
        i <= k,
    ensures
        grid_ok(run_upto(seed_grid(w, h, sx as int, sy as int), w, h, k, i), w, h),
        only_seed(run_upto(seed_grid(w, h, sx as int, sy as int), w, h, k, i), sx, sy),
        covered(
            run_upto(seed_grid(w, h, sx as int, sy as int), w, h, k, i),
            w,
            h,
            sx,
            sy,
            exp2((k - i) as nat) as int,
            exp2(i) as int - 1,
        ),
    decreases i,
{
    let g0 = seed_grid(w, h, sx as int, sy as int);
    if i == 0 {
        assert(run_upto(g0, w, h, k, 0) == g0);
        assert((sy as int) * w + (sx as int) < w * h) by (nonlinear_arith)
            requires 0 <= (sx as int) < w, 0 <= (sy as int) < h;
        assert forall|j: int| 0 <= j < g0.len() implies cell_ok(g0[j], w, h) by {}
        assert forall|j: int|
            0 <= j < g0.len() implies (g0[j] == Cell::Empty || g0[j] == (Cell::Seed {
            x: sx,
            y: sy,
        })) by {}
        let c = exp2(k) as int;
        assert forall|x: int, y: int|
            0 <= x < w && 0 <= y < h && aligned(x - sx, c, exp2(0) as int - 1) && aligned(
                y - sy,
                c,
                exp2(0) as int - 1,
            ) implies #[trigger] g0[y * w + x] == (Cell::Seed { x: sx, y: sy }) by {
            let mx = choose|m: int| x - sx == #[trigger] (m * c) && 0 <= m <= 0;
            let my = choose|m: int| y - sy == #[trigger] (m * c) && 0 <= m <= 0;
            assert(x - sx == 0) by (nonlinear_arith)
                requires x - sx == mx * c, mx == 0;
            assert(y - sy == 0) by (nonlinear_arith)
                requires y - sy == my * c, my == 0;
        }
    } else {
        lemma_run_covered(w, h, sx, sy, k, (i - 1) as nat);
        let g_prev = run_upto(g0, w, h, k, (i - 1) as nat);
        let c = exp2((k - i) as nat) as int;
        let r = exp2((i - 1) as nat) as int - 1;
        lemma_exp2_le(0, (k - i) as nat);
        lemma_exp2_le(0, (i - 1) as nat);
        assert(exp2((k - (i - 1) as nat) as nat) == 2 * exp2((k - i) as nat));
        assert(exp2(i) == 2 * exp2((i - 1) as nat));
        lemma_covered_step(g_prev, w, h, sx, sy, c, r);
        lemma_step_grid_ok(g_prev, w, h, c);
        lemma_step_only_seed(g_prev, w, h, c, sx, sy);
        assert(run_upto(g0, w, h, k, i) == step_grid(g_prev, w, h, c));
    }
}

/// Helper: after `i` of `k` passes every filled pixel lies within
/// Chebyshev distance `exp2(k) - exp2(k - i)` of the seed.
proof fn lemma_run_spread(w: int, h: int, sx: usize, sy: usize, k: nat, i: nat)
    requires
        1 <= w <= MAX_DIM,
        1 <= h <= MAX_DIM,
        sx < w,
        sy < h,
        i <= k,
    ensures
        spread_within(
            run_upto(seed_grid(w, h, sx as int, sy as int), w, h, k, i),
            w,
            h,
            sx as int,
            sy as int,
            exp2(k) as int - exp2((k - i) as nat) as int,
        ),
    decreases i,
{
    let g0 = seed_grid(w, h, sx as int, sy as int);
    if i == 0 {
        assert forall|x: int, y: int|
            0 <= x < w && 0 <= y < h && #[trigger] g0[y * w + x] != Cell::Empty implies -(exp2(k)
            as int - exp2(k) as int) <= x - sx <= exp2(k) as int - exp2(k) as int && -(exp2(k)
            as int - exp2(k) as int) <= y - sy <= exp2(k) as int - exp2(k) as int by {
            let j = y * w + x;
            assert(0 <= j < w * h) by (nonlinear_arith)
                requires 0 <= x < w, 0 <= y < h, j == y * w + x;
            lemma_fundamental_div_mod_converse(j, w, y, x);
            assert(j == (sy as int) * w + (sx as int));
            lemma_fundamental_div_mod_converse(j, w, sy as int, sx as int);
        }
    } else {
        lemma_run_spread(w, h, sx, sy, k, (i - 1) as nat);
        lemma_run_covered(w, h, sx, sy, k, (i - 1) as nat);
        let g_prev = run_upto(g0, w, h, k, (i - 1) as nat);
        let c = exp2((k - i) as nat) as int;
        lemma_exp2_le(0, (k - i) as nat);
        lemma_exp2_le((k - i) as nat, (k - (i - 1) as nat) as nat);
        lemma_exp2_le((k - (i - 1) as nat) as nat, k);
        assert(exp2((k - (i - 1) as nat) as nat) == 2 * exp2((k - i) as nat));
        lemma_step_spread(
            g_prev,
            w,
            h,
            c,
            sx as int,
            sy as int,
            exp2(k) as int - exp2((k - (i - 1) as nat) as nat) as int,
        );
        assert(run_upto(g0, w, h, k, i) == step_grid(g_prev, w, h, c));
    }
}

/// Helper: the pass count of a field whose largest dimension is
/// exactly a power of two is that power's exponent.
proof fn lemma_iter_count_exact(k: nat)
    ensures
        iter_count(exp2(k)) == k,
    decreases k,
{
    if k > 0 {
        lemma_exp2_le(0, (k - 1) as nat);
        assert(exp2(k) == 2 * exp2((k - 1) as nat));
        assert((exp2(k) + 1) / 2 == exp2((k - 1) as nat));
        lemma_iter_count_exact((k - 1) as nat);
    }
}

/// After the full step sequence every pixel of the field carries the
/// seed: the computed pass count fully propagates a single seed
/// across the whole field, whatever its size.
pub proof fn lemma_full_propagation(w: int, h: int, sx: usize, sy: usize)
    requires
        1 <= w <= MAX_DIM,
        1 <= h <= MAX_DIM,
        sx < w,
        sy < h,
    ensures
        converged_grid(w, h, sx as int, sy as int).len() == w * h,
        forall|x: int, y: int|
            0 <= x < w && 0 <= y < h ==> #[trigger] converged_grid(w, h, sx as int, sy as int)[y
                * w + x] == (Cell::Seed { x: sx, y: sy }),
{
    let k = dims_iterations(w, h);
    let n = if w >= h { w } else { h };
    lemma_iter_count_bounds(n as nat);
    lemma_run_covered(w, h, sx, sy, k, k);
    let g = converged_grid(w, h, sx as int, sy as int);
    lemma_exp2_le(0, k);
    assert forall|x: int, y: int|
        0 <= x < w && 0 <= y < h implies #[trigger] g[y * w + x] == (Cell::Seed {
        x: sx,
        y: sy,
    }) by {
        assert(exp2(k) >= n);
        assert((x - sx) == (x - sx) * 1) by (nonlinear_arith);
        assert((y - sy) == (y - sy) * 1) by (nonlinear_arith);
        assert(aligned(x - sx, 1, exp2(k) as int - 1));
        assert(aligned(y - sy, 1, exp2(k) as int - 1));
        assert((k - k) as nat == 0);
    }
}

/// The seed's own pixel decodes to a distance of exactly zero after
/// the full sequence, for every field size.
pub proof fn lemma_seed_pixel_distance_zero(w: int, h: int, sx: usize, sy: usize)
    requires
        1 <= w <= MAX_DIM,
        1 <= h <= MAX_DIM,
        sx < w,
        sy < h,
    ensures
        frame_image(w, h, sx as int, sy as int)[(sy as int) * w + sx as int] == Some(0u64),
{
    lemma_decoded_distance_exact(w, h, sx, sy, sx as int, sy as int);
}

/// The decoded image is exact for a single seed: every pixel shows
/// precisely its squared Euclidean distance to the seed.  The jump
/// flooding approximation loses nothing here, because the only seed
/// value that can ever reach a pixel is the true one.
pub proof fn lemma_decoded_distance_exact(w: int, h: int, sx: usize, sy: usize, x: int, y: int)
    requires
        1 <= w <= MAX_DIM,
        1 <= h <= MAX_DIM,
        sx < w,
        sy < h,
        0 <= x < w,
        0 <= y < h,
    ensures
        frame_image(w, h, sx as int, sy as int)[y * w + x] == Some(
            dist_sq(x, y, sx as int, sy as int) as u64,
        ),
{
    lemma_full_propagation(w, h, sx, sy);
    let g = converged_grid(w, h, sx as int, sy as int);
    let j = y * w + x;
    assert(0 <= j < w * h) by (nonlinear_arith)
        requires 0 <= x < w, 0 <= y < h, j == y * w + x;
    lemma_fundamental_div_mod_converse(j, w, y, x);
    assert(g[j] == (Cell::Seed { x: sx, y: sy }));
}

/// No inversion along any ray: a pixel at least as close to the seed
/// as another never decodes to a larger distance.  (Squared distances
/// order pixels exactly as real distances do.)
pub proof fn lemma_distance_monotone(
    w: int,
    h: int,
    sx: usize,
    sy: usize,
    x1: int,
    y1: int,
    x2: int,
    y2: int,
)
    requires
        1 <= w <= MAX_DIM,
        1 <= h <= MAX_DIM,
        sx < w,
        sy < h,
        0 <= x1 < w,
        0 <= y1 < h,
        0 <= x2 < w,
        0 <= y2 < h,
        dist_sq(x1, y1, sx as int, sy as int) <= dist_sq(x2, y2, sx as int, sy as int),
    ensures
        frame_image(w, h, sx as int, sy as int)[y1 * w + x1] == Some(
            dist_sq(x1, y1, sx as int, sy as int) as u64,
        ),
        frame_image(w, h, sx as int, sy as int)[y2 * w + x2] == Some(
            dist_sq(x2, y2, sx as int, sy as int) as u64,
        ),
        dist_sq(x1, y1, sx as int, sy as int) as u64 <= dist_sq(
            x2,
            y2,
            sx as int,
            sy as int,
        ) as u64,
{
    lemma_decoded_distance_exact(w, h, sx, sy, x1, y1);
    lemma_decoded_distance_exact(w, h, sx, sy, x2, y2);
    assert(0 <= (x1 - sx) * (x1 - sx) + (y1 - sy) * (y1 - sy) < 0x8000_0000) by (nonlinear_arith)
        requires -32767 <= x1 - sx <= 32767, -32767 <= y1 - sy <= 32767;
    assert(0 <= (x2 - sx) * (x2 - sx) + (y2 - sy) * (y2 - sy) < 0x8000_0000) by (nonlinear_arith)
        requires -32767 <= x2 - sx <= 32767, -32767 <= y2 - sy <= 32767;
}

/// Rendering is a function of field size and seed position alone: two
/// pipelines that agree on those display byte-identical images, so two
/// runs of one pipeline do too.
pub proof fn lemma_render_deterministic(p1: FrameOrchestrator, p2: FrameOrchestrator)
    requires
        p1.effective_width() == p2.effective_width(),
        p1.effective_height() == p2.effective_height(),
        p1.uniforms.seed_x == p2.uniforms.seed_x,
        p1.uniforms.seed_y == p2.uniforms.seed_y,
    ensures
        p1.frame_spec() == p2.frame_spec(),
{
}

/// A pipeline with a queued resize renders the next frame exactly as
/// a pipeline freshly created at that size with the same seed.
pub proof fn lemma_resize_renders_like_fresh(
    resized: FrameOrchestrator,
    fresh: FrameOrchestrator,
    width: usize,
    height: usize,
)
    requires
        resized.pending_resize == Some((width, height)),
        fresh.pending_resize.is_none(),
        fresh.buffers.width() == width,
        fresh.buffers.height() == height,
        resized.uniforms.seed_x == fresh.uniforms.seed_x,
        resized.uniforms.seed_y == fresh.uniforms.seed_y,
    ensures
        resized.frame_spec() == fresh.frame_spec(),
{
}

/// With a corner seed and a largest dimension of exactly `exp2(k)`,
/// the computed pass count is exactly `k`, and those `k` passes carry
/// the seed all the way to the opposite corner.
pub proof fn lemma_pass_count_sufficient(k: nat, w: int, h: int)
    requires
        w == exp2(k),
        1 <= h <= w,
        w <= MAX_DIM,
    ensures
        dims_iterations(w, h) == k,
        converged_grid(w, h, 0, 0)[(h - 1) * w + (w - 1)] == (Cell::Seed { x: 0, y: 0 }),
{
    lemma_iter_count_exact(k);
    lemma_full_propagation(w, h, 0, 0);
}

/// One pass too few cannot reach the far corner: after any `i < k`
/// passes of the `k`-pass sequence, the pixel opposite a corner seed
/// still holds the sentinel, because information travels at most the
/// sum of the step radii, which is `exp2(k) - exp2(k - i)` pixels.
pub proof fn lemma_pass_count_necessary(k: nat, w: int, h: int, i: nat)
    requires
        w == exp2(k),
        1 <= h <= w,
        w <= MAX_DIM,
        i < k,
    ensures
        run_upto(seed_grid(w, h, 0, 0), w, h, k, i)[(h - 1) * w + (w - 1)] == Cell::Empty,
{
    lemma_run_spread(w, h, 0, 0, k, i);
    let g = run_upto(seed_grid(w, h, 0, 0), w, h, k, i);
    let x = w - 1;
    let y = h - 1;
    lemma_exp2_le(0, (k - i) as nat);
    lemma_exp2_le((k - i) as nat, k);
    if g[y * w + x] != Cell::Empty {
        assert(x - 0 <= exp2(k) as int - exp2((k - i) as nat) as int);
        assert(exp2((k - i) as nat) == 2 * exp2((k - i - 1) as nat));
        lemma_exp2_le(0, (k - i - 1) as nat);
        assert(false);
    }
}

} // verus!


