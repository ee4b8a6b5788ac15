//! The two single-shot passes around the step sequence: the seed pass
//! that rasterizes the seed point into a fresh field, and the final
//! composite pass that decodes the converged field into per-pixel
//! squared distances for display.

use vstd::prelude::*;
use crate::field::{Cell, Field, MAX_DIM};
use crate::step::dist_sq;
use crate::step::dist_sq_exec;
use vstd::arithmetic::div_mod::lemma_fundamental_div_mod_converse;

verus! {

/// The initial field: the seed pixel encodes its own coordinate as the
/// nearest seed, every other pixel holds the sentinel.
pub open spec fn seed_grid(w: int, h: int, sx: int, sy: int) -> Seq<Cell> {
    Seq::new(
        (w * h) as nat,
        |j: int|
            if j == sy * w + sx {
                Cell::Seed { x: sx as usize, y: sy as usize }
            } else {
                Cell::Empty
            },
    )
}

/// What the composite pass shows for one cell: nothing for the
/// sentinel, otherwise the squared Euclidean distance from the pixel
/// to the seed the cell carries.  Squared distances order pixels
/// exactly as the real distances do.
pub open spec fn decode_cell(c: Cell, x: int, y: int) -> Option<u64> {
    match c {
        Cell::Empty => None,
        Cell::Seed { x: sx, y: sy } => Some(dist_sq(x, y, sx as int, sy as int) as u64),
    }
}

/// The whole displayed image, pixel by pixel in row-major order.
pub open spec fn decode_grid(g: Seq<Cell>, w: int) -> Seq<Option<u64>> {
    Seq::new(g.len(), |j: int| decode_cell(g[j], j % w, j / w))
}

/// The seed pass: writes a fresh field in which the seed pixel carries
/// its own coordinate and every other pixel carries the sentinel.
/// This output becomes the initial source of the step sequence.
pub fn seed_pass(width: usize, height: usize, sx: usize, sy: usize) -> (f: Field)
    requires
        1 <= width <= MAX_DIM,
        1 <= height <= MAX_DIM,
        sx < width,
        sy < height,
    ensures
        f.wf(),
        f.width == width,
        f.height == height,
        f.cells@ == seed_grid(width as int, height as int, sx as int, sy as int),
{
    let ghost wi = width as int;
    let ghost hi = height as int;
    proof {
        assert(wi * hi <= MAX_DIM * MAX_DIM) by (nonlinear_arith)
            requires 1 <= wi <= MAX_DIM, 1 <= hi <= MAX_DIM;
        assert((sy as int) * wi + (sx as int) < wi * hi) by (nonlinear_arith)
            requires 0 <= (sx as int) < wi, 0 <= (sy as int) < hi;
    }
    let n: usize = width * height;
    let seed_index: usize = sy * width + sx;
    let mut cells: Vec<Cell> = Vec::new();
    let mut j: usize = 0;
    while j < n
        invariant
            j <= n,
            n == wi * hi,
            wi == width as int,
            hi == height as int,
            sx < width,
            sy < height,
            seed_index == (sy as int) * wi + (sx as int),
            cells@.len() == j,
            forall|i: int|
                0 <= i < j ==> cells@[i] == (if i == (sy as int) * wi + (sx as int) {
                    Cell::Seed { x: sx, y: sy }
                } else {
                    Cell::Empty
                }),
        decreases n - j,
    {
        if j == seed_index {
            cells.push(Cell::Seed { x: sx, y: sy });
        } else {
            cells.push(Cell::Empty);
        }
        j = j + 1;
    }
    let f = Field { width, height, cells };
    proof {
        assert(f.cells@ =~= seed_grid(wi, hi, sx as int, sy as int));
    }
    f
}

/// The final composite pass: reads the converged field and decodes,
/// for every pixel, the squared distance to its nearest seed (or
/// nothing where the sentinel survived).  It only reads the field; a
/// caller maps these values to colors.
pub fn composite(f: &Field) -> (img: Vec<Option<u64>>)
    requires
        f.wf(),
    ensures
        img@ == decode_grid(f.cells@, f.width as int),
{
    let ghost wi = f.width as int;
    let ghost hi = f.height as int;
    let w = f.width;
    let h = f.height;
    let mut img: Vec<Option<u64>> = Vec::new();
    let mut x: usize = 0;
    let mut y: usize = 0;
    let mut j: usize = 0;
    while y < h
        invariant
            f.wf(),
            w == f.width,
            h == f.height,
            wi == w as int,
            hi == h as int,
            y <= h,
            x < w,
            y == h ==> x == 0,
            j as int == (y as int) * wi + (x as int),
            img@.len() == j,
            forall|i: int| 0 <= i < j ==> img@[i] == decode_cell(f.cells@[i], i % wi, i / wi),
        decreases hi - y, wi - x,
    {
        proof {
            assert((y as int) * wi + (x as int) < wi * hi) by (nonlinear_arith)
                requires 0 <= (x as int) < wi, 0 <= (y as int) < hi;
            assert(wi * hi <= 0x4000_0000) by (nonlinear_arith)
                requires 1 <= wi <= 32768, 1 <= hi <= 32768;
            lemma_fundamental_div_mod_converse(j as int, wi, y as int, x as int);
        }
        let d: Option<u64> = match f.cells[j] {
            Cell::Empty => None,
            Cell::Seed { x: cx, y: cy } => Some(dist_sq_exec(x, y, cx, cy)),
        };
        img.push(d);
        j = j + 1;
        x = x + 1;
        if x == w {
            x = 0;
            y = y + 1;
            proof {
                assert((y as int) * wi == ((y as int) - 1) * wi + wi) by (nonlinear_arith);
            }
        }
    }
    proof {
        assert(j as int == hi * wi) by (nonlinear_arith)
            requires j as int == (h as int) * wi, hi == h as int;
        assert(wi * hi == hi * wi) by (nonlinear_arith);
        assert(img@ =~= decode_grid(f.cells@, wi));
    }
    img
}

} // verus!
