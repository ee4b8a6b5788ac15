//! The field texture model: a grid of pixels, each holding either the
//! "no seed known yet" sentinel or the coordinate of a seed point.

use vstd::prelude::*;

verus! {

/// Largest width or height the model supports.  Keeping both dimensions
/// under this bound keeps every squared distance inside `u64` and every
/// pixel index inside `usize`.
pub const MAX_DIM: usize = 32768;

/// One pixel of a field texture: either the sentinel, or the coordinate
/// of the nearest seed seen so far.
#[derive(Clone, Copy, PartialEq, Eq, Structural, Debug)]
pub enum Cell {
    Empty,
    Seed { x: usize, y: usize },
}

/// A cell is valid for a `w` by `h` field when any seed coordinate it
/// carries lies inside the field.
pub open spec fn cell_ok(c: Cell, w: int, h: int) -> bool {
    match c {
        Cell::Empty => true,
        Cell::Seed { x, y } => x < w && y < h,
    }
}

/// A grid is valid when it has exactly one cell per pixel and every
/// cell's seed coordinate is in bounds.
pub open spec fn grid_ok(g: Seq<Cell>, w: int, h: int) -> bool {
    &&& g.len() == w * h
    &&& forall|j: int| 0 <= j < g.len() ==> cell_ok(g[j], w, h)
}

/// A field texture: row-major storage, one `Cell` per pixel.
pub struct Field {
    pub width: usize,
    pub height: usize,
    pub cells: Vec<Cell>,
}

impl Field {
    /// Well-formed: positive bounded dimensions and a valid grid.
    pub open spec fn wf(self) -> bool {
        &&& 1 <= self.width <= MAX_DIM
        &&& 1 <= self.height <= MAX_DIM
        &&& grid_ok(self.cells@, self.width as int, self.height as int)
    }

    /// The cell at pixel `(x, y)`.
    pub open spec fn at(self, x: int, y: int) -> Cell {
        self.cells@[y * self.width + x]
    }
}

/// Allocates a field with every pixel set to the sentinel; both
/// ping-pong textures start in this state.
pub fn alloc_empty(width: usize, height: usize) -> (f: Field)
    requires
        1 <= width <= MAX_DIM,
        1 <= height <= MAX_DIM,
    ensures
        f.wf(),
        f.width == width,
        f.height == height,
        forall|j: int| 0 <= j < f.cells@.len() ==> f.cells@[j] == Cell::Empty,
{
    proof {
        assert(width * height <= MAX_DIM * MAX_DIM) by (nonlinear_arith)
            requires 1 <= width <= MAX_DIM, 1 <= height <= MAX_DIM;
    }
    let n: usize = width * height;
    let mut cells: Vec<Cell> = Vec::new();
    let mut j: usize = 0;
    while j < n
        invariant
            j <= n,
            cells@.len() == j,
            forall|i: int| 0 <= i < j ==> cells@[i] == Cell::Empty,
        decreases n - j,
    {
        cells.push(Cell::Empty);
        j = j + 1;
    }
    Field { width, height, cells }
}

} // verus!
