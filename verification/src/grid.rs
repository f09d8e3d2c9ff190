//! A fixed-dimension binary grid: each cell is either solid or empty.
//!
//! The grid is the input of region extraction. Dimensions are arbitrary;
//! cells are addressed by `(x, y)` with `x < width` and `y < height`, stored
//! row-major.

use vstd::prelude::*;

verus! {

use vstd::pervasive::VecAdditionalExecFns;

/// A rectangular grid of cells, each either solid or empty.
pub struct Grid {
    width: usize,
    height: usize,
    solid: Vec<bool>,
}

impl Grid {
    /// The backing store holds exactly one entry per cell.
    pub closed spec fn wf(self) -> bool {
        &&& self.solid@.len() == self.width * self.height
        &&& self.width * self.height <= usize::MAX
    }

    pub closed spec fn spec_width(self) -> int {
        self.width as int
    }

    pub closed spec fn spec_height(self) -> int {
        self.height as int
    }

    /// Whether the cell at `(x, y)` is solid; out-of-bounds positions are
    /// never solid.
    pub closed spec fn sol(self, x: int, y: int) -> bool {
        &&& 0 <= x < self.width
        &&& 0 <= y < self.height
        &&& self.solid@[y * self.width + x]
    }

    proof fn lemma_index_in_range(self, x: int, y: int)
        requires
            self.wf(),
            0 <= x < self.width,
            0 <= y < self.height,
        ensures
            0 <= y * self.width + x < self.solid@.len(),
    {
        assert(0 <= y * self.width + x < self.width * self.height) by (nonlinear_arith)
            requires
                0 <= x < self.width,
                0 <= y < self.height,
        ;
    }

    proof fn lemma_index_injective(self, x: int, y: int, xi: int, yi: int)
        requires
            0 <= x < self.width,
            0 <= y < self.height,
            0 <= xi < self.width,
            0 <= yi < self.height,
            yi * self.width + xi == y * self.width + x,
        ensures
            xi == x && yi == y,
    {
        assert(xi == x && yi == y) by (nonlinear_arith)
            requires
                0 <= x < self.width,
                0 <= y < self.height,
                0 <= xi < self.width,
                0 <= yi < self.height,
                yi * self.width + xi == y * self.width + x,
        ;
    }

    /// A solid cell lies inside the grid.
    pub proof fn lemma_sol_bounds(self, x: int, y: int)
        requires
            self.sol(x, y),
        ensures
            0 <= x < self.spec_width(),
            0 <= y < self.spec_height(),
    {
    }

    /// A well-formed grid's cell count fits in `usize`.
    pub proof fn lemma_dims(self)
        requires
            self.wf(),
        ensures
            self.spec_width() * self.spec_height() <= usize::MAX,
    {
    }

    /// Creates a grid of the given dimensions with every cell empty.
    pub fn new(width: usize, height: usize) -> (g: Grid)
        requires
            width * height <= usize::MAX,
        ensures
            g.wf(),
            g.spec_width() == width,
            g.spec_height() == height,
            forall|x: int, y: int| !g.sol(x, y),
    {
        let n: usize = width * height;
        let mut solid: Vec<bool> = Vec::new();
        let mut i: usize = 0;
        while i < n
            invariant
                i <= n,
                solid@.len() == i,
                forall|j: int| 0 <= j < i ==> !solid@[j],
            decreases n - i,
        {
            solid.push(false);
            i = i + 1;
        }
        let g = Grid { width, height, solid };
        proof {
            assert forall|x: int, y: int| !g.sol(x, y) by {
                if 0 <= x < width && 0 <= y < height {
                    g.lemma_index_in_range(x, y);
                }
            }
        }
        g
    }

    /// Marks the cell at `(x, y)` solid or empty; all other cells keep their
    /// classification.
    pub fn set_solid(&mut self, x: usize, y: usize, value: bool)
        requires
            old(self).wf(),
            x < old(self).spec_width(),
            y < old(self).spec_height(),
        ensures
            final(self).wf(),
            final(self).spec_width() == old(self).spec_width(),
            final(self).spec_height() == old(self).spec_height(),
            final(self).sol(x as int, y as int) == value,
            forall|xi: int, yi: int|
                !(xi == x && yi == y) ==> final(self).sol(xi, yi) == old(self).sol(xi, yi),
    {
        proof {
            self.lemma_index_in_range(x as int, y as int);
        }
        let idx: usize = y * self.width + x;
        self.solid.set(idx, value);
        proof {
            assert forall|xi: int, yi: int| !(xi == x && yi == y) implies self.sol(xi, yi)
                == old(self).sol(xi, yi) by {
                if 0 <= xi < self.width && 0 <= yi < self.height {
                    old(self).lemma_index_in_range(xi, yi);
                    if yi * self.width + xi == y * self.width + x {
                        old(self).lemma_index_injective(x as int, y as int, xi, yi);
                    }
                }
            }
        }
    }

    /// Tests whether the cell at `(x, y)` is solid; out-of-bounds positions
    /// report empty.
    pub fn is_solid(&self, x: usize, y: usize) -> (b: bool)
        requires
            self.wf(),
        ensures
            b == self.sol(x as int, y as int),
    {
        if x < self.width && y < self.height {
            proof {
                self.lemma_index_in_range(x as int, y as int);
            }
            let idx: usize = y * self.width + x;
            self.solid[idx]
        } else {
            false
        }
    }

    /// The grid's width in cells.
    pub fn width(&self) -> (w: usize)
        ensures
            w == self.spec_width(),
    {
        self.width
    }

    /// The grid's height in cells.
    pub fn height(&self) -> (h: usize)
        ensures
            h == self.spec_height(),
    {
        self.height
    }
}

/// Whether the cell at `(x, y)` is solid and exposed: it touches the grid
/// edge, or at least one of its 4-connected neighbours is empty. Such cells
/// are the ones whose region outlines matter for collision geometry.
pub open spec fn exposed_and_solid(g: Grid, x: int, y: int) -> bool {
    &&& g.sol(x, y)
    &&& {
        ||| x == 0
        ||| x == g.spec_width() - 1
        ||| y == 0
        ||| y == g.spec_height() - 1
        ||| !g.sol(x - 1, y)
        ||| !g.sol(x + 1, y)
        ||| !g.sol(x, y - 1)
        ||| !g.sol(x, y + 1)
    }
}

/// Tests whether the cell at `(x, y)` is solid with an exposed side.
pub fn is_exposed_and_solid(grid: &Grid, x: usize, y: usize) -> (b: bool)
    requires
        grid.wf(),
        x < grid.spec_width(),
        y < grid.spec_height(),
    ensures
        b == exposed_and_solid(*grid, x as int, y as int),
{
    if !grid.is_solid(x, y) {
        false
    } else if x == 0 || x + 1 == grid.width() || y == 0 || y + 1 == grid.height() {
        true
    } else {
        !grid.is_solid(x - 1, y) || !grid.is_solid(x + 1, y) || !grid.is_solid(x, y - 1)
            || !grid.is_solid(x, y + 1)
    }
}

} // verus!
