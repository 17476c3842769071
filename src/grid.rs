//! A dense two-dimensional table of integers, held in an `ndarray` array.
use vstd::prelude::*;

verus! {

/// A rows-by-columns table of `i64` cells.
#[verifier::external_body]
pub struct Grid {
    cells: ndarray::Array2<i64>,
}

/// What the table holds: the cell at row `r` and column `c` is `grid_cells(g)[(r, c)]`.
pub uninterp spec fn grid_cells(g: Grid) -> Map<(int, int), i64>;

/// The number of rows and columns the table was made with.
pub uninterp spec fn grid_shape(g: Grid) -> (nat, nat);

impl Grid {
    pub open spec fn rows(&self) -> nat {
        grid_shape(*self).0
    }

    pub open spec fn cols(&self) -> nat {
        grid_shape(*self).1
    }

    pub open spec fn at(&self, r: int, c: int) -> i64 {
        grid_cells(*self)[(r, c)]
    }

    pub open spec fn in_shape(&self, r: int, c: int) -> bool {
        0 <= r < self.rows() && 0 <= c < self.cols()
    }

    /// Relies on `ndarray::Array2::from_elem`: a table of the given shape with
    /// every cell set to `v`. It panics when an axis length, the cell count or
    /// the byte size of the buffer overflows, which `requires` leaves out.
    #[verifier::external_body]
    pub fn filled(rows: usize, cols: usize, v: i64) -> (g: Grid)
        requires
            rows <= 0x00ff_ffff_ffff_ffff,
            cols <= 0x00ff_ffff_ffff_ffff,
            rows * cols <= 0x00ff_ffff_ffff_ffff,
        ensures
            g.rows() == rows,
            g.cols() == cols,
            forall|r: int, c: int| g.in_shape(r, c) ==> #[trigger] g.at(r, c) == v,
    {
        Grid { cells: ndarray::Array2::from_elem((rows, cols), v) }
    }

    /// Relies on indexing an `ndarray::Array2` by `[r, c]`: the cell there.
    #[verifier::external_body]
    pub fn get(&self, r: usize, c: usize) -> (v: i64)
        requires
            self.in_shape(r as int, c as int),
        ensures
            v == self.at(r as int, c as int),
    {
        self.cells[[r, c]]
    }

    /// Relies on mutable indexing of an `ndarray::Array2` by `[r, c]`: that
    /// cell alone changes.
    #[verifier::external_body]
    pub fn set(&mut self, r: usize, c: usize, v: i64)
        requires
            old(self).in_shape(r as int, c as int),
        ensures
            grid_shape(*final(self)) == grid_shape(*old(self)),
            grid_cells(*final(self)) == grid_cells(*old(self)).insert((r as int, c as int), v),
    {
        self.cells[[r, c]] = v;
    }
}

} // verus!
