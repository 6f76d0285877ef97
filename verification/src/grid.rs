//! Rectangular row-major grids of `u64` values.
//!
//! A `Grid` stores its cells in a two-dimensional `ndarray` array. Verus does
//! not look inside that array; what the grid holds is named by `grid_seq` and
//! `grid_width`, and the few `ndarray` calls stand behind trusted wrappers
//! whose contracts speak over those names. Everything else about grids is
//! verified against them.

use vstd::prelude::*;
use crate::error::DenseError;

verus! {

/// A rectangular grid: `rows` examples of `columns` values each, row-major.
#[derive(Debug)]
#[verifier::external_body]
pub struct Grid {
    inner: ndarray::Array2<u64>,
}

/// The rows that a grid holds, outermost first, each row a sequence of cells.
pub uninterp spec fn grid_seq(g: Grid) -> Seq<Seq<u64>>;

/// The number of columns of a grid (also meaningful when it has no rows).
pub uninterp spec fn grid_width(g: Grid) -> nat;

/// The first `rows * cols` values of `v` arranged as `rows` rows of `cols` cells.
pub open spec fn rows_of(v: Seq<u64>, rows: nat, cols: nat) -> Seq<Seq<u64>> {
    Seq::new(rows, |i: int| v.subrange(i * cols, i * cols + cols))
}

impl Grid {
    /// Relies on ndarray's `Array::from_shape_vec` with shape `(rows, cols)`:
    /// it builds the array whose row-major contents are exactly `values`, and
    /// it succeeds whenever the length matches the shape and each axis is
    /// small enough that no allocation can pass ndarray's cap of `isize::MAX`
    /// bytes (`u64` cells take 8 bytes each, hence the `16 * axis` bounds,
    /// which every in-memory grid obeys).
    #[verifier::external_body]
    fn new_raw(rows: usize, cols: usize, values: Vec<u64>) -> (g: Grid)
        requires
            values@.len() == rows * cols,
            16 * rows <= usize::MAX,
            16 * cols <= usize::MAX,
        ensures
            grid_seq(g) == rows_of(values@, rows as nat, cols as nat),
            grid_width(g) == cols as nat,
    {
        Grid { inner: ndarray::Array::from_shape_vec((rows, cols), values).unwrap() }
    }

    /// Relies on ndarray's `nrows` and `ncols`: the two axis lengths of the
    /// array, every row having exactly `ncols` cells.
    #[verifier::external_body]
    fn shape_raw(&self) -> (d: (usize, usize))
        ensures
            d.0 as nat == grid_seq(*self).len(),
            d.1 as nat == grid_width(*self),
            forall|i: int|
                0 <= i < grid_seq(*self).len() ==> (#[trigger] grid_seq(*self)[i]).len() == d.1 as nat,
    {
        (self.inner.nrows(), self.inner.ncols())
    }

    /// Relies on ndarray's indexing: the cell at row `i`, column `j`.
    #[verifier::external_body]
    fn cell_raw(&self, i: usize, j: usize) -> (v: u64)
        requires
            (i as nat) < grid_seq(*self).len(),
            (j as nat) < grid_seq(*self)[i as int].len(),
        ensures
            v == grid_seq(*self)[i as int][j as int],
    {
        self.inner[[i, j]]
    }

    /// Builds the grid whose `rows` rows, of `cols` cells each, hold `values`
    /// in row-major order; refuses a `values` of any other length.
    pub fn from_flat(rows: usize, cols: usize, values: Vec<u64>) -> (r: Result<Grid, DenseError>)
        requires
            16 * rows <= usize::MAX,
            16 * cols <= usize::MAX,
        ensures
            r is Ok <==> values@.len() == rows * cols,
            r matches Ok(g) ==> grid_seq(g) == rows_of(values@, rows as nat, cols as nat)
                && grid_seq(g).len() == rows as nat && grid_width(g) == cols as nat,
            r matches Err(e) ==> e == DenseError::FlatLengthMismatch,
    {
        let len = values.len();
        match rows.checked_mul(cols) {
            Some(n) => {
                if n == len {
                    Ok(Grid::new_raw(rows, cols, values))
                } else {
                    Err(DenseError::FlatLengthMismatch)
                }
            },
            None => Err(DenseError::FlatLengthMismatch),
        }
    }

    /// The number of rows.
    pub fn nrows(&self) -> (n: usize)
        ensures
            n as nat == grid_seq(*self).len(),
    {
        self.shape_raw().0
    }

    /// The number of columns; every row holds exactly this many cells.
    pub fn ncols(&self) -> (c: usize)
        ensures
            c as nat == grid_width(*self),
            forall|i: int|
                0 <= i < grid_seq(*self).len() ==> (#[trigger] grid_seq(*self)[i]).len()
                    == grid_width(*self),
    {
        self.shape_raw().1
    }

    /// The cell at row `i`, column `j`.
    pub fn get(&self, i: usize, j: usize) -> (v: u64)
        requires
            (i as nat) < grid_seq(*self).len(),
            (j as nat) < grid_seq(*self)[i as int].len(),
        ensures
            v == grid_seq(*self)[i as int][j as int],
    {
        self.cell_raw(i, j)
    }

    /// All cells in row-major order.
    pub fn to_flat(&self) -> (v: Vec<u64>)
        ensures
            v@.len() == grid_seq(*self).len() * grid_width(*self),
            forall|i: int, j: int|
                0 <= i < grid_seq(*self).len() && 0 <= j < grid_width(*self)
                    ==> v@[i * grid_width(*self) + j] == #[trigger] grid_seq(*self)[i][j],
    {
        let (n, w) = self.shape_raw();
        let mut v: Vec<u64> = Vec::new();
        let mut i: usize = 0;
        while i < n
            invariant
                i <= n,
                n as nat == grid_seq(*self).len(),
                w as nat == grid_width(*self),
                forall|r: int|
                    0 <= r < grid_seq(*self).len() ==> (#[trigger] grid_seq(*self)[r]).len()
                        == grid_width(*self),
                v@.len() == i * (w as int),
                forall|r: int, c: int|
                    0 <= r < i && 0 <= c < w ==> v@[r * (w as int) + c] == #[trigger] grid_seq(
                        *self,
                    )[r][c],
            decreases n - i,
        {
            let mut j: usize = 0;
            while j < w
                invariant
                    i < n,
                    j <= w,
                    n as nat == grid_seq(*self).len(),
                    w as nat == grid_width(*self),
                    forall|r: int|
                        0 <= r < grid_seq(*self).len() ==> (#[trigger] grid_seq(*self)[r]).len()
                            == grid_width(*self),
                    v@.len() == i * (w as int) + j,
                    forall|r: int, c: int|
                        0 <= r < i && 0 <= c < w ==> v@[r * (w as int) + c] == #[trigger] grid_seq(
                            *self,
                        )[r][c],
                    forall|c: int|
                        0 <= c < j ==> v@[i * (w as int) + c] == #[trigger] grid_seq(*self)[i as int][c],
                decreases w - j,
            {
                let x = self.get(i, j);
                v.push(x);
                proof {
                    assert forall|r: int, c: int| 0 <= r < i && 0 <= c < w implies v@[r * (w as int)
                        + c] == #[trigger] grid_seq(*self)[r][c] by {
                        assert(r * (w as int) + c < i * (w as int)) by (nonlinear_arith)
                            requires
                                0 <= r,
                                r < i as int,
                                0 <= c,
                                c < w as int,
                        ;
                    }
                }
                j = j + 1;
            }
            proof {
                assert forall|r: int, c: int| 0 <= r < i + 1 && 0 <= c < w implies v@[r * (w as int)
                    + c] == #[trigger] grid_seq(*self)[r][c] by {
                    if r == i {
                        assert(i * (w as int) + c < (i + 1) * (w as int)) by (nonlinear_arith)
                            requires
                                0 <= c,
                                c < w as int,
                        ;
                    } else {
                        assert(r * (w as int) + c < i * (w as int)) by (nonlinear_arith)
                            requires
                                0 <= r,
                                r < i as int,
                                0 <= c,
                                c < w as int,
                        ;
                    }
                }
                assert((i + 1) * (w as int) == i * (w as int) + (w as int)) by (nonlinear_arith);
            }
            i = i + 1;
        }
        v
    }

    /// Whether two grids have the same shape and the same cells.
    pub fn same_as(&self, other: &Grid) -> (r: bool)
        ensures
            r <==> (grid_seq(*self) == grid_seq(*other) && grid_width(*self) == grid_width(
                *other,
            )),
    {
        let (n, w) = self.shape_raw();
        let (on, ow) = other.shape_raw();
        if n != on || w != ow {
            return false;
        }
        let mut i: usize = 0;
        while i < n
            invariant
                i <= n,
                n as nat == grid_seq(*self).len(),
                w as nat == grid_width(*self),
                n as nat == grid_seq(*other).len(),
                w as nat == grid_width(*other),
                forall|r: int|
                    0 <= r < grid_seq(*self).len() ==> (#[trigger] grid_seq(*self)[r]).len()
                        == grid_width(*self),
                forall|r: int|
                    0 <= r < grid_seq(*other).len() ==> (#[trigger] grid_seq(*other)[r]).len()
                        == grid_width(*other),
                forall|r: int, c: int|
                    0 <= r < i && 0 <= c < w ==> #[trigger] grid_seq(*self)[r][c] == #[trigger] grid_seq(
                        *other,
                    )[r][c],
            decreases n - i,
        {
            let mut j: usize = 0;
            while j < w
                invariant
                    i < n,
                    j <= w,
                    n as nat == grid_seq(*self).len(),
                    w as nat == grid_width(*self),
                    n as nat == grid_seq(*other).len(),
                    w as nat == grid_width(*other),
                    forall|r: int|
                        0 <= r < grid_seq(*self).len() ==> (#[trigger] grid_seq(*self)[r]).len()
                            == grid_width(*self),
                    forall|r: int|
                        0 <= r < grid_seq(*other).len() ==> (#[trigger] grid_seq(*other)[r]).len()
                            == grid_width(*other),
                    forall|r: int, c: int|
                        0 <= r < i && 0 <= c < w ==> #[trigger] grid_seq(*self)[r][c]
                            == #[trigger] grid_seq(*other)[r][c],
                    forall|c: int|
                        0 <= c < j ==> #[trigger] grid_seq(*self)[i as int][c] == #[trigger] grid_seq(
                            *other,
                        )[i as int][c],
                decreases w - j,
            {
                if self.get(i, j) != other.get(i, j) {
                    return false;
                }
                j = j + 1;
            }
            i = i + 1;
        }
        proof {
            assert(grid_seq(*self) =~~= grid_seq(*other));
        }
        true
    }
}

} // verus!
