//! The augmented matrix: a rectangular grid with at least one row and at
//! least one column, the last column holding the constants.

use vstd::prelude::*;

verus! {

/// Why a sequence of rows is not an augmented matrix.
#[derive(Debug, Clone, Copy, PartialEq, Eq, Structural)]
pub enum MalformedMatrixError {
    /// There is no row at all.
    NoRows,
    /// The first row is empty, so the matrix would have no column.
    EmptyRow,
    /// Some row differs in length from the first one.
    RaggedRows,
}

/// The grid held by a vector of rows.
pub open spec fn grid_of<T>(rows: Seq<Vec<T>>) -> Seq<Seq<T>> {
    Seq::new(rows.len(), |i: int| rows[i]@)
}

/// Every row of `grid` is as long as the first one.
pub open spec fn rectangular<T>(grid: Seq<Seq<T>>) -> bool {
    forall|i: int| 0 <= i < grid.len() ==> (#[trigger] grid[i]).len() == grid[0].len()
}

/// What `Matrix::from_rows` answers for `grid`: the defect it reports, if any.
pub open spec fn shape_defect<T>(grid: Seq<Seq<T>>) -> Option<MalformedMatrixError> {
    if grid.len() == 0 {
        Some(MalformedMatrixError::NoRows)
    } else if grid[0].len() == 0 {
        Some(MalformedMatrixError::EmptyRow)
    } else if !rectangular(grid) {
        Some(MalformedMatrixError::RaggedRows)
    } else {
        None
    }
}

/// An augmented matrix. Its view is the grid of its entries, row by row.
pub struct Matrix<T> {
    rows: Vec<Vec<T>>,
}

impl<T> Matrix<T> {
    /// The entries, row by row.
    pub closed spec fn view(&self) -> Seq<Seq<T>> {
        grid_of(self.rows@)
    }

    /// The invariant: at least one row, at least one column, all rows of one length.
    pub open spec fn wf(&self) -> bool {
        &&& self@.len() > 0
        &&& self@[0].len() > 0
        &&& rectangular(self@)
    }

    /// Number of rows (equations).
    pub open spec fn nrows(&self) -> nat {
        self@.len()
    }

    /// Number of columns, the constant column included.
    pub open spec fn ncols(&self) -> nat {
        self@[0].len()
    }

    /// Number of variable columns.
    pub open spec fn nvars(&self) -> nat {
        (self@[0].len() - 1) as nat
    }

    /// Builds a matrix from its rows, or says what is wrong with them.
    pub fn from_rows(rows: Vec<Vec<T>>) -> (res: Result<Matrix<T>, MalformedMatrixError>)
        ensures
            res.is_ok() <==> shape_defect(grid_of(rows@)).is_none(),
            res matches Ok(m) ==> m.wf() && m@ == grid_of(rows@),
            res matches Err(e) ==> shape_defect(grid_of(rows@)) == Some(e),
    {
        if rows.len() == 0 {
            return Err(MalformedMatrixError::NoRows);
        }
        let cols: usize = rows[0].len();
        if cols == 0 {
            return Err(MalformedMatrixError::EmptyRow);
        }
        let mut i: usize = 1;
        while i < rows.len()
            invariant
                1 <= i <= rows.len(),
                cols == rows[0].len(),
                cols > 0,
                forall|k: int| 0 <= k < i ==> (#[trigger] rows[k]).len() == cols,
            decreases rows.len() - i,
        {
            if rows[i].len() != cols {
                proof {
                    let grid = grid_of(rows@);
                    assert(grid[i as int] == rows[i as int]@);
                    assert(grid[0] == rows[0]@);
                    assert(grid[i as int].len() != grid[0].len());
                    assert(!rectangular(grid));
                }
                return Err(MalformedMatrixError::RaggedRows);
            }
            i += 1;
        }
        assert(rectangular(grid_of(rows@))) by {
            assert forall|k: int| 0 <= k < grid_of(rows@).len() implies (#[trigger] grid_of(
                rows@,
            )[k]).len() == grid_of(rows@)[0].len() by {
                assert(rows[k].len() == cols);
            }
        }
        Ok(Matrix { rows })
    }

    /// A second matrix with the same entries, for keeping the equations as
    /// they were while this one is reduced.
    pub fn duplicate(&self) -> (copy: Matrix<T>) where T: Copy
        ensures
            copy@ == self@,
    {
        let mut rows: Vec<Vec<T>> = Vec::new();
        let mut r: usize = 0;
        while r < self.rows.len()
            invariant
                r <= self.rows.len(),
                rows@.len() == r,
                forall|k: int| 0 <= k < r ==> (#[trigger] rows@[k])@ == self.rows@[k]@,
            decreases self.rows.len() - r,
        {
            let mut row: Vec<T> = Vec::new();
            let mut c: usize = 0;
            while c < self.rows[r].len()
                invariant
                    r < self.rows.len(),
                    c <= self.rows@[r as int]@.len(),
                    row@ =~= self.rows@[r as int]@.take(c as int),
                decreases self.rows@[r as int]@.len() - c,
            {
                row.push(self.rows[r][c]);
                c += 1;
            }
            assert(row@ =~= self.rows@[r as int]@);
            rows.push(row);
            r += 1;
        }
        let copy = Matrix { rows };
        assert(copy@ =~= self@);
        copy
    }

    /// Gives the rows back.
    pub fn into_rows(self) -> (rows: Vec<Vec<T>>)
        ensures
            grid_of(rows@) == self@,
    {
        self.rows
    }

    /// Number of rows.
    pub fn rows(&self) -> (n: usize)
        ensures
            n == self.nrows(),
    {
        self.rows.len()
    }

    /// Number of columns, the constant column included.
    pub fn cols(&self) -> (n: usize)
        requires
            self.wf(),
        ensures
            n == self.ncols(),
    {
        self.rows[0].len()
    }

    /// Number of variable columns: all but the last.
    pub fn vars(&self) -> (n: usize)
        requires
            self.wf(),
        ensures
            n == self.nvars(),
            n + 1 == self.ncols(),
    {
        self.rows[0].len() - 1
    }

    /// The entry at `(row, col)`.
    pub fn get(&self, row: usize, col: usize) -> (entry: &T)
        requires
            row < self@.len(),
            col < self@[row as int].len(),
        ensures
            *entry == self@[row as int][col as int],
    {
        &self.rows[row][col]
    }

    /// Overwrites the entry at `(row, col)`; every other entry stays.
    pub fn set(&mut self, row: usize, col: usize, value: T)
        requires
            row < old(self)@.len(),
            col < old(self)@[row as int].len(),
        ensures
            final(self)@ == old(self)@.update(
                row as int,
                old(self)@[row as int].update(col as int, value),
            ),
    {
        self.rows[row][col] = value;
        assert(self@ =~= old(self)@.update(
            row as int,
            old(self)@[row as int].update(col as int, value),
        ));
    }

    /// Exchanges two rows. With an index out of bounds nothing changes.
    pub fn swap_rows(&mut self, row1: usize, row2: usize)
        ensures
            row1 < old(self)@.len() && row2 < old(self)@.len() ==> final(self)@
                == old(self)@.update(row1 as int, old(self)@[row2 as int]).update(
                row2 as int,
                old(self)@[row1 as int],
            ),
            !(row1 < old(self)@.len() && row2 < old(self)@.len()) ==> final(self)@ == old(self)@,
    {
        if row1 < self.rows.len() && row2 < self.rows.len() && row1 != row2 {
            let mut carried: Vec<T> = Vec::new();
            core::mem::swap(&mut self.rows[row1], &mut carried);
            core::mem::swap(&mut self.rows[row2], &mut carried);
            core::mem::swap(&mut self.rows[row1], &mut carried);
            assert(self@ =~= old(self)@.update(row1 as int, old(self)@[row2 as int]).update(
                row2 as int,
                old(self)@[row1 as int],
            ));
        } else if row1 < self.rows.len() && row2 < self.rows.len() {
            assert(self@ =~= old(self)@.update(row1 as int, old(self)@[row2 as int]).update(
                row2 as int,
                old(self)@[row1 as int],
            ));
        }
    }
}

} // verus!
