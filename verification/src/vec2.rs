//! A two-dimensional array stored row by row in one vector.

use vstd::prelude::*;

verus! {

/// A grid of rows and columns of `T`.
#[derive(Debug, Clone, PartialEq, Eq, PartialOrd, Ord, Hash)]
pub struct Vec2<T> {
    rows: usize,
    cols: usize,
    vec: Vec<T>,
}

/// The place of the cell in row `row` and column `col` in the row-major
/// order of a grid of `cols` columns.
pub open spec fn place(cols: int, row: int, col: int) -> int {
    row * cols + col
}

/// The cells of a grid have places of their own, all below the number of
/// cells.
pub proof fn lemma_places(rows: int, cols: int, row: int, col: int, row2: int, col2: int)
    requires
        0 <= row < rows,
        0 <= col < cols,
        0 <= row2 < rows,
        0 <= col2 < cols,
    ensures
        0 <= row * cols <= place(cols, row, col) < rows * cols,
        (row, col) != (row2, col2) ==> place(cols, row, col) != place(cols, row2, col2),
{
    assert(0 <= row * cols && row * cols + cols <= rows * cols) by (nonlinear_arith)
        requires
            0 <= row < rows,
            cols > 0,
    ;
    if row != row2 {
        assert(row * cols + col != row2 * cols + col2) by (nonlinear_arith)
            requires
                row != row2,
                0 <= col < cols,
                0 <= col2 < cols,
        ;
    }
}

impl<T> View for Vec2<T> {
    type V = Seq<T>;

    open spec fn view(&self) -> Seq<T> {
        self.cells()
    }
}

impl<T> Vec2<T> {
    /// The numbers of rows and of columns.
    pub closed spec fn dims(&self) -> (usize, usize) {
        (self.rows, self.cols)
    }

    /// The elements, row by row.
    pub closed spec fn cells(&self) -> Seq<T> {
        self.vec@
    }

    /// There is one element for each cell.
    pub open spec fn wf(&self) -> bool {
        self@.len() == self.dims().0 * self.dims().1
    }

    /// `index` is a row and a column of the grid.
    pub open spec fn holds(&self, index: (usize, usize)) -> bool {
        index.0 < self.dims().0 && index.1 < self.dims().1
    }

    /// The element in row `row` and column `col`.
    pub open spec fn at(&self, row: int, col: int) -> T {
        self@[place(self.dims().1 as int, row, col)]
    }

    /// The place of a cell of the grid is an index of the vector.
    proof fn lemma_in_bounds(&self, index: (usize, usize))
        requires
            self.wf(),
            self.holds(index),
        ensures
            0 <= index.0 * self.cols <= index.0 * self.cols + index.1 < self.vec.len(),
            index.0 * self.cols + index.1 == place(
                self.dims().1 as int,
                index.0 as int,
                index.1 as int,
            ),
    {
        lemma_places(self.rows as int, self.cols as int, index.0 as int, index.1 as int, 0, 0);
        assert(self.vec.len() == self.rows * self.cols);
    }

    /// The element at `index`, which is a row and a column; `None` where
    /// `index` lies outside the grid.
    pub fn get(&self, index: (usize, usize)) -> (cell: Option<&T>)
        requires
            self.wf(),
        ensures
            self.holds(index) ==> cell == Some(&self.at(index.0 as int, index.1 as int)),
            !self.holds(index) ==> cell is None,
    {
        if !(index.0 < self.rows && index.1 < self.cols) {
            return None;
        }
        proof {
            self.lemma_in_bounds(index);
        }
        Some(&self.vec[index.0 * self.cols + index.1])
    }

    /// The element at `index` for writing; `None` where `index` lies outside
    /// the grid. What is written becomes the element at `index`, and no
    /// other element changes.
    pub fn get_mut(&mut self, index: (usize, usize)) -> (cell: Option<&mut T>)
        requires
            old(self).wf(),
        ensures
            final(self).wf(),
            final(self).dims() == old(self).dims(),
            !old(self).holds(index) ==> cell is None && final(self)@ == old(self)@,
            old(self).holds(index) ==> cell is Some,
            cell matches Some(element) ==> *element == old(self).at(index.0 as int, index.1 as int)
                && final(self)@ == old(self)@.update(
                place(old(self).dims().1 as int, index.0 as int, index.1 as int),
                *final(element),
            ),
    {
        if !(index.0 < self.rows && index.1 < self.cols) {
            return None;
        }
        proof {
            self.lemma_in_bounds(index);
        }
        Some(&mut self.vec[index.0 * self.cols + index.1])
    }

    /// The element at `index`, which lies inside the grid.
    pub fn index(&self, index: (usize, usize)) -> (cell: &T)
        requires
            self.wf(),
            self.holds(index),
        ensures
            *cell == self.at(index.0 as int, index.1 as int),
    {
        proof {
            self.lemma_in_bounds(index);
        }
        &self.vec[index.0 * self.cols + index.1]
    }

    /// The element at `index`, which lies inside the grid, for writing. What
    /// is written becomes the element at `index`, and no other element
    /// changes.
    pub fn index_mut(&mut self, index: (usize, usize)) -> (cell: &mut T)
        requires
            old(self).wf(),
            old(self).holds(index),
        ensures
            final(self).wf(),
            final(self).dims() == old(self).dims(),
            *cell == old(self).at(index.0 as int, index.1 as int),
            final(self)@ == old(self)@.update(
                place(old(self).dims().1 as int, index.0 as int, index.1 as int),
                *final(cell),
            ),
    {
        proof {
            self.lemma_in_bounds(index);
        }
        &mut self.vec[index.0 * self.cols + index.1]
    }
}

impl<T: Default> Vec2<T> {
    /// A grid of `dims.0` rows and `dims.1` columns in which every element
    /// is a default value of `T`.
    pub fn new(dims: (usize, usize)) -> (grid: Self)
        requires
            dims.0 * dims.1 <= usize::MAX,
        ensures
            grid.wf(),
            grid.dims() == dims,
            forall|k: int| 0 <= k < grid@.len() ==> call_ensures(T::default, (), #[trigger] grid@[k]),
    {
        let len = dims.0 * dims.1;
        let mut vec: Vec<T> = Vec::new();
        let mut i: usize = 0;
        while i < len
            invariant
                i <= len,
                vec.len() == i,
                forall|k: int| 0 <= k < i ==> call_ensures(T::default, (), #[trigger] vec[k]),
            decreases len - i,
        {
            vec.push(T::default());
            i += 1;
        }
        Self { rows: dims.0, cols: dims.1, vec }
    }
}

} // verus!
