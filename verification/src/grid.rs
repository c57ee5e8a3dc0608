//! Dense row-major 2D storage with bounds-checked access, toroidal
//! coordinate folding, and row-major / neighbor traversal cursors.

use vstd::prelude::*;

use crate::direction::Direction;
use crate::vec2::Vec2;

verus! {

/// A rectangular grid of cells.
///
/// The index of the top-left cell is `(0, 0)` and the cells are stored in
/// row-major order. `rows` and `cols` are fixed at construction; the backing
/// vector always holds exactly `rows * cols` values.
pub struct Grid<T> {
    rows: usize,
    cols: usize,
    data: Vec<T>,
}

/// The cells of a row-major grid with `x` strictly inside `cols` and `y`
/// strictly inside `rows` lie strictly inside `rows * cols`.
pub proof fn lemma_row_major_bounds(rows: int, cols: int, x: int, y: int)
    requires
        0 <= x < cols,
        0 <= y < rows,
    ensures
        0 <= y * cols + x < rows * cols,
{
    assert(0 <= y * cols + x < rows * cols) by (nonlinear_arith)
        requires
            0 <= x < cols,
            0 <= y < rows,
    ;
}

/// Distinct coordinates map to distinct row-major positions.
pub proof fn lemma_row_major_injective(cols: int, x1: int, y1: int, x2: int, y2: int)
    requires
        0 <= x1 < cols,
        0 <= x2 < cols,
        (x1, y1) != (x2, y2),
    ensures
        y1 * cols + x1 != y2 * cols + x2,
{
    assert(y1 * cols + x1 != y2 * cols + x2) by (nonlinear_arith)
        requires
            0 <= x1 < cols,
            0 <= x2 < cols,
            (x1, y1) != (x2, y2),
    ;
}

impl<T> Grid<T> {
    /// The flat row-major contents.
    pub closed spec fn view(self) -> Seq<T> {
        self.data@
    }

    /// The number of rows, as a mathematical integer.
    pub closed spec fn rows_spec(self) -> int {
        self.rows as int
    }

    /// The number of columns, as a mathematical integer.
    pub closed spec fn cols_spec(self) -> int {
        self.cols as int
    }

    /// Structural well-formedness: the backing vector matches the announced
    /// dimensions, and both dimensions fit an `i32` so that coordinates can
    /// be folded with 32-bit arithmetic.
    pub open spec fn wf(self) -> bool {
        &&& self.view().len() == self.rows_spec() * self.cols_spec()
        &&& self.rows_spec() * self.cols_spec() <= usize::MAX
        &&& 0 <= self.rows_spec() <= i32::MAX
        &&& 0 <= self.cols_spec() <= i32::MAX
    }

    /// Whether the integer point `(x, y)` lies on the grid.
    pub open spec fn contains_xy(self, x: int, y: int) -> bool {
        &&& 0 <= x < self.cols_spec()
        &&& 0 <= y < self.rows_spec()
    }

    /// Whether a coordinate lies on the grid.
    pub open spec fn contains_spec(self, coord: Vec2) -> bool {
        self.contains_xy(coord.x as int, coord.y as int)
    }

    /// The row-major position of the integer point `(x, y)`.
    pub open spec fn index_xy(self, x: int, y: int) -> int {
        y * self.cols_spec() + x
    }

    /// The cell at the integer point `(x, y)`.
    pub open spec fn at_xy(self, x: int, y: int) -> T {
        self.view()[self.index_xy(x, y)]
    }

    /// The cell at a coordinate.
    pub open spec fn at(self, coord: Vec2) -> T {
        self.at_xy(coord.x as int, coord.y as int)
    }

    /// The coordinate folded into the grid, modulo `(cols, rows)`, using
    /// Euclidean remainders so that negative coordinates fold correctly.
    pub open spec fn norm_xy(self, x: int, y: int) -> (int, int) {
        (x % self.cols_spec(), y % self.rows_spec())
    }

    /// The folded form of a coordinate.
    pub open spec fn norm_spec(self, coord: Vec2) -> (int, int) {
        self.norm_xy(coord.x as int, coord.y as int)
    }

    /// Build a grid whose cells are `rows * cols` copies of `init`.
    pub fn with_size(rows: usize, cols: usize, init: T) -> (r: Grid<T>)
        where T: Copy
        requires
            rows * cols <= usize::MAX,
            rows <= i32::MAX,
            cols <= i32::MAX,
        ensures
            r.wf(),
            r.rows_spec() == rows,
            r.cols_spec() == cols,
            forall|i: int| 0 <= i < r.view().len() ==> r.view()[i] == init,
    {
        let n = rows * cols;
        let mut data: Vec<T> = Vec::new();
        while data.len() < n
            invariant
                data.len() <= n,
                forall|i: int| 0 <= i < data.len() ==> data@[i] == init,
            decreases n - data.len(),
        {
            data.push(init);
        }
        Grid { rows, cols, data }
    }

    /// Build a grid from a flat row-major vector of cells. The vector must
    /// hold exactly `rows * cols` values.
    pub fn from_data(rows: usize, cols: usize, data: Vec<T>) -> (r: Grid<T>)
        requires
            rows * cols == data.len(),
            rows <= i32::MAX,
            cols <= i32::MAX,
        ensures
            r.wf(),
            r.rows_spec() == rows,
            r.cols_spec() == cols,
            r.view() == data@,
    {
        let n = data.len();
        proof {
            assert(rows * cols == n);
        }
        Grid { rows, cols, data }
    }

    /// The number of rows.
    pub fn rows(&self) -> (r: usize)
        ensures
            r == self.rows_spec(),
    {
        self.rows
    }

    /// The number of columns.
    pub fn cols(&self) -> (r: usize)
        ensures
            r == self.cols_spec(),
    {
        self.cols
    }

    /// Whether a coordinate lies on the grid.
    pub fn contains_coord(&self, coord: Vec2) -> (r: bool)
        ensures
            r == self.contains_spec(coord),
    {
        coord.x >= 0
            && (coord.x as usize) < self.cols
            && coord.y >= 0
            && (coord.y as usize) < self.rows
    }

    /// Fold a coordinate into the grid modulo `(cols, rows)`, with floored
    /// (Euclidean) remainders so negative coordinates fold correctly.
    pub fn normalized_coord(&self, coord: Vec2) -> (r: Vec2)
        requires
            self.wf(),
            self.rows_spec() >= 1,
            self.cols_spec() >= 1,
        ensures
            (r.x as int, r.y as int) == self.norm_spec(coord),
            self.contains_spec(r),
    {
        let cols = self.cols as i32;
        let rows = self.rows as i32;
        let x = match coord.x.checked_rem_euclid(cols) {
            Some(v) => v,
            None => 0,  // unreachable: the divisor is positive
        };
        let y = match coord.y.checked_rem_euclid(rows) {
            Some(v) => v,
            None => 0,  // unreachable: the divisor is positive
        };
        Vec2::new(x, y)
    }

    /// The row-major position of an on-grid coordinate.
    fn linear_index(&self, coord: Vec2) -> (r: usize)
        requires
            self.wf(),
            self.contains_spec(coord),
        ensures
            r == self.index_xy(coord.x as int, coord.y as int),
            r < self.view().len(),
    {
        proof {
            lemma_row_major_bounds(
                self.rows_spec(),
                self.cols_spec(),
                coord.x as int,
                coord.y as int,
            );
        }
        coord.y as usize * self.cols + coord.x as usize
    }

    /// Read the cell at `coord`, or `None` when `coord` is off the grid.
    pub fn get(&self, coord: Vec2) -> (r: Option<&T>)
        requires
            self.wf(),
        ensures
            match r {
                Some(v) => self.contains_spec(coord) && *v == self.at(coord),
                None => !self.contains_spec(coord),
            },
    {
        if self.contains_coord(coord) {
            Some(&self.data[self.linear_index(coord)])
        } else {
            None
        }
    }

    /// Mutably borrow the cell at `coord`, or `None` when `coord` is off the
    /// grid. The grid afterwards holds whatever value the caller left behind
    /// through the returned reference; everything else is unchanged.
    pub fn get_mut(&mut self, coord: Vec2) -> (r: Option<&mut T>)
        requires
            old(self).wf(),
        ensures
            match r {
                Some(v) => {
                    &&& old(self).contains_spec(coord)
                    &&& *v == old(self).at(coord)
                    &&& final(self).view() == old(self).view().update(
                        old(self).index_xy(coord.x as int, coord.y as int),
                        *final(v),
                    )
                },
                None => !old(self).contains_spec(coord) && *final(self) == *old(self),
            },
            final(self).rows_spec() == old(self).rows_spec(),
            final(self).cols_spec() == old(self).cols_spec(),
            final(self).wf(),
    {
        if self.contains_coord(coord) {
            let index = self.linear_index(coord);
            Some(&mut self.data[index])
        } else {
            None
        }
    }

    /// Overwrite the cell at an on-grid coordinate.
    pub fn set(&mut self, coord: Vec2, value: T)
        requires
            old(self).wf(),
            old(self).contains_spec(coord),
        ensures
            final(self).wf(),
            final(self).rows_spec() == old(self).rows_spec(),
            final(self).cols_spec() == old(self).cols_spec(),
            final(self).view() == old(self).view().update(
                old(self).index_xy(coord.x as int, coord.y as int),
                value,
            ),
            final(self).at(coord) == value,
            forall|x: int, y: int|
                final(self).contains_xy(x, y) && (x, y) != (coord.x as int, coord.y as int)
                    ==> final(self).at_xy(x, y) == old(self).at_xy(x, y),
    {
        match self.get_mut(coord) {
            Some(cell) => {
                *cell = value;
            },
            None => {},
        }
        proof {
            lemma_row_major_bounds(
                self.rows_spec(),
                self.cols_spec(),
                coord.x as int,
                coord.y as int,
            );
            assert forall|x: int, y: int|
                self.contains_xy(x, y) && (x, y) != (coord.x as int, coord.y as int)
                    implies self.at_xy(x, y) == old(self).at_xy(x, y) by {
                lemma_row_major_injective(
                    self.cols_spec(),
                    x,
                    y,
                    coord.x as int,
                    coord.y as int,
                );
                lemma_row_major_bounds(self.rows_spec(), self.cols_spec(), x, y);
            }
        }
    }

    /// Read the cell at `coord` after folding it into the grid. This always
    /// succeeds: under toroidal folding the grid is logically infinite.
    pub fn wrapping_get(&self, coord: Vec2) -> (r: &T)
        requires
            self.wf(),
            self.rows_spec() >= 1,
            self.cols_spec() >= 1,
        ensures
            *r == self.at_xy(self.norm_spec(coord).0, self.norm_spec(coord).1),
    {
        let folded = self.normalized_coord(coord);
        let index = self.linear_index(folded);
        &self.data[index]
    }

    /// Cursor over all coordinates of the grid in row-major order.
    pub fn indices_iter(&self) -> (r: IndicesIter)
        requires
            self.wf(),
        ensures
            r.wf(),
            r.pos == 0,
            r.rows == self.rows_spec(),
            r.cols == self.cols_spec(),
    {
        IndicesIter { pos: 0, rows: self.rows, cols: self.cols }
    }

    /// Cursor over all cells of the grid in row-major order.
    pub fn iter<'a>(&'a self) -> (r: Iter<'a, T>)
        requires
            self.wf(),
        ensures
            r.grid == self,
            r.pos == 0,
    {
        Iter { grid: self, pos: 0 }
    }

    /// Cursor over all coordinates in row-major order, for mutation passes:
    /// a cursor cannot keep a mutable borrow of the grid, so it yields each
    /// coordinate and the caller mutates through [`Grid::get_mut`].
    pub fn iter_mut(&self) -> (r: IterMut)
        requires
            self.wf(),
        ensures
            r.indices.wf(),
            r.indices.pos == 0,
            r.indices.rows == self.rows_spec(),
            r.indices.cols == self.cols_spec(),
    {
        IterMut { indices: IndicesIter { pos: 0, rows: self.rows, cols: self.cols } }
    }

    /// Cursor over all `(coordinate, cell)` pairs in row-major order.
    pub fn indexed_iter<'a>(&'a self) -> (r: IndexedIter<'a, T>)
        requires
            self.wf(),
        ensures
            r.grid == self,
            r.pos == 0,
    {
        IndexedIter { grid: self, pos: 0 }
    }

    /// Cursor over all coordinates in row-major order, for mutation passes;
    /// see [`Grid::iter_mut`].
    pub fn indexed_iter_mut(&self) -> (r: IndexedIterMut)
        requires
            self.wf(),
        ensures
            r.indices.wf(),
            r.indices.pos == 0,
            r.indices.rows == self.rows_spec(),
            r.indices.cols == self.cols_spec(),
    {
        IndexedIterMut { indices: IndicesIter { pos: 0, rows: self.rows, cols: self.cols } }
    }

    /// Cursor over the in-bounds neighbors of `coord`, in the fixed direction
    /// order, silently skipping neighbors that fall off the grid. It is not
    /// wrap-aware; callers that need wrapping use [`Grid::wrapping_get`].
    pub fn neighbors<'a>(&'a self, coord: Vec2) -> (r: NeighborsIter<'a, T>)
        requires
            self.wf(),
            i32::MIN < coord.x < i32::MAX,
            i32::MIN < coord.y < i32::MAX,
        ensures
            r.wf(),
            r.grid == self,
            r.center == coord,
            r.dir == 0,
    {
        NeighborsIter { grid: self, center: coord, dir: 0 }
    }
}

/// Cursor over the coordinates of a `rows` by `cols` grid in row-major order.
pub struct IndicesIter {
    /// The linear position of the next coordinate to yield.
    pub pos: usize,
    /// The number of rows of the grid being walked.
    pub rows: usize,
    /// The number of columns of the grid being walked.
    pub cols: usize,
}

impl IndicesIter {
    /// The cursor state stays within the grid it was built for.
    pub open spec fn wf(self) -> bool {
        &&& self.rows <= i32::MAX
        &&& self.cols <= i32::MAX
        &&& self.rows * self.cols <= usize::MAX
        &&& self.pos <= self.rows * self.cols
    }

    /// The coordinate at linear position `pos` of a row-major walk.
    pub open spec fn coord_of(cols: int, pos: int) -> Vec2 {
        Vec2 { x: (pos % cols) as i32, y: (pos / cols) as i32 }
    }

    /// Yield the next coordinate in row-major order, or `None` when the walk
    /// is over.
    pub fn next(&mut self) -> (r: Option<Vec2>)
        requires
            old(self).wf(),
        ensures
            final(self).wf(),
            final(self).rows == old(self).rows,
            final(self).cols == old(self).cols,
            if old(self).pos < old(self).rows * old(self).cols {
                r == Some(IndicesIter::coord_of(old(self).cols as int, old(self).pos as int))
                    && final(self).pos == old(self).pos + 1
                    && 0 <= r.unwrap().x < old(self).cols
                    && 0 <= r.unwrap().y < old(self).rows
            } else {
                r is None && final(self).pos == old(self).pos
            },
    {
        let total = self.rows * self.cols;
        if self.pos < total {
            let x = self.pos % self.cols;
            let y = self.pos / self.cols;
            proof {
                assert(y < self.rows) by (nonlinear_arith)
                    requires
                        self.pos < self.rows * self.cols,
                        self.cols > 0,
                        y == self.pos as int / self.cols as int,
                ;
            }
            let r = Vec2::new(x as i32, y as i32);
            self.pos = self.pos + 1;
            Some(r)
        } else {
            None
        }
    }
}

/// Cursor over the cells of a borrowed grid in row-major order.
pub struct Iter<'a, T> {
    /// The grid being walked.
    pub grid: &'a Grid<T>,
    /// The linear position of the next cell to yield.
    pub pos: usize,
}

impl<'a, T> Iter<'a, T> {
    /// Yield the next cell in row-major order, or `None` when the walk is
    /// over.
    pub fn next(&mut self) -> (r: Option<&'a T>)
        ensures
            final(self).grid == old(self).grid,
            if old(self).pos < old(self).grid.view().len() {
                r == Some(&old(self).grid.view()[old(self).pos as int])
                    && final(self).pos == old(self).pos + 1
            } else {
                r is None && final(self).pos == old(self).pos
            },
    {
        if self.pos < self.grid.data.len() {
            let r = &self.grid.data[self.pos];
            self.pos = self.pos + 1;
            Some(r)
        } else {
            None
        }
    }
}

/// Cursor over `(coordinate, cell)` pairs of a borrowed grid in row-major
/// order.
pub struct IndexedIter<'a, T> {
    /// The grid being walked.
    pub grid: &'a Grid<T>,
    /// The linear position of the next pair to yield.
    pub pos: usize,
}

impl<'a, T> IndexedIter<'a, T> {
    /// Yield the next `(coordinate, cell)` pair in row-major order, or
    /// `None` when the walk is over.
    pub fn next(&mut self) -> (r: Option<(Vec2, &'a T)>)
        requires
            old(self).grid.wf(),
            old(self).pos <= old(self).grid.view().len(),
        ensures
            final(self).grid == old(self).grid,
            final(self).pos <= final(self).grid.view().len(),
            if old(self).pos < old(self).grid.view().len() {
                r == Some((
                    IndicesIter::coord_of(old(self).grid.cols_spec(), old(self).pos as int),
                    &old(self).grid.view()[old(self).pos as int],
                )) && final(self).pos == old(self).pos + 1
                    && old(self).grid.contains_spec(r.unwrap().0)
                    && old(self).grid.index_xy(r.unwrap().0.x as int, r.unwrap().0.y as int)
                        == old(self).pos
            } else {
                r is None && final(self).pos == old(self).pos
            },
    {
        if self.pos < self.grid.data.len() {
            let x = self.pos % self.grid.cols;
            let y = self.pos / self.grid.cols;
            proof {
                assert(y < self.grid.rows && y * self.grid.cols + x == self.pos)
                    by (nonlinear_arith)
                    requires
                        self.pos < self.grid.rows * self.grid.cols,
                        self.grid.cols > 0,
                        y == self.pos as int / self.grid.cols as int,
                        x == self.pos as int % self.grid.cols as int,
                ;
            }
            let coord = Vec2::new(x as i32, y as i32);
            let r = &self.grid.data[self.pos];
            self.pos = self.pos + 1;
            Some((coord, r))
        } else {
            None
        }
    }
}

/// Cursor over the coordinates of a grid in row-major order, for mutation
/// passes through [`Grid::get_mut`].
pub struct IterMut {
    /// The underlying coordinate cursor.
    pub indices: IndicesIter,
}

impl IterMut {
    /// Yield the next coordinate in row-major order, or `None` when the walk
    /// is over.
    pub fn next(&mut self) -> (r: Option<Vec2>)
        requires
            old(self).indices.wf(),
        ensures
            final(self).indices.wf(),
            final(self).indices.rows == old(self).indices.rows,
            final(self).indices.cols == old(self).indices.cols,
            if old(self).indices.pos < old(self).indices.rows * old(self).indices.cols {
                r == Some(IndicesIter::coord_of(
                    old(self).indices.cols as int,
                    old(self).indices.pos as int,
                )) && final(self).indices.pos == old(self).indices.pos + 1
                    && 0 <= r.unwrap().x < old(self).indices.cols
                    && 0 <= r.unwrap().y < old(self).indices.rows
            } else {
                r is None && final(self).indices.pos == old(self).indices.pos
            },
    {
        self.indices.next()
    }
}

/// Cursor over the coordinates of a grid in row-major order, for mutation
/// passes through [`Grid::get_mut`].
pub struct IndexedIterMut {
    /// The underlying coordinate cursor.
    pub indices: IndicesIter,
}

impl IndexedIterMut {
    /// Yield the next coordinate in row-major order, or `None` when the walk
    /// is over.
    pub fn next(&mut self) -> (r: Option<Vec2>)
        requires
            old(self).indices.wf(),
        ensures
            final(self).indices.wf(),
            final(self).indices.rows == old(self).indices.rows,
            final(self).indices.cols == old(self).indices.cols,
            if old(self).indices.pos < old(self).indices.rows * old(self).indices.cols {
                r == Some(IndicesIter::coord_of(
                    old(self).indices.cols as int,
                    old(self).indices.pos as int,
                )) && final(self).indices.pos == old(self).indices.pos + 1
                    && 0 <= r.unwrap().x < old(self).indices.cols
                    && 0 <= r.unwrap().y < old(self).indices.rows
            } else {
                r is None && final(self).indices.pos == old(self).indices.pos
            },
    {
        self.indices.next()
    }
}

/// Cursor over the in-bounds neighbors of a cell, in the fixed direction
/// order.
pub struct NeighborsIter<'a, T> {
    /// The grid being walked.
    pub grid: &'a Grid<T>,
    /// The cell whose neighbors are yielded.
    pub center: Vec2,
    /// The next direction index to look at.
    pub dir: usize,
}

/// The integer point one step from `(x, y)` in direction `d`.
pub open spec fn step_xy(x: int, y: int, d: Direction) -> (int, int) {
    (x + d.unit_spec().0, y + d.unit_spec().1)
}

impl<'a, T> NeighborsIter<'a, T> {
    /// The cursor's center stays strictly inside the `i32` range so that
    /// stepping by one unit cannot overflow.
    pub open spec fn wf(self) -> bool {
        &&& self.grid.wf()
        &&& i32::MIN < self.center.x < i32::MAX
        &&& i32::MIN < self.center.y < i32::MAX
        &&& self.dir <= 4
    }

    /// The first direction index at or after `d` whose neighbor of `center`
    /// lies on the grid, or 4 when there is none.
    pub open spec fn next_inbounds_dir(grid: Grid<T>, center: Vec2, d: int) -> int
        decreases 4 - d,
    {
        if d < 0 || d >= 4 {
            4
        } else {
            let p = step_xy(center.x as int, center.y as int, Direction::from_index_spec(d));
            if grid.contains_xy(p.0, p.1) {
                d
            } else {
                NeighborsIter::next_inbounds_dir(grid, center, d + 1)
            }
        }
    }

    /// Yield the next in-bounds neighbor as a `(coordinate, cell)` pair, in
    /// the fixed direction order, or `None` when no direction is left.
    pub fn next(&mut self) -> (r: Option<(Vec2, &'a T)>)
        requires
            old(self).wf(),
        ensures
            final(self).wf(),
            final(self).grid == old(self).grid,
            final(self).center == old(self).center,
            ({
                let d0 = NeighborsIter::next_inbounds_dir(
                    *old(self).grid,
                    old(self).center,
                    old(self).dir as int,
                );
                if d0 < 4 {
                    {
                        let p = step_xy(
                            old(self).center.x as int,
                            old(self).center.y as int,
                            Direction::from_index_spec(d0),
                        );
                        r matches Some(pair)
                            && (pair.0.x as int, pair.0.y as int) == p
                            && *pair.1 == old(self).grid.at_xy(p.0, p.1)
                            && final(self).dir == d0 + 1
                    }
                } else {
                    r is None && final(self).dir == 4
                }
            }),
    {
        while self.dir < 4
            invariant
                self.wf(),
                self.grid == old(self).grid,
                self.center == old(self).center,
                old(self).dir <= self.dir,
                NeighborsIter::next_inbounds_dir(*self.grid, self.center, self.dir as int)
                    == NeighborsIter::next_inbounds_dir(
                        *old(self).grid,
                        old(self).center,
                        old(self).dir as int,
                    ),
            decreases 4 - self.dir,
        {
            let d = Direction::from_index(self.dir);
            let n_pos = self.center.add(d.to_vec2());
            self.dir = self.dir + 1;
            if let Some(neighbor) = self.grid.get(n_pos) {
                return Some((n_pos, neighbor));
            }
        }
        None
    }
}

} // verus!
