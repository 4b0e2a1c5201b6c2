//! The grid: a flat, row-major array of cells addressed by (column, row).

use vstd::prelude::*;
use crate::cell::{comes_before, first_lowest, label_before, Cell, CellType};

verus! {

/// Why an operation on a grid was refused.
#[derive(Clone, Copy, Debug, PartialEq, Eq, Structural)]
pub enum GridError {
    /// A dimension is zero, or the grid would hold more cells than can be indexed.
    InvalidDimensions,
    /// A coordinate lies outside the grid.
    OutOfBounds,
    /// The source coordinates handed in are not exactly the cells of kind `Source`.
    SourceMismatch,
}

/// Row-major position of column `x`, row `y` in a grid of `columns` columns.
pub open spec fn flat_index(columns: int, x: int, y: int) -> int {
    y * columns + x
}

/// A cell inside the grid has a flat index inside the array.
pub proof fn lemma_flat_index_bounds(columns: int, rows: int, x: int, y: int)
    requires
        0 <= x < columns,
        0 <= y < rows,
    ensures
        0 <= flat_index(columns, x, y) < rows * columns,
        y * columns <= flat_index(columns, x, y),
        0 <= y * columns,
{
    assert(0 <= y * columns && (y + 1) * columns <= rows * columns) by (nonlinear_arith)
        requires
            0 <= y < rows,
            0 < columns,
    ;
    assert((y + 1) * columns == y * columns + columns) by (nonlinear_arith);
}

/// Two cells with the same flat index are the same cell.
pub proof fn lemma_flat_index_injective(columns: int, x1: int, y1: int, x2: int, y2: int)
    requires
        0 <= x1 < columns,
        0 <= x2 < columns,
        flat_index(columns, x1, y1) == flat_index(columns, x2, y2),
    ensures
        x1 == x2,
        y1 == y2,
{
    if y1 < y2 {
        assert((y1 + 1) * columns <= y2 * columns) by (nonlinear_arith)
            requires
                y1 + 1 <= y2,
                0 < columns,
        ;
        assert((y1 + 1) * columns == y1 * columns + columns) by (nonlinear_arith);
    } else if y2 < y1 {
        assert((y2 + 1) * columns <= y1 * columns) by (nonlinear_arith)
            requires
                y2 + 1 <= y1,
                0 < columns,
        ;
        assert((y2 + 1) * columns == y2 * columns + columns) by (nonlinear_arith);
    }
}

/// Every flat index inside the array is that of exactly one cell inside the grid.
pub proof fn lemma_flat_index_split(columns: int, rows: int, i: int)
    requires
        0 < columns,
        0 <= i < rows * columns,
    ensures
        0 <= i % columns < columns,
        0 <= i / columns < rows,
        flat_index(columns, i % columns, i / columns) == i,
{
    let q = i / columns;
    let r = i % columns;
    assert(i == q * columns + r && 0 <= r < columns) by (nonlinear_arith)
        requires
            q == i / columns,
            r == i % columns,
            0 < columns,
    ;
    assert(0 <= q < rows) by (nonlinear_arith)
        requires
            i == q * columns + r,
            0 <= r < columns,
            0 <= i < rows * columns,
            0 < columns,
    ;
}

/// A rectangle of cells with fixed dimensions.
#[derive(Debug)]
pub struct Grid {
    cells: Vec<Cell>,
    row_count_y: usize,
    column_count_x: usize,
}

impl Grid {
    /// Number of rows.
    pub closed spec fn rows(&self) -> int {
        self.row_count_y as int
    }

    /// Number of columns.
    pub closed spec fn columns(&self) -> int {
        self.column_count_x as int
    }

    /// Both dimensions are machine integers.
    pub proof fn lemma_dimensions_fit(&self)
        ensures
            0 <= self.rows() <= usize::MAX,
            0 <= self.columns() <= usize::MAX,
    {
    }

    /// The number of cells is a machine integer.
    pub proof fn lemma_cell_count_fits(&self)
        requires
            self.layout_ok(),
        ensures
            self.rows() * self.columns() <= usize::MAX,
    {
        assert(self.cells@.len() == self.cells.len());
    }

    /// Whether column `x`, row `y` lies inside the grid.
    pub open spec fn in_bounds(&self, x: int, y: int) -> bool {
        0 <= x < self.columns() && 0 <= y < self.rows()
    }

    /// The cell at column `x`, row `y`.
    pub closed spec fn cell(&self, x: int, y: int) -> Cell {
        self.cells@[flat_index(self.column_count_x as int, x, y)]
    }

    /// The kind of the cell at column `x`, row `y`.
    pub open spec fn kind(&self, x: int, y: int) -> CellType {
        self.cell(x, y).cell_type
    }

    /// The label of the cell at column `x`, row `y`.
    pub open spec fn number(&self, x: int, y: int) -> Option<usize> {
        self.cell(x, y).cell_number
    }

    /// The array holds exactly one cell for each position.
    pub closed spec fn layout_ok(&self) -> bool {
        self.cells@.len() == self.rows() * self.columns()
    }

    /// What holds of every grid: it has at least one cell, each cell knows its own
    /// position, a barrier carries no label and a source carries the label 1.
    pub open spec fn wf(&self) -> bool {
        &&& self.layout_ok()
        &&& self.rows() > 0
        &&& self.columns() > 0
        &&& forall|x: int, y: int|
            self.in_bounds(x, y) ==> {
                let c = #[trigger] self.cell(x, y);
                &&& c.x_position == x
                &&& c.y_position == y
                &&& (c.cell_type == CellType::Barrier ==> c.cell_number is None)
                &&& (c.cell_type == CellType::Source ==> c.cell_number == Some(1usize))
            }
    }

    /// Same dimensions and the same kind at every position.
    pub open spec fn same_kinds(&self, other: &Grid) -> bool {
        &&& self.rows() == other.rows()
        &&& self.columns() == other.columns()
        &&& forall|x: int, y: int|
            self.in_bounds(x, y) ==> #[trigger] self.kind(x, y) == other.kind(x, y)
    }

    /// Whether `rows` by `columns` is a size that a grid can have.
    pub open spec fn valid_dimensions(rows: int, columns: int) -> bool {
        rows > 0 && columns > 0 && rows * columns <= usize::MAX
    }

    /// A grid of `row_count` rows and `column_count` columns in which every cell is
    /// `Inactive` and unlabelled.
    pub fn new(row_count: usize, column_count: usize) -> (made: Result<Grid, GridError>)
        ensures
            Self::valid_dimensions(row_count as int, column_count as int) ==> made is Ok,
            !Self::valid_dimensions(row_count as int, column_count as int) ==> made
                == Err::<Grid, GridError>(GridError::InvalidDimensions),
            made matches Ok(g) ==> {
                &&& g.wf()
                &&& g.rows() == row_count
                &&& g.columns() == column_count
                &&& forall|x: int, y: int|
                    g.in_bounds(x, y) ==> #[trigger] g.cell(x, y) == Cell::fresh(x, y)
            },
    {
        if row_count == 0 || column_count == 0 {
            return Err(GridError::InvalidDimensions);
        }
        let total: usize = match row_count.checked_mul(column_count) {
            Some(t) => t,
            None => {
                return Err(GridError::InvalidDimensions);
            },
        };
        let mut cells: Vec<Cell> = Vec::with_capacity(total);
        let mut y: usize = 0;
        while y < row_count
            invariant
                0 < column_count,
                y <= row_count,
                total == row_count * column_count,
                cells@.len() == y * column_count,
                forall|i: int|
                    0 <= i < cells@.len() ==> #[trigger] cells@[i] == Cell::fresh(
                        i % (column_count as int),
                        i / (column_count as int),
                    ),
            decreases row_count - y,
        {
            let mut x: usize = 0;
            while x < column_count
                invariant
                    0 < column_count,
                    y < row_count,
                    x <= column_count,
                    total == row_count * column_count,
                    cells@.len() == y * column_count + x,
                    forall|i: int|
                        0 <= i < cells@.len() ==> #[trigger] cells@[i] == Cell::fresh(
                            i % (column_count as int),
                            i / (column_count as int),
                        ),
                decreases column_count - x,
            {
                proof {
                    lemma_flat_index_bounds(
                        column_count as int,
                        row_count as int,
                        x as int,
                        y as int,
                    );
                    lemma_flat_index_split(
                        column_count as int,
                        row_count as int,
                        flat_index(column_count as int, x as int, y as int),
                    );
                    lemma_flat_index_injective(
                        column_count as int,
                        x as int,
                        y as int,
                        flat_index(column_count as int, x as int, y as int) % (column_count as int),
                        flat_index(column_count as int, x as int, y as int) / (column_count as int),
                    );
                }
                cells.push(
                    Cell {
                        cell_type: CellType::Inactive,
                        cell_number: None,
                        x_position: x,
                        y_position: y,
                    },
                );
                x = x + 1;
            }
            proof {
                assert((y + 1) * column_count == y * column_count + column_count)
                    by (nonlinear_arith);
            }
            y = y + 1;
        }
        let g = Grid { cells, row_count_y: row_count, column_count_x: column_count };
        proof {
            assert forall|x: int, y: int| g.in_bounds(x, y) implies #[trigger] g.cell(x, y)
                == Cell::fresh(x, y) by {
                lemma_flat_index_bounds(column_count as int, row_count as int, x, y);
                let i = flat_index(column_count as int, x, y);
                lemma_flat_index_split(column_count as int, row_count as int, i);
                lemma_flat_index_injective(
                    column_count as int,
                    x,
                    y,
                    i % (column_count as int),
                    i / (column_count as int),
                );
            }
        }
        Ok(g)
    }

    /// Number of rows.
    pub fn row_count(&self) -> (n: usize)
        ensures
            n == self.rows(),
    {
        self.row_count_y
    }

    /// Number of columns.
    pub fn column_count(&self) -> (n: usize)
        ensures
            n == self.columns(),
    {
        self.column_count_x
    }

    /// Whether column `col_x`, row `row_y` lies inside the grid.
    pub fn contains(&self, col_x: usize, row_y: usize) -> (inside: bool)
        ensures
            inside == self.in_bounds(col_x as int, row_y as int),
    {
        col_x < self.column_count_x && row_y < self.row_count_y
    }

    /// Reads the cell at a position inside the grid.
    pub(crate) fn read_cell(&self, col_x: usize, row_y: usize) -> (c: Cell)
        requires
            self.layout_ok(),
            self.in_bounds(col_x as int, row_y as int),
        ensures
            c == self.cell(col_x as int, row_y as int),
    {
        proof {
            lemma_flat_index_bounds(self.columns(), self.rows(), col_x as int, row_y as int);
            assert(self.cells@.len() == self.cells.len());
        }
        self.cells[row_y * self.column_count_x + col_x]
    }

    /// Replaces kind and label of the cell at a position inside the grid, and
    /// nothing else.
    pub(crate) fn write_cell(
        &mut self,
        col_x: usize,
        row_y: usize,
        cell_type: CellType,
        cell_number: Option<usize>,
    )
        requires
            old(self).layout_ok(),
            old(self).in_bounds(col_x as int, row_y as int),
        ensures
            final(self).layout_ok(),
            final(self).rows() == old(self).rows(),
            final(self).columns() == old(self).columns(),
            final(self).cell(col_x as int, row_y as int) == (Cell {
                cell_type,
                cell_number,
                x_position: col_x,
                y_position: row_y,
            }),
            forall|x: int, y: int|
                old(self).in_bounds(x, y) && !(x == col_x && y == row_y) ==> #[trigger] final(self).cell(x, y) == old(self).cell(x, y),
    {
        proof {
            lemma_flat_index_bounds(self.columns(), self.rows(), col_x as int, row_y as int);
            assert(self.cells@.len() == self.cells.len());
        }
        let i: usize = row_y * self.column_count_x + col_x;
        let ghost before = *self;
        self.cells.set(
            i,
            Cell { cell_type, cell_number, x_position: col_x, y_position: row_y },
        );
        proof {
            assert forall|x: int, y: int|
                before.in_bounds(x, y) && !(x == col_x && y == row_y) implies #[trigger] self.cell(
                x,
                y,
            ) == before.cell(x, y) by {
                lemma_flat_index_bounds(self.columns(), self.rows(), x, y);
                if flat_index(self.columns(), x, y) == i {
                    lemma_flat_index_injective(self.columns(), x, y, col_x as int, row_y as int);
                }
            }
        }
    }

    /// The cell at column `col_x`, row `row_y`, or `OutOfBounds` where the grid has
    /// no such position.
    pub fn get_cell_from_coordinate(&self, col_x: usize, row_y: usize) -> (found: Result<
        Cell,
        GridError,
    >)
        requires
            self.wf(),
        ensures
            self.in_bounds(col_x as int, row_y as int) ==> found == Ok::<Cell, GridError>(
                self.cell(col_x as int, row_y as int),
            ),
            !self.in_bounds(col_x as int, row_y as int) ==> found == Err::<Cell, GridError>(
                GridError::OutOfBounds,
            ),
    {
        if !self.contains(col_x, row_y) {
            return Err(GridError::OutOfBounds);
        }
        Ok(self.read_cell(col_x, row_y))
    }

    /// The positions next to column `x`, row `y` that lie inside the grid, in the
    /// fixed order left, up, right, down.
    pub open spec fn neighbors(&self, x: int, y: int) -> Seq<(usize, usize)> {
        let left = if x > 0 {
            seq![((x - 1) as usize, y as usize)]
        } else {
            seq![]
        };
        let up = if y > 0 {
            seq![(x as usize, (y - 1) as usize)]
        } else {
            seq![]
        };
        let right = if x + 1 < self.columns() {
            seq![((x + 1) as usize, y as usize)]
        } else {
            seq![]
        };
        let down = if y + 1 < self.rows() {
            seq![(x as usize, (y + 1) as usize)]
        } else {
            seq![]
        };
        left + up + right + down
    }

    /// The coordinates of the cells directly left of, above, right of and below
    /// column `col_x`, row `row_y`, leaving out those that would fall outside the
    /// grid; `OutOfBounds` where the position itself lies outside.
    pub fn get_neighbor_coordinates(&self, col_x: usize, row_y: usize) -> (found: Result<
        Vec<(usize, usize)>,
        GridError,
    >)
        requires
            self.wf(),
        ensures
            self.in_bounds(col_x as int, row_y as int) ==> found is Ok && found->Ok_0@
                == self.neighbors(col_x as int, row_y as int),
            !self.in_bounds(col_x as int, row_y as int) ==> found is Err && found->Err_0
                == GridError::OutOfBounds,
    {
        if !self.contains(col_x, row_y) {
            return Err(GridError::OutOfBounds);
        }
        let mut adjacent: Vec<(usize, usize)> = Vec::new();
        if col_x > 0 {
            adjacent.push((col_x - 1, row_y));
        }
        if row_y > 0 {
            adjacent.push((col_x, row_y - 1));
        }
        if col_x + 1 < self.column_count_x {
            adjacent.push((col_x + 1, row_y));
        }
        if row_y + 1 < self.row_count_y {
            adjacent.push((col_x, row_y + 1));
        }
        assert(adjacent@ =~= self.neighbors(col_x as int, row_y as int));
        Ok(adjacent)
    }

    /// The label that a cell of kind `cell_type` carries once its kind is set,
    /// if it carried `before`: none on a barrier, 1 on a source, else unchanged.
    pub open spec fn number_for(cell_type: CellType, before: Option<usize>) -> Option<usize> {
        match cell_type {
            CellType::Barrier => None,
            CellType::Source => Some(1usize),
            _ => before,
        }
    }

    /// Sets the kind of the cell at column `col_x`, row `row_y`. The cell's label
    /// follows where the kind fixes it: a barrier loses its label, a source gets
    /// the label 1. No other cell changes. Outside the grid nothing changes and
    /// `OutOfBounds` is returned.
    pub fn set_cell_type(&mut self, col_x: usize, row_y: usize, cell_type: CellType) -> (done:
        Result<(), GridError>)
        requires
            old(self).wf(),
        ensures
            final(self).wf(),
            final(self).rows() == old(self).rows(),
            final(self).columns() == old(self).columns(),
            old(self).in_bounds(col_x as int, row_y as int) ==> {
                &&& done is Ok
                &&& final(self).kind(col_x as int, row_y as int) == cell_type
                &&& final(self).number(col_x as int, row_y as int) == Self::number_for(
                    cell_type,
                    old(self).number(col_x as int, row_y as int),
                )
                &&& forall|x: int, y: int|
                    old(self).in_bounds(x, y) && !(x == col_x && y == row_y) ==> #[trigger] final(self).cell(x, y) == old(self).cell(x, y)
            },
            !old(self).in_bounds(col_x as int, row_y as int) ==> {
                &&& done == Err::<(), GridError>(GridError::OutOfBounds)
                &&& *final(self) == *old(self)
            },
    {
        if !self.contains(col_x, row_y) {
            return Err(GridError::OutOfBounds);
        }
        let before = self.read_cell(col_x, row_y);
        let cell_number = match cell_type {
            CellType::Barrier => None,
            CellType::Source => Some(1usize),
            _ => before.cell_number,
        };
        self.write_cell(col_x, row_y, cell_type, cell_number);
        Ok(())
    }

    /// The cell with the lowest label, an unlabelled cell counting as lower than any
    /// labelled one; among several the first; none where there are no cells.
    pub fn get_cell_with_lowest_cell_number(cells: Vec<Cell>) -> (found: Option<Cell>)
        ensures
            cells@.len() == 0 ==> found is None,
            cells@.len() > 0 ==> found is Some && exists|at: int| #[trigger]
                first_lowest(cells@, at) && cells@[at] == found->0,
    {
        if cells.len() == 0 {
            return None;
        }
        let mut at: usize = 0;
        let mut i: usize = 1;
        while i < cells.len()
            invariant
                1 <= i <= cells@.len(),
                first_lowest(cells@.take(i as int), at as int),
            decreases cells@.len() - i,
        {
            let ghost seen = cells@.take(i as int);
            let ghost more = cells@.take(i + 1);
            if comes_before(cells[i].cell_number, cells[at].cell_number) {
                at = i;
            }
            proof {
                assert forall|j: int| 0 <= j < more.len() implies !label_before(
                    (#[trigger] more[j]).cell_number,
                    more[at as int].cell_number,
                ) by {
                    if j < i {
                        assert(seen[j] == more[j]);
                    }
                }
                assert forall|j: int| 0 <= j < at implies label_before(
                    more[at as int].cell_number,
                    (#[trigger] more[j]).cell_number,
                ) by {
                    assert(seen[j] == more[j]);
                }
            }
            i = i + 1;
        }
        assert(cells@.take(i as int) =~= cells@);
        Some(cells[at])
    }
}

} // verus!
