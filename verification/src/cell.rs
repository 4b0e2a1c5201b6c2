//! Cells: what a grid position is, and the label it carries.

use vstd::prelude::*;

verus! {

/// What a cell is.
#[derive(Clone, Copy, Debug, PartialEq, Eq, Structural)]
pub enum CellType {
    /// Blocks propagation and is never labelled.
    Barrier,
    /// An ordinary cell.
    Inactive,
    /// An ordinary cell that the display marks; it propagates like `Inactive`.
    Active,
    /// An origin of propagation, always labelled 1.
    Source,
}

impl Default for CellType {
    fn default() -> (kind: Self)
        ensures
            kind == CellType::Inactive,
    {
        CellType::Inactive
    }
}

/// One position of a grid: its kind, its label and where it sits.
///
/// `cell_number` is `None` while propagation has not reached the cell, and
/// `Some(n)` when the cell lies `n - 1` steps from the nearest source.
#[derive(Clone, Copy, Debug, PartialEq, Eq)]
pub struct Cell {
    pub cell_type: CellType,
    pub cell_number: Option<usize>,
    pub x_position: usize,
    pub y_position: usize,
}

impl Cell {
    /// The cell that a new grid holds at column `x`, row `y`.
    pub open spec fn fresh(x: int, y: int) -> Cell {
        Cell {
            cell_type: CellType::Inactive,
            cell_number: None,
            x_position: x as usize,
            y_position: y as usize,
        }
    }
}

impl Default for Cell {
    fn default() -> (cell: Self)
        ensures
            cell == Cell::fresh(0, 0),
    {
        Cell { cell_type: CellType::Inactive, cell_number: None, x_position: 0, y_position: 0 }
    }
}

/// Whether the label `a` comes before the label `b`: no label comes before any
/// label, and a smaller label before a larger one.
pub open spec fn label_before(a: Option<usize>, b: Option<usize>) -> bool {
    match (a, b) {
        (None, Some(_)) => true,
        (Some(p), Some(q)) => p < q,
        _ => false,
    }
}

/// Whether the label `a` comes before the label `b`.
pub fn comes_before(a: Option<usize>, b: Option<usize>) -> (before: bool)
    ensures
        before == label_before(a, b),
{
    match (a, b) {
        (None, Some(_)) => true,
        (Some(p), Some(q)) => p < q,
        _ => false,
    }
}

/// Whether `cells[at]` is the first of the cells whose label comes before no
/// other's.
pub open spec fn first_lowest(cells: Seq<Cell>, at: int) -> bool {
    &&& 0 <= at < cells.len()
    &&& forall|j: int|
        0 <= j < cells.len() ==> !label_before((#[trigger] cells[j]).cell_number, cells[at].cell_number)
    &&& forall|j: int|
        0 <= j < at ==> label_before(cells[at].cell_number, (#[trigger] cells[j]).cell_number)
}

} // verus!
