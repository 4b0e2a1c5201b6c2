use flood_grid::cell::{comes_before, Cell, CellType};
use flood_grid::grid::{Grid, GridError};

fn cell(grid: &Grid, x: usize, y: usize) -> Cell {
    grid.get_cell_from_coordinate(x, y).unwrap()
}

#[test]
fn default_kind_is_inactive() {
    assert_eq!(CellType::default(), CellType::Inactive);
}

#[test]
fn default_cell_is_unlabelled_at_origin() {
    let c = Cell::default();
    assert_eq!(c.cell_type, CellType::Inactive);
    assert_eq!(c.cell_number, None);
    assert_eq!((c.x_position, c.y_position), (0, 0));
}

#[test]
fn new_grid_has_inactive_unlabelled_cells() {
    let grid = Grid::new(3, 4).unwrap();
    assert_eq!(grid.row_count(), 3);
    assert_eq!(grid.column_count(), 4);
    for y in 0..3 {
        for x in 0..4 {
            let c = cell(&grid, x, y);
            assert_eq!(c.cell_type, CellType::Inactive);
            assert_eq!(c.cell_number, None);
            assert_eq!(c.x_position, x);
            assert_eq!(c.y_position, y);
        }
    }
}

#[test]
fn new_grid_rejects_zero_rows() {
    assert_eq!(Grid::new(0, 5).err(), Some(GridError::InvalidDimensions));
}

#[test]
fn new_grid_rejects_zero_columns() {
    assert_eq!(Grid::new(5, 0).err(), Some(GridError::InvalidDimensions));
}

#[test]
fn new_grid_rejects_more_cells_than_can_be_indexed() {
    assert_eq!(Grid::new(usize::MAX, 2).err(), Some(GridError::InvalidDimensions));
}

#[test]
fn single_cell_grid() {
    let grid = Grid::new(1, 1).unwrap();
    assert_eq!(grid.get_neighbor_coordinates(0, 0).unwrap(), vec![]);
    assert_eq!(cell(&grid, 0, 0).cell_number, None);
}

#[test]
fn contains_tells_inside_from_outside() {
    let grid = Grid::new(2, 3).unwrap();
    assert!(grid.contains(0, 0));
    assert!(grid.contains(2, 1));
    assert!(!grid.contains(3, 1));
    assert!(!grid.contains(2, 2));
}

#[test]
fn cell_outside_is_refused() {
    let grid = Grid::new(2, 3).unwrap();
    assert_eq!(grid.get_cell_from_coordinate(3, 0).err(), Some(GridError::OutOfBounds));
    assert_eq!(grid.get_cell_from_coordinate(0, 2).err(), Some(GridError::OutOfBounds));
    assert!(grid.get_cell_from_coordinate(2, 1).is_ok());
}

#[test]
fn neighbors_of_interior_cell_in_fixed_order() {
    let grid = Grid::new(3, 3).unwrap();
    assert_eq!(
        grid.get_neighbor_coordinates(1, 1).unwrap(),
        vec![(0, 1), (1, 0), (2, 1), (1, 2)]
    );
}

#[test]
fn neighbors_of_corners() {
    let grid = Grid::new(3, 4).unwrap();
    assert_eq!(grid.get_neighbor_coordinates(0, 0).unwrap(), vec![(1, 0), (0, 1)]);
    assert_eq!(grid.get_neighbor_coordinates(3, 0).unwrap(), vec![(2, 0), (3, 1)]);
    assert_eq!(grid.get_neighbor_coordinates(0, 2).unwrap(), vec![(0, 1), (1, 2)]);
    assert_eq!(grid.get_neighbor_coordinates(3, 2).unwrap(), vec![(2, 2), (3, 1)]);
}

#[test]
fn neighbors_of_edge_cells() {
    let grid = Grid::new(3, 4).unwrap();
    assert_eq!(grid.get_neighbor_coordinates(1, 0).unwrap(), vec![(0, 0), (2, 0), (1, 1)]);
    assert_eq!(grid.get_neighbor_coordinates(0, 1).unwrap(), vec![(0, 0), (1, 1), (0, 2)]);
    assert_eq!(grid.get_neighbor_coordinates(3, 1).unwrap(), vec![(2, 1), (3, 0), (3, 2)]);
    assert_eq!(grid.get_neighbor_coordinates(2, 2).unwrap(), vec![(1, 2), (2, 1), (3, 2)]);
}

#[test]
fn neighbors_stay_inside_the_grid() {
    let grid = Grid::new(4, 5).unwrap();
    for y in 0..4 {
        for x in 0..5 {
            for (a, b) in grid.get_neighbor_coordinates(x, y).unwrap() {
                assert!(grid.contains(a, b));
                assert_eq!(a.abs_diff(x) + b.abs_diff(y), 1);
            }
        }
    }
}

#[test]
fn neighbors_are_the_same_on_every_call() {
    let grid = Grid::new(3, 3).unwrap();
    let first = grid.get_neighbor_coordinates(1, 2).unwrap();
    let second = grid.get_neighbor_coordinates(1, 2).unwrap();
    assert_eq!(first, second);
}

#[test]
fn neighbors_of_position_outside_are_refused() {
    let grid = Grid::new(3, 3).unwrap();
    assert_eq!(grid.get_neighbor_coordinates(3, 0).err(), Some(GridError::OutOfBounds));
    assert_eq!(grid.get_neighbor_coordinates(0, 7).err(), Some(GridError::OutOfBounds));
}

#[test]
fn set_cell_type_changes_one_cell() {
    let mut grid = Grid::new(2, 2).unwrap();
    assert_eq!(grid.set_cell_type(1, 0, CellType::Active), Ok(()));
    assert_eq!(cell(&grid, 1, 0).cell_type, CellType::Active);
    assert_eq!(cell(&grid, 1, 0).cell_number, None);
    assert_eq!(cell(&grid, 0, 0).cell_type, CellType::Inactive);
    assert_eq!(cell(&grid, 0, 1).cell_type, CellType::Inactive);
    assert_eq!(cell(&grid, 1, 1).cell_type, CellType::Inactive);
}

#[test]
fn set_cell_type_source_labels_one_and_barrier_clears() {
    let mut grid = Grid::new(2, 2).unwrap();
    grid.set_cell_type(0, 0, CellType::Source).unwrap();
    assert_eq!(cell(&grid, 0, 0).cell_number, Some(1));
    grid.set_cell_type(0, 0, CellType::Inactive).unwrap();
    assert_eq!(cell(&grid, 0, 0).cell_number, Some(1));
    grid.set_cell_type(0, 0, CellType::Barrier).unwrap();
    assert_eq!(cell(&grid, 0, 0).cell_number, None);
    assert_eq!(cell(&grid, 0, 0).x_position, 0);
    assert_eq!(cell(&grid, 0, 0).y_position, 0);
}

#[test]
fn set_cell_type_outside_is_refused() {
    let mut grid = Grid::new(2, 2).unwrap();
    assert_eq!(grid.set_cell_type(2, 0, CellType::Barrier), Err(GridError::OutOfBounds));
    for y in 0..2 {
        for x in 0..2 {
            assert_eq!(cell(&grid, x, y).cell_type, CellType::Inactive);
        }
    }
}

fn numbered(n: Option<usize>, x: usize) -> Cell {
    Cell { cell_type: CellType::Inactive, cell_number: n, x_position: x, y_position: 0 }
}

#[test]
fn lowest_of_no_cells_is_none() {
    assert_eq!(Grid::get_cell_with_lowest_cell_number(vec![]), None);
}

#[test]
fn lowest_is_the_smallest_label() {
    let cells = vec![numbered(Some(4), 0), numbered(Some(2), 1), numbered(Some(3), 2)];
    assert_eq!(Grid::get_cell_with_lowest_cell_number(cells), Some(numbered(Some(2), 1)));
}

#[test]
fn lowest_takes_the_first_of_equals() {
    let cells = vec![numbered(Some(5), 0), numbered(Some(2), 1), numbered(Some(2), 2)];
    assert_eq!(Grid::get_cell_with_lowest_cell_number(cells), Some(numbered(Some(2), 1)));
}

#[test]
fn lowest_counts_unlabelled_below_labelled() {
    let cells = vec![numbered(Some(1), 0), numbered(None, 1), numbered(None, 2)];
    assert_eq!(Grid::get_cell_with_lowest_cell_number(cells), Some(numbered(None, 1)));
}

#[test]
fn label_order() {
    assert!(comes_before(None, Some(0)));
    assert!(comes_before(Some(1), Some(2)));
    assert!(!comes_before(Some(2), Some(2)));
    assert!(!comes_before(Some(3), Some(2)));
    assert!(!comes_before(Some(3), None));
    assert!(!comes_before(None, None));
}
