use flood_grid::cell::CellType;
use flood_grid::edit::remove_coordinate;
use flood_grid::grid::{Grid, GridError};
use flood_grid::pointer::Request;

#[test]
fn toggled_source_is_labelled_one_at_once() {
    let mut grid = Grid::new(3, 3).unwrap();
    let mut sources = Vec::new();
    assert_eq!(grid.toggle_source(&mut sources, 1, 2), Ok(()));
    let c = grid.get_cell_from_coordinate(1, 2).unwrap();
    assert_eq!(c.cell_type, CellType::Source);
    assert_eq!(c.cell_number, Some(1));
    assert_eq!(sources, vec![(1, 2)]);
}

#[test]
fn toggled_source_on_labelled_cell_is_labelled_one_at_once() {
    let mut grid = Grid::new(1, 4).unwrap();
    let mut sources = Vec::new();
    grid.toggle_source(&mut sources, 0, 0).unwrap();
    grid.source_cells(&sources).unwrap();
    assert_eq!(grid.get_cell_from_coordinate(3, 0).unwrap().cell_number, Some(4));
    grid.toggle_source(&mut sources, 3, 0).unwrap();
    assert_eq!(grid.get_cell_from_coordinate(3, 0).unwrap().cell_number, Some(1));
    assert_eq!(grid.get_cell_from_coordinate(2, 0).unwrap().cell_number, Some(3));
    assert_eq!(sources, vec![(0, 0), (3, 0)]);
}

#[test]
fn toggling_a_source_again_makes_it_inactive() {
    let mut grid = Grid::new(2, 2).unwrap();
    let mut sources = Vec::new();
    grid.toggle_source(&mut sources, 0, 1).unwrap();
    grid.toggle_source(&mut sources, 1, 1).unwrap();
    grid.toggle_source(&mut sources, 0, 1).unwrap();
    assert_eq!(sources, vec![(1, 1)]);
    let c = grid.get_cell_from_coordinate(0, 1).unwrap();
    assert_eq!(c.cell_type, CellType::Inactive);
    assert_eq!(c.cell_number, Some(1));
    assert_eq!(grid.get_cell_from_coordinate(1, 1).unwrap().cell_type, CellType::Source);
}

#[test]
fn toggling_a_barrier_to_source() {
    let mut grid = Grid::new(2, 2).unwrap();
    let mut sources = Vec::new();
    grid.toggle_barrier(1, 0).unwrap();
    grid.toggle_source(&mut sources, 1, 0).unwrap();
    let c = grid.get_cell_from_coordinate(1, 0).unwrap();
    assert_eq!(c.cell_type, CellType::Source);
    assert_eq!(c.cell_number, Some(1));
    assert_eq!(sources, vec![(1, 0)]);
}

#[test]
fn toggle_source_outside_is_refused() {
    let mut grid = Grid::new(2, 2).unwrap();
    let mut sources = vec![];
    assert_eq!(grid.toggle_source(&mut sources, 2, 0), Err(GridError::OutOfBounds));
    assert_eq!(grid.toggle_source(&mut sources, 0, 2), Err(GridError::OutOfBounds));
    assert!(sources.is_empty());
    for y in 0..2 {
        for x in 0..2 {
            assert_eq!(grid.get_cell_from_coordinate(x, y).unwrap().cell_type, CellType::Inactive);
        }
    }
}

#[test]
fn toggle_source_keeps_coordinates_and_kinds_in_step() {
    let mut grid = Grid::new(3, 3).unwrap();
    let mut sources = Vec::new();
    let clicks = [(0, 0), (2, 2), (0, 0), (1, 1), (2, 2), (2, 2), (1, 0)];
    for (x, y) in clicks {
        grid.toggle_source(&mut sources, x, y).unwrap();
        assert_eq!(grid.source_cells(&sources), Ok(()));
    }
    assert_eq!(sources, vec![(1, 1), (2, 2), (1, 0)]);
}

#[test]
fn toggle_barrier_there_and_back() {
    let mut grid = Grid::new(2, 2).unwrap();
    assert_eq!(grid.toggle_barrier(1, 1), Ok(()));
    assert_eq!(grid.get_cell_from_coordinate(1, 1).unwrap().cell_type, CellType::Barrier);
    assert_eq!(grid.toggle_barrier(1, 1), Ok(()));
    assert_eq!(grid.get_cell_from_coordinate(1, 1).unwrap().cell_type, CellType::Inactive);
    assert_eq!(grid.get_cell_from_coordinate(1, 1).unwrap().cell_number, None);
}

#[test]
fn toggle_barrier_on_source_makes_a_barrier() {
    let mut grid = Grid::new(2, 2).unwrap();
    let mut sources = Vec::new();
    grid.toggle_source(&mut sources, 0, 0).unwrap();
    grid.toggle_barrier(0, 0).unwrap();
    let c = grid.get_cell_from_coordinate(0, 0).unwrap();
    assert_eq!(c.cell_type, CellType::Barrier);
    assert_eq!(c.cell_number, None);
    assert_eq!(sources, vec![(0, 0)]);
}

#[test]
fn toggle_barrier_on_active_cell() {
    let mut grid = Grid::new(1, 2).unwrap();
    grid.set_cell_type(1, 0, CellType::Active).unwrap();
    grid.toggle_barrier(1, 0).unwrap();
    assert_eq!(grid.get_cell_from_coordinate(1, 0).unwrap().cell_type, CellType::Barrier);
    assert_eq!(grid.get_cell_from_coordinate(0, 0).unwrap().cell_type, CellType::Inactive);
}

#[test]
fn toggle_barrier_outside_is_refused() {
    let mut grid = Grid::new(2, 2).unwrap();
    assert_eq!(grid.toggle_barrier(5, 5), Err(GridError::OutOfBounds));
    for y in 0..2 {
        for x in 0..2 {
            assert_eq!(grid.get_cell_from_coordinate(x, y).unwrap().cell_type, CellType::Inactive);
        }
    }
}

#[test]
fn remove_coordinate_takes_out_every_occurrence() {
    let list = vec![(1, 2), (3, 4), (1, 2), (2, 1), (1, 3)];
    assert_eq!(remove_coordinate(&list, 1, 2), vec![(3, 4), (2, 1), (1, 3)]);
    assert_eq!(remove_coordinate(&list, 9, 9), list);
    assert_eq!(remove_coordinate(&Vec::new(), 0, 0), vec![]);
}

const SOURCE: Request = Request { toggle_source: true, toggle_barrier: false };
const BARRIER: Request = Request { toggle_source: false, toggle_barrier: true };
const BOTH: Request = Request { toggle_source: true, toggle_barrier: true };
const NEITHER: Request = Request { toggle_source: false, toggle_barrier: false };

#[test]
fn empty_request_edits_nothing() {
    let mut grid = Grid::new(2, 2).unwrap();
    let mut sources = Vec::new();
    assert_eq!(grid.apply_request(&mut sources, 1, 1, NEITHER), Ok(false));
    assert_eq!(grid.get_cell_from_coordinate(1, 1).unwrap().cell_type, CellType::Inactive);
    assert!(sources.is_empty());
}

#[test]
fn source_request_toggles_the_source() {
    let mut grid = Grid::new(2, 2).unwrap();
    let mut sources = Vec::new();
    assert_eq!(grid.apply_request(&mut sources, 1, 0, SOURCE), Ok(true));
    assert_eq!(grid.get_cell_from_coordinate(1, 0).unwrap().cell_type, CellType::Source);
    assert_eq!(grid.get_cell_from_coordinate(1, 0).unwrap().cell_number, Some(1));
    assert_eq!(sources, vec![(1, 0)]);
    assert_eq!(grid.apply_request(&mut sources, 1, 0, SOURCE), Ok(true));
    assert_eq!(grid.get_cell_from_coordinate(1, 0).unwrap().cell_type, CellType::Inactive);
    assert!(sources.is_empty());
}

#[test]
fn barrier_request_on_source_takes_its_coordinate_out() {
    let mut grid = Grid::new(2, 2).unwrap();
    let mut sources = Vec::new();
    grid.apply_request(&mut sources, 0, 0, SOURCE).unwrap();
    grid.apply_request(&mut sources, 1, 1, SOURCE).unwrap();
    assert_eq!(grid.apply_request(&mut sources, 0, 0, BARRIER), Ok(true));
    assert_eq!(grid.get_cell_from_coordinate(0, 0).unwrap().cell_type, CellType::Barrier);
    assert_eq!(grid.get_cell_from_coordinate(0, 0).unwrap().cell_number, None);
    assert_eq!(sources, vec![(1, 1)]);
    assert_eq!(grid.source_cells(&sources), Ok(()));
    assert_eq!(grid.get_cell_from_coordinate(1, 0).unwrap().cell_number, Some(2));
}

#[test]
fn barrier_request_on_ordinary_cell_keeps_the_coordinates() {
    let mut grid = Grid::new(2, 2).unwrap();
    let mut sources = Vec::new();
    grid.apply_request(&mut sources, 0, 0, SOURCE).unwrap();
    assert_eq!(grid.apply_request(&mut sources, 1, 0, BARRIER), Ok(true));
    assert_eq!(sources, vec![(0, 0)]);
    assert_eq!(grid.apply_request(&mut sources, 1, 0, BARRIER), Ok(true));
    assert_eq!(grid.get_cell_from_coordinate(1, 0).unwrap().cell_type, CellType::Inactive);
    assert_eq!(sources, vec![(0, 0)]);
}

#[test]
fn both_requests_make_a_barrier_of_an_ordinary_cell() {
    let mut grid = Grid::new(2, 2).unwrap();
    let mut sources = vec![];
    assert_eq!(grid.apply_request(&mut sources, 1, 1, BOTH), Ok(true));
    assert_eq!(grid.get_cell_from_coordinate(1, 1).unwrap().cell_type, CellType::Barrier);
    assert_eq!(grid.get_cell_from_coordinate(1, 1).unwrap().cell_number, None);
    assert!(sources.is_empty());
    assert_eq!(grid.source_cells(&sources), Ok(()));
}

#[test]
fn both_requests_make_a_barrier_of_a_source() {
    let mut grid = Grid::new(2, 2).unwrap();
    let mut sources = vec![];
    grid.apply_request(&mut sources, 1, 1, SOURCE).unwrap();
    assert_eq!(grid.apply_request(&mut sources, 1, 1, BOTH), Ok(true));
    assert_eq!(grid.get_cell_from_coordinate(1, 1).unwrap().cell_type, CellType::Barrier);
    assert!(sources.is_empty());
}

#[test]
fn both_requests_make_a_source_of_a_barrier_and_then_a_barrier() {
    let mut grid = Grid::new(1, 1).unwrap();
    let mut sources = vec![];
    grid.apply_request(&mut sources, 0, 0, BARRIER).unwrap();
    assert_eq!(grid.apply_request(&mut sources, 0, 0, BOTH), Ok(true));
    assert_eq!(grid.get_cell_from_coordinate(0, 0).unwrap().cell_type, CellType::Barrier);
    assert!(sources.is_empty());
}

#[test]
fn request_outside_is_refused() {
    let mut grid = Grid::new(2, 2).unwrap();
    let mut sources = vec![];
    assert_eq!(grid.apply_request(&mut sources, 2, 2, BOTH), Err(GridError::OutOfBounds));
    assert_eq!(grid.apply_request(&mut sources, 0, 2, NEITHER), Err(GridError::OutOfBounds));
    assert!(sources.is_empty());
}

#[test]
fn any_run_of_requests_keeps_the_pass_accepted() {
    let mut grid = Grid::new(3, 3).unwrap();
    let mut sources = Vec::new();
    let run = [
        (0, 0, SOURCE),
        (1, 1, BARRIER),
        (1, 1, SOURCE),
        (0, 0, BARRIER),
        (2, 2, BOTH),
        (2, 1, SOURCE),
        (2, 1, BOTH),
        (1, 1, SOURCE),
        (0, 0, BARRIER),
        (0, 0, SOURCE),
    ];
    for (x, y, asked) in run {
        grid.apply_request(&mut sources, x, y, asked).unwrap();
        assert_eq!(grid.source_cells(&sources), Ok(()));
    }
    assert_eq!(sources, vec![(0, 0)]);
}
