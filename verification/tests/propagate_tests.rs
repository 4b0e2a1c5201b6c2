use flood_grid::cell::CellType;
use flood_grid::grid::{Grid, GridError};
use flood_grid::marks::Marks;
use std::collections::VecDeque;

fn labels(grid: &Grid) -> Vec<Vec<Option<usize>>> {
    let mut rows = Vec::new();
    for y in 0..grid.row_count() {
        let mut row = Vec::new();
        for x in 0..grid.column_count() {
            row.push(grid.get_cell_from_coordinate(x, y).unwrap().cell_number);
        }
        rows.push(row);
    }
    rows
}

fn kinds(grid: &Grid) -> Vec<Vec<CellType>> {
    let mut rows = Vec::new();
    for y in 0..grid.row_count() {
        let mut row = Vec::new();
        for x in 0..grid.column_count() {
            row.push(grid.get_cell_from_coordinate(x, y).unwrap().cell_type);
        }
        rows.push(row);
    }
    rows
}

/// Builds a grid from a picture: `S` source, `#` barrier, `a` active, anything
/// else inactive. Returns the grid and the coordinates of its sources.
fn build(picture: &[&str]) -> (Grid, Vec<(usize, usize)>) {
    let mut grid = Grid::new(picture.len(), picture[0].len()).unwrap();
    let mut sources = Vec::new();
    for (y, line) in picture.iter().enumerate() {
        for (x, ch) in line.chars().enumerate() {
            match ch {
                'S' => {
                    grid.toggle_source(&mut sources, x, y).unwrap();
                }
                '#' => {
                    grid.toggle_barrier(x, y).unwrap();
                }
                'a' => {
                    grid.set_cell_type(x, y, CellType::Active).unwrap();
                }
                _ => {}
            }
        }
    }
    (grid, sources)
}

/// An independent breadth-first search over the picture.
fn reference(picture: &[&str]) -> Vec<Vec<Option<usize>>> {
    let rows = picture.len();
    let columns = picture[0].len();
    let map: Vec<Vec<char>> = picture.iter().map(|l| l.chars().collect()).collect();
    let mut out = vec![vec![None; columns]; rows];
    let mut queue = VecDeque::new();
    for y in 0..rows {
        for x in 0..columns {
            if map[y][x] == 'S' {
                out[y][x] = Some(1usize);
                queue.push_back((x, y));
            }
        }
    }
    while let Some((x, y)) = queue.pop_front() {
        let d = out[y][x].unwrap();
        let mut around = Vec::new();
        if x > 0 {
            around.push((x - 1, y));
        }
        if y > 0 {
            around.push((x, y - 1));
        }
        if x + 1 < columns {
            around.push((x + 1, y));
        }
        if y + 1 < rows {
            around.push((x, y + 1));
        }
        for (a, b) in around {
            if map[b][a] != '#' && out[b][a].is_none() {
                out[b][a] = Some(d + 1);
                queue.push_back((a, b));
            }
        }
    }
    out
}

fn check_against_reference(picture: &[&str]) {
    let (mut grid, sources) = build(picture);
    let before = kinds(&grid);
    assert_eq!(grid.source_cells(&sources), Ok(()));
    assert_eq!(labels(&grid), reference(picture));
    assert_eq!(kinds(&grid), before);
}

#[test]
fn three_by_three_from_corner() {
    let mut grid = Grid::new(3, 3).unwrap();
    let mut sources = Vec::new();
    grid.toggle_source(&mut sources, 0, 0).unwrap();
    assert_eq!(grid.source_cells(&sources), Ok(()));
    assert_eq!(
        labels(&grid),
        vec![
            vec![Some(1), Some(2), Some(3)],
            vec![Some(2), Some(3), Some(4)],
            vec![Some(3), Some(4), Some(5)],
        ]
    );
}

#[test]
fn three_by_three_with_barrier_beside_source() {
    let mut grid = Grid::new(3, 3).unwrap();
    let mut sources = Vec::new();
    grid.toggle_source(&mut sources, 0, 0).unwrap();
    grid.source_cells(&sources).unwrap();
    grid.toggle_barrier(1, 0).unwrap();
    assert_eq!(grid.source_cells(&sources), Ok(()));
    let got = labels(&grid);
    assert_eq!(got[0][0], Some(1));
    assert_eq!(got[1][0], Some(2));
    assert_eq!(got[1][1], Some(3));
    assert_eq!(got[2][0], Some(3));
    assert_eq!(got[1][2], Some(4));
    assert_eq!(got[2][1], Some(4));
    assert_eq!(got[2][2], Some(5));
    assert_eq!(got[0][1], None);
    assert_eq!(got[0][2], Some(5));
    assert_eq!(got, reference(&["S#.", "...", "..."]));
}

#[test]
fn labels_match_reference_on_open_grid() {
    check_against_reference(&[".....", "..S..", ".....", "....."]);
}

#[test]
fn labels_match_reference_with_walls() {
    check_against_reference(&[
        "S...#.....",
        ".##.#.###.",
        ".#..#...#.",
        ".#.####.#.",
        ".#......#.",
        ".########.",
        "..........",
    ]);
}

#[test]
fn labels_match_reference_with_several_sources() {
    check_against_reference(&[
        "S......S",
        "...##...",
        "..#..#..",
        "...##...",
        "a......S",
    ]);
}

#[test]
fn labels_match_reference_with_adjacent_sources() {
    check_against_reference(&["SS..", "S...", "...."]);
}

#[test]
fn labels_match_reference_on_single_row_and_column() {
    check_against_reference(&["..S...#.."]);
    check_against_reference(&[".", "S", ".", "#", "."]);
}

#[test]
fn labels_match_reference_when_sources_are_walled_in() {
    check_against_reference(&["S#...", "##...", ".....", "...#S"]);
}

#[test]
fn active_cells_propagate_like_inactive_ones() {
    let (mut grid, sources) = build(&["Saa", "#a#", "..."]);
    grid.source_cells(&sources).unwrap();
    assert_eq!(
        labels(&grid),
        vec![
            vec![Some(1), Some(2), Some(3)],
            vec![None, Some(3), None],
            vec![Some(5), Some(4), Some(5)],
        ]
    );
    assert_eq!(grid.get_cell_from_coordinate(1, 0).unwrap().cell_type, CellType::Active);
}

#[test]
fn cell_between_two_sources_is_labelled_two() {
    let (mut grid, sources) = build(&["S.S"]);
    grid.source_cells(&sources).unwrap();
    assert_eq!(labels(&grid), vec![vec![Some(1), Some(2), Some(1)]]);
}

#[test]
fn source_beside_source_keeps_label_one() {
    let (mut grid, sources) = build(&["SS."]);
    grid.source_cells(&sources).unwrap();
    assert_eq!(labels(&grid), vec![vec![Some(1), Some(1), Some(2)]]);
}

#[test]
fn repeated_passes_give_the_same_labels() {
    let (mut grid, sources) = build(&["S..#.", ".#...", "...#S", "#...."]);
    grid.source_cells(&sources).unwrap();
    let first = labels(&grid);
    grid.source_cells(&sources).unwrap();
    let second = labels(&grid);
    grid.source_cells(&sources).unwrap();
    assert_eq!(first, second);
    assert_eq!(second, labels(&grid));
}

#[test]
fn order_of_sources_does_not_matter() {
    let picture = ["S....", ".....", "....S"];
    let (mut one, sources) = build(&picture);
    let (mut two, _) = build(&picture);
    let reversed: Vec<(usize, usize)> = sources.iter().rev().cloned().collect();
    one.source_cells(&sources).unwrap();
    two.source_cells(&reversed).unwrap();
    assert_eq!(labels(&one), labels(&two));
}

#[test]
fn repeated_source_coordinates_are_accepted() {
    let (mut grid, sources) = build(&["S.."]);
    let twice = vec![sources[0], sources[0]];
    assert_eq!(grid.source_cells(&twice), Ok(()));
    assert_eq!(labels(&grid), vec![vec![Some(1), Some(2), Some(3)]]);
}

#[test]
fn barriers_are_never_labelled() {
    let picture = ["S.#.", "..#.", "...."];
    let (mut grid, sources) = build(&picture);
    assert_eq!(grid.get_cell_from_coordinate(2, 0).unwrap().cell_number, None);
    assert_eq!(grid.get_cell_from_coordinate(2, 1).unwrap().cell_number, None);
    grid.source_cells(&sources).unwrap();
    assert_eq!(grid.get_cell_from_coordinate(2, 0).unwrap().cell_number, None);
    assert_eq!(grid.get_cell_from_coordinate(2, 1).unwrap().cell_number, None);
    assert_eq!(grid.get_cell_from_coordinate(2, 2).unwrap().cell_number, Some(5));
}

#[test]
fn barrier_put_on_labelled_cell_loses_label_at_once() {
    let (mut grid, sources) = build(&["S..."]);
    grid.source_cells(&sources).unwrap();
    assert_eq!(grid.get_cell_from_coordinate(2, 0).unwrap().cell_number, Some(3));
    grid.toggle_barrier(2, 0).unwrap();
    assert_eq!(grid.get_cell_from_coordinate(2, 0).unwrap().cell_number, None);
    grid.source_cells(&sources).unwrap();
    assert_eq!(labels(&grid), vec![vec![Some(1), Some(2), None, None]]);
}

#[test]
fn enclosed_cell_stays_unlabelled() {
    let (mut grid, sources) = build(&["S....", "..#..", ".#.#.", "..#..", "....."]);
    grid.source_cells(&sources).unwrap();
    assert_eq!(grid.get_cell_from_coordinate(2, 2).unwrap().cell_number, None);
    assert_eq!(grid.get_cell_from_coordinate(4, 4).unwrap().cell_number, Some(9));
}

#[test]
fn enclosed_corner_stays_unlabelled() {
    let (mut grid, sources) = build(&["S..", "..#", ".#."]);
    grid.source_cells(&sources).unwrap();
    assert_eq!(grid.get_cell_from_coordinate(2, 2).unwrap().cell_number, None);
}

#[test]
fn region_loses_labels_when_its_only_source_goes() {
    let (mut grid, mut sources) = build(&["S.#.S", "..#..", "..#.."]);
    grid.source_cells(&sources).unwrap();
    assert_eq!(grid.get_cell_from_coordinate(3, 2).unwrap().cell_number, Some(4));
    grid.toggle_source(&mut sources, 4, 0).unwrap();
    assert_eq!(sources, vec![(0, 0)]);
    grid.source_cells(&sources).unwrap();
    assert_eq!(
        labels(&grid),
        vec![
            vec![Some(1), Some(2), None, None, None],
            vec![Some(2), Some(3), None, None, None],
            vec![Some(3), Some(4), None, None, None],
        ]
    );
}

#[test]
fn region_loses_labels_when_cut_off_by_a_barrier() {
    let (mut grid, sources) = build(&["S....", "####.", "....."]);
    grid.source_cells(&sources).unwrap();
    assert_eq!(grid.get_cell_from_coordinate(0, 2).unwrap().cell_number, Some(11));
    grid.toggle_barrier(4, 1).unwrap();
    grid.source_cells(&sources).unwrap();
    assert_eq!(
        labels(&grid),
        vec![
            vec![Some(1), Some(2), Some(3), Some(4), Some(5)],
            vec![None; 5],
            vec![None; 5],
        ]
    );
}

#[test]
fn no_sources_leave_the_grid_unlabelled() {
    let (mut grid, mut sources) = build(&["S..", "...", "..."]);
    grid.source_cells(&sources).unwrap();
    grid.toggle_source(&mut sources, 0, 0).unwrap();
    assert!(sources.is_empty());
    assert_eq!(grid.source_cells(&sources), Ok(()));
    assert_eq!(labels(&grid), vec![vec![None; 3]; 3]);
}

#[test]
fn fresh_grid_without_sources_stays_unlabelled() {
    let mut grid = Grid::new(2, 2).unwrap();
    assert_eq!(grid.source_cells(&Vec::new()), Ok(()));
    assert_eq!(labels(&grid), vec![vec![None; 2]; 2]);
}

#[test]
fn longest_winding_path_is_counted() {
    let (mut grid, sources) = build(&["S....", "####.", ".....", ".####", "....."]);
    grid.source_cells(&sources).unwrap();
    assert_eq!(grid.get_cell_from_coordinate(4, 4).unwrap().cell_number, Some(17));
}

#[test]
fn source_outside_the_grid_is_refused() {
    let (mut grid, mut sources) = build(&["S..", "..."]);
    grid.source_cells(&sources).unwrap();
    let before = labels(&grid);
    sources.push((3, 0));
    assert_eq!(grid.source_cells(&sources), Err(GridError::OutOfBounds));
    assert_eq!(labels(&grid), before);
    assert_eq!(grid.source_cells(&vec![(0, 2)]), Err(GridError::OutOfBounds));
}

#[test]
fn out_of_bounds_is_reported_before_mismatch() {
    let mut grid = Grid::new(2, 2).unwrap();
    assert_eq!(grid.source_cells(&vec![(0, 0), (9, 9)]), Err(GridError::OutOfBounds));
}

#[test]
fn coordinate_that_is_no_source_is_refused() {
    let (mut grid, mut sources) = build(&["S..", "..."]);
    grid.source_cells(&sources).unwrap();
    let before = labels(&grid);
    sources.push((1, 1));
    assert_eq!(grid.source_cells(&sources), Err(GridError::SourceMismatch));
    assert_eq!(labels(&grid), before);
}

#[test]
fn source_missing_from_the_coordinates_is_refused() {
    let (mut grid, sources) = build(&["S.S", "..."]);
    let only_first = vec![sources[0]];
    assert_eq!(grid.source_cells(&only_first), Err(GridError::SourceMismatch));
    assert_eq!(labels(&grid), vec![vec![Some(1), None, Some(1)], vec![None; 3]]);
}

#[test]
fn source_turned_barrier_must_leave_the_coordinates() {
    let (mut grid, sources) = build(&["S..", "..S"]);
    grid.source_cells(&sources).unwrap();
    grid.toggle_barrier(0, 0).unwrap();
    assert_eq!(grid.source_cells(&sources), Err(GridError::SourceMismatch));
    let remaining = flood_grid::edit::remove_coordinate(&sources, 0, 0);
    assert_eq!(remaining, vec![(2, 1)]);
    assert_eq!(grid.source_cells(&remaining), Ok(()));
    assert_eq!(
        labels(&grid),
        vec![vec![None, Some(3), Some(2)], vec![Some(3), Some(2), Some(1)]]
    );
}

#[test]
fn sources_inside_checks_every_coordinate() {
    let grid = Grid::new(2, 3).unwrap();
    assert!(grid.sources_inside(&vec![]));
    assert!(grid.sources_inside(&vec![(0, 0), (2, 1)]));
    assert!(!grid.sources_inside(&vec![(0, 0), (3, 1)]));
    assert!(!grid.sources_inside(&vec![(0, 2)]));
}

#[test]
fn one_layer_labels_the_frontier_and_returns_the_next() {
    let mut grid = Grid::new(3, 3).unwrap();
    grid.set_cell_type(1, 0, CellType::Barrier).unwrap();
    let mut marks = Marks::new(3, 3);
    marks.mark(1, 0);
    marks.mark(0, 1);
    let next = grid.populate_layer(&vec![(1, 0), (0, 1)], 7, &mut marks);
    assert_eq!(next, vec![(0, 0), (1, 1), (0, 2)]);
    assert_eq!(grid.get_cell_from_coordinate(0, 1).unwrap().cell_number, Some(7));
    assert_eq!(grid.get_cell_from_coordinate(1, 0).unwrap().cell_number, None);
    assert_eq!(grid.get_cell_from_coordinate(0, 0).unwrap().cell_number, None);
    assert!(marks.is_marked(0, 0));
    assert!(marks.is_marked(1, 1));
    assert!(marks.is_marked(0, 2));
    assert!(!marks.is_marked(2, 0));
}

#[test]
fn marks_start_clear_and_keep_what_is_marked() {
    let mut marks = Marks::new(2, 3);
    for y in 0..2 {
        for x in 0..3 {
            assert!(!marks.is_marked(x, y));
        }
    }
    marks.mark(2, 1);
    marks.mark(0, 0);
    assert!(marks.is_marked(2, 1));
    assert!(marks.is_marked(0, 0));
    assert!(!marks.is_marked(1, 0));
    assert!(!marks.is_marked(1, 1));
    assert!(!marks.is_marked(2, 0));
    assert!(!marks.is_marked(0, 1));
}

fn marked(marks: &Marks, rows: usize, columns: usize) -> Vec<(usize, usize)> {
    let mut found = Vec::new();
    for y in 0..rows {
        for x in 0..columns {
            if marks.is_marked(x, y) {
                found.push((x, y));
            }
        }
    }
    found
}

#[test]
fn propagation_from_a_frontier_labels_every_layer() {
    let mut grid = Grid::new(1, 4).unwrap();
    let mut marks = Marks::new(1, 4);
    marks.mark(0, 0);
    marks.mark(1, 0);
    grid.populate_cells(&vec![(1, 0)], 2, &mut marks);
    assert_eq!(labels(&grid), vec![vec![None, Some(2), Some(3), Some(4)]]);
    assert_eq!(marked(&marks, 1, 4), vec![(0, 0), (1, 0), (2, 0), (3, 0)]);
}

#[test]
fn propagation_from_a_frontier_goes_round_barriers_and_marked_cells() {
    let mut grid = Grid::new(3, 4).unwrap();
    grid.set_cell_type(1, 1, CellType::Barrier).unwrap();
    grid.set_cell_type(2, 1, CellType::Barrier).unwrap();
    let mut marks = Marks::new(3, 4);
    marks.mark(0, 0);
    marks.mark(1, 0);
    marks.mark(0, 2);
    grid.populate_cells(&vec![(0, 0), (1, 0)], 10, &mut marks);
    assert_eq!(
        labels(&grid),
        vec![
            vec![Some(10), Some(10), Some(11), Some(12)],
            vec![Some(11), None, None, Some(13)],
            vec![None, Some(16), Some(15), Some(14)],
        ]
    );
    assert_eq!(marked(&marks, 3, 4).len(), 12);
}

#[test]
fn propagation_from_a_frontier_keeps_other_labels() {
    let (mut grid, sources) = build(&["S..#..."]);
    grid.source_cells(&sources).unwrap();
    let mut marks = Marks::new(1, 7);
    marks.mark(0, 0);
    marks.mark(5, 0);
    grid.populate_cells(&vec![(5, 0)], 20, &mut marks);
    assert_eq!(
        labels(&grid),
        vec![vec![Some(1), Some(2), Some(3), None, Some(21), Some(20), Some(21)]]
    );
    assert_eq!(marked(&marks, 1, 7), vec![(0, 0), (3, 0), (4, 0), (5, 0), (6, 0)]);
}

#[test]
fn propagation_from_a_barrier_changes_nothing() {
    let mut grid = Grid::new(1, 3).unwrap();
    grid.set_cell_type(1, 0, CellType::Barrier).unwrap();
    let mut marks = Marks::new(1, 3);
    marks.mark(1, 0);
    grid.populate_cells(&vec![(1, 0)], 2, &mut marks);
    assert_eq!(labels(&grid), vec![vec![None, None, None]]);
    assert_eq!(marked(&marks, 1, 3), vec![(1, 0)]);
}

#[test]
fn propagation_from_an_empty_frontier_changes_nothing() {
    let mut grid = Grid::new(2, 2).unwrap();
    let mut marks = Marks::new(2, 2);
    grid.populate_cells(&Vec::new(), usize::MAX, &mut marks);
    assert_eq!(labels(&grid), vec![vec![None; 2]; 2]);
    assert!(marked(&marks, 2, 2).is_empty());
}

#[test]
fn marking_twice_is_marking_once() {
    let mut marks = Marks::new(2, 2);
    marks.mark(1, 0);
    marks.mark(1, 0);
    assert_eq!(marked(&marks, 2, 2), vec![(1, 0)]);
}
