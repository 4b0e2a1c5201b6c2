//! A grid of cells labelled with their distance from the nearest source.
//!
//! A [`grid::Grid`] holds cells that are sources, barriers or ordinary cells.
//! [`grid::Grid::source_cells`] labels every cell with one more than the number
//! of steps to the nearest source, going from cell to adjacent cell without
//! crossing a barrier, and leaves unlabelled what no source reaches.
//! [`grid::Grid::toggle_source`] and [`grid::Grid::toggle_barrier`] edit the
//! grid between two passes.

pub mod cell;
pub mod edit;
pub mod grid;
pub mod laws;
pub mod layer;
pub mod marks;
pub mod pointer;
pub mod propagate;
pub mod reach;
pub mod spread;
pub mod walk;
