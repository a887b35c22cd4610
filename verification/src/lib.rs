//! Reachability on a sparse, rule-generated grid.
//!
//! A grid cell is addressed by a pair of `usize` coordinates. Cells that were
//! never written are classified on demand from the decimal digits of their
//! coordinates; cells that were written are kept in a sparse store. On top of
//! that store the crate offers a flood fill that marks every cell reachable
//! from a seed, a count of the marked cells, and an encoder that turns a
//! window of the grid into a binary PPM image.

pub mod count;
pub mod digits;
pub mod field;
pub mod ppm;
pub mod reach;
pub mod traversal;

pub use count::count_cells_avail_for_ant;
pub use digits::get_digits_sum;
pub use field::{
    calc_field_cell_state, get_cell_state, set_cell_state, FieldCellState, FieldSparseMatrix,
};
pub use ppm::{encode_ppm, map_state_to_color};
pub use traversal::{mark_cells_avail_for_ant, visit_cell};
