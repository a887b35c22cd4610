//! The sparse store of cell states and the rule that classifies every cell
//! that was never written.

use crate::digits::{digits_sum, get_digits_sum};
use std::collections::HashMap;
use vstd::prelude::*;

verus! {

broadcast use vstd::std_specs::hash::group_hash_axioms;

/// What is known of one cell.
#[derive(Debug, Clone, Copy, PartialEq, Eq, Structural)]
pub enum FieldCellState {
    /// Passable, and not reached by any traversal so far.
    Clear,
    /// Impassable.
    Obstacle,
    /// Passable and reached from the seed of a traversal.
    Avail,
}

/// The store: row `y` maps column `x` to the state written at `(x, y)`.
pub type FieldSparseMatrix = HashMap<usize, HashMap<usize, FieldCellState>>;

/// The mathematical content of a store, row by row.
pub type Grid = Map<usize, Map<usize, FieldCellState>>;

/// A digit sum of the two coordinates above this makes a cell an obstacle.
pub const OBSTACLE_THRESHOLD: u16 = 25;

/// The content of `field`: its rows, each taken by its view.
pub open spec fn grid_of(field: &FieldSparseMatrix) -> Grid {
    Map::new(|y: usize| field@.contains_key(y), |y: usize| field@[y]@)
}

/// Row `y` of `g`, empty where the store has no such row.
pub open spec fn row_of(g: Grid, y: usize) -> Map<usize, FieldCellState> {
    if g.contains_key(y) {
        g[y]
    } else {
        Map::empty()
    }
}

/// The state written at `(x, y)`, if any was.
pub open spec fn stored_state(g: Grid, x: usize, y: usize) -> Option<FieldCellState> {
    if g.contains_key(y) && g[y].contains_key(x) {
        Some(g[y][x])
    } else {
        None
    }
}

/// The state that the rule gives `(x, y)`: an obstacle exactly when the digit
/// sums of the two coordinates add up to more than the threshold.
pub open spec fn rule_state(x: usize, y: usize) -> FieldCellState {
    if digits_sum(x as nat) + digits_sum(y as nat) > OBSTACLE_THRESHOLD {
        FieldCellState::Obstacle
    } else {
        FieldCellState::Clear
    }
}

/// The state of `(x, y)`: what was written there, else what the rule gives.
pub open spec fn cell_state(g: Grid, x: usize, y: usize) -> FieldCellState {
    match stored_state(g, x, y) {
        Some(state) => state,
        None => rule_state(x, y),
    }
}

/// `g` after `v` was written at `(x, y)`.
pub open spec fn with_cell(g: Grid, x: usize, y: usize, v: FieldCellState) -> Grid {
    g.insert(y, row_of(g, y).insert(x, v))
}

/// The cells at which `g` holds a written state.
pub open spec fn stored_cells(g: Grid) -> Set<(usize, usize)> {
    Set::new(|c: (usize, usize)| stored_state(g, c.0, c.1) is Some)
}

/// The cells at which `g` holds `Avail`.
pub open spec fn avail_cells(g: Grid) -> Set<(usize, usize)> {
    Set::new(|c: (usize, usize)| stored_state(g, c.0, c.1) == Some(FieldCellState::Avail))
}

/// There are finitely many cells: both coordinates are bounded.
pub proof fn lemma_cells_finite()
    ensures
        Set::<(usize, usize)>::full().finite(),
{
    broadcast use vstd::set_lib::full_set_properties;

    let width: int = usize::MAX + 1;
    let cell_of = |i: u128| ((i % (width as u128)) as usize, (i / (width as u128)) as usize);
    let codes = Set::<u128>::full();
    codes.lemma_map_finite(cell_of);
    assert forall|c: (usize, usize)| codes.map(cell_of).contains(c) by {
        // The cell `(x, y)` has the code `x + y * width`.
        let i: u128 = (c.0 + c.1 * width) as u128;
        assert(codes.contains(i));
    }
    assert(codes.map(cell_of) =~= Set::<(usize, usize)>::full());
}

/// A cell that was never written has the state that the rule gives it, which
/// depends on the coordinates alone and is never `Avail`.
pub proof fn lemma_unwritten_cell(g: Grid, x: usize, y: usize)
    requires
        stored_state(g, x, y) is None,
    ensures
        cell_state(g, x, y) == rule_state(x, y),
        cell_state(g, x, y) != FieldCellState::Avail,
{
}

/// A cell reads as `Avail` exactly when `Avail` was written there.
pub proof fn lemma_avail_is_written(g: Grid, x: usize, y: usize)
    ensures
        cell_state(g, x, y) == FieldCellState::Avail <==> avail_cells(g).contains((x, y)),
{
}

/// A write followed by a read of the same cell gives the written state,
/// whatever the rule says of that cell.
pub proof fn lemma_read_after_write(g: Grid, x: usize, y: usize, v: FieldCellState)
    ensures
        stored_state(with_cell(g, x, y, v), x, y) == Some(v),
        cell_state(with_cell(g, x, y, v), x, y) == v,
{
}

/// A write changes no cell but the one written, and adds at most that cell to
/// the store.
pub proof fn lemma_write_keeps_others(g: Grid, x: usize, y: usize, v: FieldCellState)
    ensures
        forall|ox: usize, oy: usize|
            (ox, oy) != (x, y) ==> #[trigger] stored_state(with_cell(g, x, y, v), ox, oy)
                == stored_state(g, ox, oy),
        stored_cells(with_cell(g, x, y, v)) == stored_cells(g).insert((x, y)),
{
    assert forall|c: (usize, usize)|
        stored_cells(with_cell(g, x, y, v)).contains(c) <==> stored_cells(g).insert(
            (x, y),
        ).contains(c) by {}
}

/// Classifies `(x, y)` by the rule alone.
pub fn calc_field_cell_state(x: usize, y: usize) -> (state: FieldCellState)
    ensures
        state == rule_state(x, y),
{
    if get_digits_sum(x) + get_digits_sum(y) > OBSTACLE_THRESHOLD {
        FieldCellState::Obstacle
    } else {
        FieldCellState::Clear
    }
}

/// Looks `(x, y)` up in the store: the state written there, or `None` where
/// none was. Only here is an unwritten cell told from a clear one.
fn stored_cell_state(
    field: &FieldSparseMatrix,
    x: usize,
    y: usize,
) -> (stored: Option<FieldCellState>)
    ensures
        stored == stored_state(grid_of(field), x, y),
{
    match field.get(&y) {
        Some(row) => match row.get(&x) {
            Some(state) => Some(*state),
            None => None,
        },
        None => None,
    }
}

/// Reads the state of `(x, y)`.
///
/// A cell that was never written is classified by the rule; the answer is not
/// kept, so the store is the same after the call as before it.
pub fn get_cell_state(field: &FieldSparseMatrix, x: usize, y: usize) -> (state: FieldCellState)
    ensures
        state == cell_state(grid_of(field), x, y),
        stored_state(grid_of(field), x, y) is None ==> state == rule_state(x, y),
{
    match stored_cell_state(field, x, y) {
        Some(state) => state,
        None => calc_field_cell_state(x, y),
    }
}

/// Writes `v` at `(x, y)`, whatever was there before.
///
/// The store grows by the cell `(x, y)` if nothing was written there yet, and
/// no other cell changes.
pub fn set_cell_state(field: &mut FieldSparseMatrix, x: usize, y: usize, v: FieldCellState)
    ensures
        grid_of(final(field)) == with_cell(grid_of(old(field)), x, y, v),
        final(field)@.dom() == old(field)@.dom().insert(y),
        cell_state(grid_of(final(field)), x, y) == v,
        stored_cells(grid_of(final(field))) == stored_cells(grid_of(old(field))).insert((x, y)),
{
    let row = field.entry(y).or_insert(HashMap::new());
    row.insert(x, v);
    proof {
        lemma_write_keeps_others(grid_of(old(field)), x, y, v);
    }
}

} // verus!
