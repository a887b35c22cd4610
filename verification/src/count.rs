//! Counting the marked cells of a store.

use crate::field::{
    avail_cells, grid_of, lemma_cells_finite, FieldCellState, FieldSparseMatrix, Grid,
};
use std::collections::HashMap;
use vstd::prelude::*;
use vstd::std_specs::hash::spec_hash_map_iter;
use vstd::std_specs::iter::IteratorSpec;

verus! {

broadcast use vstd::std_specs::hash::group_hash_axioms;

/// The columns at which `row` holds `Avail`.
pub open spec fn avail_in_row(row: Map<usize, FieldCellState>) -> Set<usize> {
    Set::new(|x: usize| row.contains_key(x) && row[x] == FieldCellState::Avail)
}

/// The columns among `cols` at which `row` holds `Avail`.
spec fn avail_among(row: Map<usize, FieldCellState>, cols: Set<usize>) -> Set<usize> {
    Set::new(|x: usize| cols.contains(x) && avail_in_row(row).contains(x))
}

/// The cells in the rows `ys` at which `g` holds `Avail`.
spec fn avail_in_rows(g: Grid, ys: Set<usize>) -> Set<(usize, usize)> {
    Set::new(|c: (usize, usize)| ys.contains(c.1) && avail_cells(g).contains(c))
}

/// Taking one more column into account adds at most that column.
proof fn lemma_avail_among_insert(row: Map<usize, FieldCellState>, cols: Set<usize>, x: usize)
    requires
        row.dom().finite(),
        !cols.contains(x),
    ensures
        avail_among(row, cols).finite(),
        avail_among(row, cols.insert(x)).len() == avail_among(row, cols).len() + (if row.contains_key(
            x,
        ) && row[x] == FieldCellState::Avail {
            1nat
        } else {
            0nat
        }),
{
    vstd::set_lib::lemma_len_subset(avail_among(row, cols), row.dom());
    if row.contains_key(x) && row[x] == FieldCellState::Avail {
        assert(avail_among(row, cols.insert(x)) =~= avail_among(row, cols).insert(x));
    } else {
        assert(avail_among(row, cols.insert(x)) =~= avail_among(row, cols));
    }
}

/// Taking one more row into account adds the marked cells of that row.
proof fn lemma_avail_in_rows_insert(g: Grid, ys: Set<usize>, y: usize)
    requires
        !ys.contains(y),
        g.contains_key(y),
        g[y].dom().finite(),
    ensures
        avail_in_rows(g, ys).finite(),
        avail_in_rows(g, ys.insert(y)).len() == avail_in_rows(g, ys).len() + avail_in_row(
            g[y],
        ).len(),
{
    let before = avail_in_rows(g, ys);
    let after = avail_in_rows(g, ys.insert(y));
    let in_row = avail_in_row(g[y]);
    let at_row = |x: usize| (x, y);
    let strip = in_row.map(at_row);
    lemma_cells_finite();
    vstd::set_lib::lemma_len_subset(before, Set::<(usize, usize)>::full());
    vstd::set_lib::lemma_len_subset(in_row, g[y].dom());
    vstd::set_lib::lemma_map_size(in_row, strip, at_row);
    assert forall|c: (usize, usize)| after.contains(c) <==> before.contains(c) || strip.contains(
        c,
    ) by {
        if after.contains(c) && !before.contains(c) {
            assert(in_row.contains(c.0));
        }
    }
    assert(after =~= before.union(strip));
    assert(before.disjoint(strip));
    vstd::set_lib::lemma_set_disjoint_lens(before, strip);
}

/// The number of columns at which `row` holds `Avail`.
fn count_avail_in_row(row: &HashMap<usize, FieldCellState>) -> (count: usize)
    ensures
        count == avail_in_row(row@).len(),
{
    let mut count: usize = 0;
    let ghost mut seen = Set::<usize>::empty();
    proof {
        assert(avail_among(row@, seen) =~= Set::empty());
    }
    for (x, cell) in it: row.iter()
        invariant
            it.seq() == spec_hash_map_iter(row).remaining(),
            it.seq().no_duplicates(),
            it.seq().len() == row@.len() == row.len(),
            forall|j: int| 0 <= j < it.index() ==> seen.contains(*(#[trigger] it.seq()[j]).0),
            forall|j: int|
                it.index() <= j < it.seq().len() ==> !seen.contains(*(#[trigger] it.seq()[j]).0),
            count == avail_among(row@, seen).len(),
            count <= it.index(),
    {
        proof {
            let pairs = it.seq();
            let i = it.index();
            lemma_avail_among_insert(row@, seen, *x);
            // No pair comes twice, and a column has one state: no column comes twice.
            assert forall|j: int| i < j < pairs.len() implies *(#[trigger] pairs[j]).0 != *x by {}
            seen = seen.insert(*x);
        }
        if *cell == FieldCellState::Avail {
            count = count + 1;
        }
    }
    proof {
        let pairs = spec_hash_map_iter(row).remaining();
        assert forall|x: usize| row@.contains_key(x) implies seen.contains(x) by {
            assert(pairs.contains((&x, &row@[x])));
        }
        assert(avail_among(row@, seen) =~= avail_in_row(row@));
    }
    count
}

/// The number of cells marked `Avail` in the whole store.
///
/// The count is exact for every store: a store has at most `usize::MAX` rows
/// of at most `usize::MAX` cells each, and the product of the two fits the
/// result.
pub fn count_cells_avail_for_ant(field: &FieldSparseMatrix) -> (count: u128)
    ensures
        count == avail_cells(grid_of(field)).len(),
{
    let mut count: u128 = 0;
    let ghost g = grid_of(field);
    let ghost mut seen = Set::<usize>::empty();
    proof {
        assert(avail_in_rows(g, seen) =~= Set::empty());
    }
    for (y, row) in it: field.iter()
        invariant
            g == grid_of(field),
            it.seq() == spec_hash_map_iter(field).remaining(),
            it.seq().no_duplicates(),
            it.seq().len() == field@.len() == field.len(),
            forall|j: int| 0 <= j < it.index() ==> seen.contains(*(#[trigger] it.seq()[j]).0),
            forall|j: int|
                it.index() <= j < it.seq().len() ==> !seen.contains(*(#[trigger] it.seq()[j]).0),
            count == avail_in_rows(g, seen).len(),
            count <= it.index() * usize::MAX,
    {
        let in_row = count_avail_in_row(row);
        proof {
            let pairs = it.seq();
            let i = it.index();
            lemma_avail_in_rows_insert(g, seen, *y);
            // No pair comes twice, and a row index has one row: no row comes twice.
            assert forall|j: int| i < j < pairs.len() implies *(#[trigger] pairs[j]).0 != *y by {}
            seen = seen.insert(*y);
            vstd::set_lib::lemma_len_subset(avail_in_row(row@), row@.dom());
            assert(count + in_row <= (i + 1) * usize::MAX) by (nonlinear_arith)
                requires
                    count <= i * usize::MAX,
                    in_row <= usize::MAX,
            ;
            assert((i + 1) * usize::MAX <= u128::MAX) by (nonlinear_arith)
                requires
                    0 <= i < usize::MAX,
                    usize::MAX <= 0xffff_ffff_ffff_ffff,
            ;
        }
        count = count + in_row as u128;
    }
    proof {
        let pairs = spec_hash_map_iter(field).remaining();
        assert forall|c: (usize, usize)| avail_cells(g).contains(c) implies seen.contains(c.1) by {
            assert(pairs.contains((&c.1, &field@[c.1])));
        }
        assert(avail_in_rows(g, seen) =~= avail_cells(g));
    }
    count
}

} // verus!
