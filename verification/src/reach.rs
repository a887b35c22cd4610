//! Reachability through clear cells, and what marking a region does to a grid.

use crate::field::{
    avail_cells, cell_state, lemma_cells_finite, row_of, stored_cells, stored_state,
    FieldCellState, Grid,
};
use vstd::prelude::*;

verus! {

/// Two cells are adjacent when they are one step apart along one axis.
pub open spec fn adjacent(a: (usize, usize), b: (usize, usize)) -> bool {
    ||| a.1 == b.1 && (a.0 + 1 == b.0 || b.0 + 1 == a.0)
    ||| a.0 == b.0 && (a.1 + 1 == b.1 || b.1 + 1 == a.1)
}

/// The state of cell `c` in `g`.
pub open spec fn state_at(g: Grid, c: (usize, usize)) -> FieldCellState {
    cell_state(g, c.0, c.1)
}

/// A walk is a non-empty sequence of cells, all of them clear in `g`, in which
/// each cell is adjacent to the one before it.
pub open spec fn is_clear_walk(g: Grid, walk: Seq<(usize, usize)>) -> bool {
    &&& walk.len() > 0
    &&& forall|i: int|
        0 <= i < walk.len() ==> state_at(g, #[trigger] walk[i]) == FieldCellState::Clear
    &&& forall|i: int, j: int|
        0 <= i && j == i + 1 && j < walk.len() ==> adjacent(#[trigger] walk[i], #[trigger] walk[j])
}

/// `c` can be reached from `start` by a walk through clear cells of `g`.
pub open spec fn reachable(g: Grid, start: (usize, usize), c: (usize, usize)) -> bool {
    exists|walk: Seq<(usize, usize)>|
        #[trigger] is_clear_walk(g, walk) && walk[0] == start && walk.last() == c
}

/// All cells that can be reached from `start` through clear cells of `g`.
pub open spec fn reach_set(g: Grid, start: (usize, usize)) -> Set<(usize, usize)> {
    Set::new(|c: (usize, usize)| reachable(g, start, c))
}

/// `g` after every cell of `region` was written as `Avail`: a row exists if it
/// existed before or holds a cell of the region, and nothing else changes.
pub open spec fn marked_grid(g: Grid, region: Set<(usize, usize)>) -> Grid {
    Map::new(
        |y: usize| g.contains_key(y) || exists|x: usize| region.contains((x, y)),
        |y: usize|
            Map::new(
                |x: usize| row_of(g, y).contains_key(x) || region.contains((x, y)),
                |x: usize|
                    if region.contains((x, y)) {
                        FieldCellState::Avail
                    } else {
                        row_of(g, y)[x]
                    },
            ),
    )
}

/// The state of a cell after a region was marked.
pub proof fn lemma_marked_grid_state(g: Grid, region: Set<(usize, usize)>, c: (usize, usize))
    ensures
        stored_state(marked_grid(g, region), c.0, c.1) == if region.contains(c) {
            Some(FieldCellState::Avail)
        } else {
            stored_state(g, c.0, c.1)
        },
        state_at(marked_grid(g, region), c) == if region.contains(c) {
            FieldCellState::Avail
        } else {
            state_at(g, c)
        },
{
}

/// A walk stays a walk when a clear cell adjacent to its end is added.
pub proof fn lemma_walk_extend(g: Grid, walk: Seq<(usize, usize)>, n: (usize, usize))
    requires
        is_clear_walk(g, walk),
        adjacent(walk.last(), n),
        state_at(g, n) == FieldCellState::Clear,
    ensures
        is_clear_walk(g, walk.push(n)),
        walk.push(n)[0] == walk[0],
        walk.push(n).last() == n,
{
    let longer = walk.push(n);
    assert forall|i: int| 0 <= i < longer.len() implies state_at(g, #[trigger] longer[i])
        == FieldCellState::Clear by {}
    assert forall|i: int, j: int| 0 <= i && j == i + 1 && j < longer.len() implies adjacent(
        #[trigger] longer[i],
        #[trigger] longer[j],
    ) by {}
}

/// A clear cell reaches itself, and a cell that is not clear reaches nothing.
pub proof fn lemma_reachable_start(g: Grid, start: (usize, usize))
    ensures
        state_at(g, start) == FieldCellState::Clear ==> reachable(g, start, start),
        state_at(g, start) != FieldCellState::Clear ==> forall|c: (usize, usize)|
            !reachable(g, start, c),
{
    if state_at(g, start) == FieldCellState::Clear {
        let walk = seq![start];
        assert(is_clear_walk(g, walk));
    }
}

/// A clear cell adjacent to a reachable cell is reachable, and every reachable
/// cell is clear.
pub proof fn lemma_reachable_step(
    g: Grid,
    start: (usize, usize),
    m: (usize, usize),
    n: (usize, usize),
)
    requires
        reachable(g, start, m),
    ensures
        state_at(g, m) == FieldCellState::Clear,
        adjacent(m, n) && state_at(g, n) == FieldCellState::Clear ==> reachable(g, start, n),
{
    let walk = choose|walk: Seq<(usize, usize)>|
        #[trigger] is_clear_walk(g, walk) && walk[0] == start && walk.last() == m;
    if adjacent(m, n) && state_at(g, n) == FieldCellState::Clear {
        lemma_walk_extend(g, walk, n);
    }
}

/// Marking a region adds its cells to the cells that hold `Avail`, and to the
/// cells that hold a written state, and takes none away.
pub proof fn lemma_marked_grid_cells(g: Grid, region: Set<(usize, usize)>)
    ensures
        avail_cells(marked_grid(g, region)) == avail_cells(g) + region,
        stored_cells(marked_grid(g, region)) == stored_cells(g) + region,
{
    let after = marked_grid(g, region);
    assert forall|c: (usize, usize)|
        (avail_cells(after).contains(c) <==> (avail_cells(g) + region).contains(c)) && (
        stored_cells(after).contains(c) <==> (stored_cells(g) + region).contains(c)) by {
        lemma_marked_grid_state(g, region, c);
    }
}

/// A traversal changes no cell that was not clear before it: a mark stays a
/// mark and an obstacle stays an obstacle.
pub proof fn lemma_traversal_keeps_marks(g: Grid, start: (usize, usize), c: (usize, usize))
    requires
        state_at(g, c) != FieldCellState::Clear,
    ensures
        !reachable(g, start, c),
        state_at(marked_grid(g, reach_set(g, start)), c) == state_at(g, c),
{
    if reachable(g, start, c) {
        lemma_reachable_step(g, start, c, c);
    }
    lemma_marked_grid_state(g, reach_set(g, start), c);
}

/// A second traversal from the same start finds nothing to mark: after the
/// first one the start is not clear, so the grid stays as it is.
pub proof fn lemma_traversal_again(g: Grid, start: (usize, usize))
    ensures
        reach_set(marked_grid(g, reach_set(g, start)), start) == Set::<(usize, usize)>::empty(),
        marked_grid(marked_grid(g, reach_set(g, start)), Set::empty()) == marked_grid(
            g,
            reach_set(g, start),
        ),
{
    let after = marked_grid(g, reach_set(g, start));
    lemma_reachable_start(g, start);
    lemma_marked_grid_state(g, reach_set(g, start), start);
    lemma_reachable_start(after, start);
    assert(marked_grid(after, Set::empty()) =~~= after);
}

/// The size of the region: a traversal from `start` raises the number of
/// marked cells by the number of cells reachable from `start`, which are the
/// cells that it visited and found clear.
pub proof fn lemma_region_size(g: Grid, start: (usize, usize))
    ensures
        reach_set(g, start).finite(),
        avail_cells(g).finite(),
        avail_cells(g).disjoint(reach_set(g, start)),
        avail_cells(marked_grid(g, reach_set(g, start))).len() == avail_cells(g).len() + reach_set(
            g,
            start,
        ).len(),
{
    let region = reach_set(g, start);
    lemma_cells_finite();
    vstd::set_lib::lemma_len_subset(region, Set::<(usize, usize)>::full());
    vstd::set_lib::lemma_len_subset(avail_cells(g), Set::<(usize, usize)>::full());
    assert forall|c: (usize, usize)| !(avail_cells(g).contains(c) && region.contains(c)) by {
        if region.contains(c) {
            lemma_reachable_step(g, start, c, c);
        }
    }
    lemma_marked_grid_cells(g, region);
    vstd::set_lib::lemma_set_disjoint_lens(avail_cells(g), region);
}

} // verus!
