//! The flood fill: a traversal that visits cells from a list of pending
//! cells and marks every clear cell that it reaches.

use crate::field::{
    avail_cells, cell_state, get_cell_state, grid_of, lemma_cells_finite, set_cell_state,
    stored_cells, with_cell, FieldCellState, FieldSparseMatrix, Grid,
};
use crate::reach::{
    adjacent, is_clear_walk, lemma_marked_grid_cells, lemma_marked_grid_state,
    lemma_reachable_start, lemma_reachable_step, marked_grid, reach_set, reachable, state_at,
};
use vstd::prelude::*;

verus! {

/// The cells next to `(x, y)` that lie on the grid, in the order in which a
/// visit puts them on the list of pending cells.
pub open spec fn neighbours(x: usize, y: usize) -> Seq<(usize, usize)> {
    (if x < usize::MAX {
        seq![((x + 1) as usize, y)]
    } else {
        seq![]
    }) + (if x > 0 {
        seq![((x - 1) as usize, y)]
    } else {
        seq![]
    }) + (if y > 0 {
        seq![(x, (y - 1) as usize)]
    } else {
        seq![]
    }) + (if y < usize::MAX {
        seq![(x, (y + 1) as usize)]
    } else {
        seq![]
    })
}

/// Every cell adjacent to `(x, y)` is among its neighbours, and only those are.
pub proof fn lemma_neighbours(x: usize, y: usize, n: (usize, usize))
    ensures
        neighbours(x, y).contains(n) <==> adjacent((x, y), n),
{
    let s = neighbours(x, y);
    if adjacent((x, y), n) {
        if n.1 == y && n.0 == x + 1 {
            assert(s[0] == n);
        } else if n.1 == y && n.0 + 1 == x {
            let i = if x < usize::MAX { 1int } else { 0int };
            assert(s[i] == n);
        } else if n.0 == x && n.1 + 1 == y {
            let i = (if x < usize::MAX { 1int } else { 0int }) + (if x > 0 { 1int } else { 0int });
            assert(s[i] == n);
        } else {
            assert(s[s.len() - 1] == n);
        }
    }
}

/// A set of cells that holds the start of a walk, and with each of its cells
/// the clear cells adjacent to it, holds the whole walk.
proof fn lemma_walk_inside(g: Grid, region: Set<(usize, usize)>, walk: Seq<(usize, usize)>, i: int)
    requires
        is_clear_walk(g, walk),
        region.contains(walk[0]),
        0 <= i < walk.len(),
        forall|m: (usize, usize), n: (usize, usize)|
            region.contains(m) && #[trigger] adjacent(m, n) && state_at(g, n)
                == FieldCellState::Clear ==> region.contains(n),
    ensures
        region.contains(walk[i]),
    decreases i,
{
    if i > 0 {
        lemma_walk_inside(g, region, walk, i - 1);
    }
}

/// What holds between the steps of a traversal of `g0` from `start`, where
/// `marked` are the cells marked so far, `pending` the cells still to visit
/// and `cur` the grid as it stands.
spec fn traversal_inv(
    g0: Grid,
    start: (usize, usize),
    marked: Set<(usize, usize)>,
    pending: Seq<(usize, usize)>,
    cur: Grid,
) -> bool {
    &&& cur == marked_grid(g0, marked)
    &&& forall|c: (usize, usize)| marked.contains(c) ==> reachable(g0, start, c)
    &&& forall|i: int|
        0 <= i < pending.len() && state_at(g0, #[trigger] pending[i]) == FieldCellState::Clear
            ==> reachable(g0, start, pending[i])
    &&& forall|m: (usize, usize), n: (usize, usize)|
        marked.contains(m) && #[trigger] adjacent(m, n) ==> state_at(cur, n)
            != FieldCellState::Clear || pending.contains(n)
    &&& state_at(cur, start) != FieldCellState::Clear || pending.contains(start)
}

/// The invariant holds before the first step.
proof fn lemma_traversal_start(g0: Grid, start: (usize, usize))
    ensures
        traversal_inv(g0, start, Set::empty(), seq![start], g0),
{
    assert(g0 =~~= marked_grid(g0, Set::empty()));
    lemma_reachable_start(g0, start);
    assert(seq![start][0] == start);
}

/// A step that finds its cell not clear takes it off the list and changes
/// nothing else.
proof fn lemma_traversal_skip(
    g0: Grid,
    start: (usize, usize),
    marked: Set<(usize, usize)>,
    pending: Seq<(usize, usize)>,
    cur: Grid,
)
    requires
        traversal_inv(g0, start, marked, pending, cur),
        pending.len() > 0,
        state_at(cur, pending.last()) != FieldCellState::Clear,
    ensures
        traversal_inv(g0, start, marked, pending.drop_last(), cur),
{
    let rest = pending.drop_last();
    assert forall|n: (usize, usize)|
        pending.contains(n) && state_at(cur, n) == FieldCellState::Clear implies rest.contains(
        n,
    ) by {
        let i = choose|i: int| 0 <= i < pending.len() && pending[i] == n;
        assert(rest[i] == n);
    }
    assert forall|i: int|
        0 <= i < rest.len() && state_at(g0, #[trigger] rest[i])
            == FieldCellState::Clear implies reachable(g0, start, rest[i]) by {
        assert(rest[i] == pending[i]);
    }
}

/// A step that finds its cell clear marks it and puts its neighbours on the
/// list.
proof fn lemma_traversal_mark(
    g0: Grid,
    start: (usize, usize),
    marked: Set<(usize, usize)>,
    pending: Seq<(usize, usize)>,
    cur: Grid,
)
    requires
        traversal_inv(g0, start, marked, pending, cur),
        pending.len() > 0,
        state_at(cur, pending.last()) == FieldCellState::Clear,
    ensures
        !marked.contains(pending.last()),
        traversal_inv(
            g0,
            start,
            marked.insert(pending.last()),
            pending.drop_last() + neighbours(pending.last().0, pending.last().1),
            with_cell(cur, pending.last().0, pending.last().1, FieldCellState::Avail),
        ),
{
    let c = pending.last();
    let rest = pending.drop_last();
    let near = neighbours(c.0, c.1);
    let pending2 = rest + near;
    let marked2 = marked.insert(c);
    let cur2 = with_cell(cur, c.0, c.1, FieldCellState::Avail);

    lemma_marked_grid_state(g0, marked, c);

    assert(cur2 =~~= marked_grid(g0, marked2)) by {
        lemma_with_cell_marks(g0, marked, c);
    }

    assert forall|n: (usize, usize)| #[trigger] state_at(cur2, n) == if n == c {
        FieldCellState::Avail
    } else {
        state_at(cur, n)
    } by {
        lemma_marked_grid_state(g0, marked2, n);
        lemma_marked_grid_state(g0, marked, n);
    }

    assert forall|i: int|
        0 <= i < pending2.len() && state_at(g0, #[trigger] pending2[i])
            == FieldCellState::Clear implies reachable(g0, start, pending2[i]) by {
        if i < rest.len() {
            assert(pending2[i] == pending[i]);
        } else {
            assert(pending2[i] == near[i - rest.len()]);
            lemma_neighbours(c.0, c.1, pending2[i]);
            lemma_reachable_step(g0, start, c, pending2[i]);
        }
    }

    assert forall|n: (usize, usize)|
        pending.contains(n) && n != c implies pending2.contains(n) by {
        let i = choose|i: int| 0 <= i < pending.len() && pending[i] == n;
        assert(pending2[i] == n);
    }

    assert forall|m: (usize, usize), n: (usize, usize)|
        marked2.contains(m) && #[trigger] adjacent(m, n) implies state_at(cur2, n)
        != FieldCellState::Clear || pending2.contains(n) by {
        if m == c {
            lemma_neighbours(c.0, c.1, n);
            let i = choose|i: int| 0 <= i < near.len() && near[i] == n;
            assert(pending2[rest.len() + i] == n);
        } else {
            assert(state_at(cur2, n) == if n == c {
                FieldCellState::Avail
            } else {
                state_at(cur, n)
            });
        }
    }
    assert(state_at(cur2, start) == if start == c {
        FieldCellState::Avail
    } else {
        state_at(cur, start)
    });
}

/// Writing `Avail` at `c` into a marked grid marks `c` as well.
proof fn lemma_with_cell_marks(g: Grid, region: Set<(usize, usize)>, c: (usize, usize))
    ensures
        with_cell(marked_grid(g, region), c.0, c.1, FieldCellState::Avail) == marked_grid(
            g,
            region.insert(c),
        ),
{
    let before = marked_grid(g, region);
    let left = with_cell(before, c.0, c.1, FieldCellState::Avail);
    let right = marked_grid(g, region.insert(c));
    assert forall|y: usize| left.contains_key(y) <==> right.contains_key(y) by {
        if y == c.1 {
            assert(region.insert(c).contains((c.0, y)));
        } else {
            if exists|x: usize| region.contains((x, y)) {
                let x = choose|x: usize| region.contains((x, y));
                assert(region.insert(c).contains((x, y)));
            }
            if exists|x: usize| region.insert(c).contains((x, y)) {
                let x = choose|x: usize| region.insert(c).contains((x, y));
                assert(region.contains((x, y)));
            }
        }
    }
    assert forall|y: usize| left.contains_key(y) implies #[trigger] left[y] =~= right[y] by {
        if y != c.1 {
            assert(left[y] == before[y]);
        }
    }
}

/// Once nothing is pending, exactly the cells reachable from the start are
/// marked.
proof fn lemma_traversal_done(
    g0: Grid,
    start: (usize, usize),
    marked: Set<(usize, usize)>,
    cur: Grid,
)
    requires
        traversal_inv(g0, start, marked, Seq::empty(), cur),
    ensures
        marked == reach_set(g0, start),
        cur == marked_grid(g0, reach_set(g0, start)),
{
    assert forall|m: (usize, usize), n: (usize, usize)|
        marked.contains(m) && #[trigger] adjacent(m, n) && state_at(g0, n)
            == FieldCellState::Clear implies marked.contains(n) by {
        lemma_marked_grid_state(g0, marked, n);
    }
    assert forall|c: (usize, usize)| reachable(g0, start, c) implies marked.contains(c) by {
        let walk = choose|walk: Seq<(usize, usize)>|
            #[trigger] is_clear_walk(g0, walk) && walk[0] == start && walk.last() == c;
        lemma_marked_grid_state(g0, marked, start);
        lemma_walk_inside(g0, marked, walk, walk.len() - 1);
    }
}

/// One step of a traversal: the visit of `(x, y)`.
///
/// A cell that is not clear, an obstacle or a cell marked before, ends its
/// branch: nothing changes. A clear cell is marked `Avail`, and its neighbours
/// on the grid are added to `pending`. No other cell changes, so a step never
/// takes a mark away.
pub fn visit_cell(
    field: &mut FieldSparseMatrix,
    pending: &mut Vec<(usize, usize)>,
    x: usize,
    y: usize,
)
    ensures
        cell_state(grid_of(old(field)), x, y) != FieldCellState::Clear ==> {
            &&& grid_of(final(field)) == grid_of(old(field))
            &&& final(pending)@ == old(pending)@
        },
        cell_state(grid_of(old(field)), x, y) == FieldCellState::Clear ==> {
            &&& grid_of(final(field)) == with_cell(
                grid_of(old(field)),
                x,
                y,
                FieldCellState::Avail,
            )
            &&& final(pending)@ == old(pending)@ + neighbours(x, y)
        },
        forall|cx: usize, cy: usize|
            cell_state(grid_of(old(field)), cx, cy) != FieldCellState::Clear
                ==> #[trigger] cell_state(grid_of(final(field)), cx, cy)
                == cell_state(grid_of(old(field)), cx, cy),
{
    if get_cell_state(field, x, y) != FieldCellState::Clear {
        return;
    }
    set_cell_state(field, x, y, FieldCellState::Avail);
    if x < usize::MAX {
        pending.push((x + 1, y));
    }
    if x > 0 {
        pending.push((x - 1, y));
    }
    if y > 0 {
        pending.push((x, y - 1));
    }
    if y < usize::MAX {
        pending.push((x, y + 1));
    }
}

/// Marks as `Avail` every cell that can be reached from `(x, y)` by steps
/// along the axes through clear cells, and changes nothing else.
///
/// The cells are visited from a list of pending cells, so the depth of the
/// call stack does not grow with the size of the region.
pub fn mark_cells_avail_for_ant(field: &mut FieldSparseMatrix, x: usize, y: usize)
    ensures
        grid_of(final(field)) == marked_grid(
            grid_of(old(field)),
            reach_set(grid_of(old(field)), (x, y)),
        ),
        forall|cx: usize, cy: usize| #[trigger]
            cell_state(grid_of(final(field)), cx, cy) == if reachable(
                grid_of(old(field)),
                (x, y),
                (cx, cy),
            ) {
                FieldCellState::Avail
            } else {
                cell_state(grid_of(old(field)), cx, cy)
            },
        avail_cells(grid_of(final(field))) == avail_cells(grid_of(old(field))) + reach_set(
            grid_of(old(field)),
            (x, y),
        ),
        stored_cells(grid_of(final(field))) == stored_cells(grid_of(old(field))) + reach_set(
            grid_of(old(field)),
            (x, y),
        ),
{
    let ghost g0 = grid_of(field);
    let ghost start = (x, y);
    let ghost mut marked = Set::<(usize, usize)>::empty();
    let mut pending: Vec<(usize, usize)> = Vec::new();
    pending.push((x, y));
    proof {
        lemma_traversal_start(g0, start);
        lemma_cells_finite();
    }
    while pending.len() > 0
        invariant
            traversal_inv(g0, start, marked, pending@, grid_of(field)),
            Set::<(usize, usize)>::full().finite(),
        decreases Set::<(usize, usize)>::full().len() - marked.len(), pending.len(),
    {
        let ghost before = pending@;
        let ghost cur = grid_of(field);
        let (cx, cy) = pending.pop().unwrap();
        proof {
            vstd::set_lib::lemma_len_subset(marked, Set::<(usize, usize)>::full());
            if state_at(cur, (cx, cy)) == FieldCellState::Clear {
                lemma_traversal_mark(g0, start, marked, before, cur);
                vstd::set_lib::lemma_len_subset(
                    marked.insert((cx, cy)),
                    Set::<(usize, usize)>::full(),
                );
            } else {
                lemma_traversal_skip(g0, start, marked, before, cur);
            }
        }
        visit_cell(field, &mut pending, cx, cy);
        proof {
            if state_at(cur, (cx, cy)) == FieldCellState::Clear {
                marked = marked.insert((cx, cy));
            }
        }
    }
    proof {
        lemma_traversal_done(g0, start, marked, grid_of(field));
        lemma_marked_grid_cells(g0, reach_set(g0, start));
        assert forall|cx: usize, cy: usize| #[trigger]
            cell_state(grid_of(field), cx, cy) == if reachable(g0, (x, y), (cx, cy)) {
                FieldCellState::Avail
            } else {
                cell_state(g0, cx, cy)
            } by {
            lemma_marked_grid_state(g0, reach_set(g0, start), (cx, cy));
        }
    }
}

} // verus!
