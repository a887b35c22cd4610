use ant25lib::{
    count_cells_avail_for_ant, get_cell_state, mark_cells_avail_for_ant, set_cell_state,
    visit_cell, FieldCellState, FieldSparseMatrix,
};

#[test]
fn test_mark_calc_cells_avail_for_ant() {
    let mut field = FieldSparseMatrix::new();

    let cage: [&str; 5] = [
        "XXXX**XXXX",
        "X********X",
        "X**X**X**X",
        "****X****X",
        "XXXXXXXXX ",
    ];

    for y in 0..5 {
        let row: Vec<char> = cage[y].chars().collect();
        for x in 0..10 {
            set_cell_state(
                &mut field,
                x,
                y,
                if row[x] == 'X' { FieldCellState::Obstacle } else { FieldCellState::Clear },
            )
        }
    }

    mark_cells_avail_for_ant(&mut field, 4, 2);

    let mut avail_cells_count = 0;

    for y in 0..5 {
        let row: Vec<char> = cage[y].chars().collect();
        for x in 0..10 {
            match field[&y][&x] {
                FieldCellState::Clear => assert_eq!(row[x], ' '),
                FieldCellState::Obstacle => assert_eq!(row[x], 'X'),
                FieldCellState::Avail => {
                    assert_eq!(row[x], '*');
                    avail_cells_count += 1;
                }
            }
        }
    }

    assert_eq!(count_cells_avail_for_ant(&field), avail_cells_count);
}

/// A store in which the cells `(0..side, 0..side)` are clear and fenced in by
/// obstacles on the two sides that do not lie on the edge of the grid.
fn fenced_corner(side: usize) -> FieldSparseMatrix {
    let mut field = FieldSparseMatrix::new();
    for i in 0..=side {
        set_cell_state(&mut field, side, i, FieldCellState::Obstacle);
        set_cell_state(&mut field, i, side, FieldCellState::Obstacle);
    }
    field
}

#[test]
fn corridor_along_the_edge_of_the_grid() {
    // Row 1 holds a corridor of three clear cells, walled in at x = 3 and from
    // the rows above and below; to its left the grid ends.
    let mut field = FieldSparseMatrix::new();
    for x in 0..=3 {
        set_cell_state(&mut field, x, 0, FieldCellState::Obstacle);
        set_cell_state(&mut field, x, 2, FieldCellState::Obstacle);
    }
    set_cell_state(&mut field, 3, 1, FieldCellState::Obstacle);
    mark_cells_avail_for_ant(&mut field, 1, 1);
    assert_eq!(count_cells_avail_for_ant(&field), 3);
    assert_eq!(get_cell_state(&field, 0, 1), FieldCellState::Avail);
    assert_eq!(get_cell_state(&field, 1, 1), FieldCellState::Avail);
    assert_eq!(get_cell_state(&field, 2, 1), FieldCellState::Avail);
    assert_eq!(get_cell_state(&field, 3, 1), FieldCellState::Obstacle);
    // Clear, but out of reach.
    assert_eq!(get_cell_state(&field, 4, 1), FieldCellState::Clear);
    assert_eq!(get_cell_state(&field, 1, 3), FieldCellState::Clear);
}

#[test]
fn traversal_from_the_origin_stays_on_the_grid() {
    let mut field = fenced_corner(3);
    mark_cells_avail_for_ant(&mut field, 0, 0);
    for y in 0..3 {
        for x in 0..3 {
            assert_eq!(get_cell_state(&field, x, y), FieldCellState::Avail);
        }
    }
    for i in 0..=3 {
        assert_eq!(get_cell_state(&field, 3, i), FieldCellState::Obstacle);
        assert_eq!(get_cell_state(&field, i, 3), FieldCellState::Obstacle);
    }
    assert_eq!(count_cells_avail_for_ant(&field), 9);
}

#[test]
fn traversal_of_a_single_cell_at_the_origin() {
    let mut field = fenced_corner(1);
    mark_cells_avail_for_ant(&mut field, 0, 0);
    assert_eq!(get_cell_state(&field, 0, 0), FieldCellState::Avail);
    assert_eq!(count_cells_avail_for_ant(&field), 1);
}

#[test]
fn traversal_at_the_far_corner_stays_on_the_grid() {
    let far = usize::MAX;
    let mut field = FieldSparseMatrix::new();
    // By the rule the far corner and all around it are obstacles.
    assert_eq!(get_cell_state(&field, far, far), FieldCellState::Obstacle);
    set_cell_state(&mut field, far, far, FieldCellState::Clear);
    set_cell_state(&mut field, far - 1, far, FieldCellState::Clear);
    mark_cells_avail_for_ant(&mut field, far, far);
    assert_eq!(get_cell_state(&field, far, far), FieldCellState::Avail);
    assert_eq!(get_cell_state(&field, far - 1, far), FieldCellState::Avail);
    assert_eq!(get_cell_state(&field, far, far - 1), FieldCellState::Obstacle);
    assert_eq!(get_cell_state(&field, far - 2, far), FieldCellState::Obstacle);
    assert_eq!(count_cells_avail_for_ant(&field), 2);
}

#[test]
fn traversal_from_an_obstacle_changes_nothing() {
    let mut field = FieldSparseMatrix::new();
    mark_cells_avail_for_ant(&mut field, 999, 999);
    assert_eq!(field.len(), 0);
    assert_eq!(count_cells_avail_for_ant(&field), 0);

    set_cell_state(&mut field, 5, 5, FieldCellState::Obstacle);
    mark_cells_avail_for_ant(&mut field, 5, 5);
    assert_eq!(field.len(), 1);
    assert_eq!(field[&5].len(), 1);
    assert_eq!(get_cell_state(&field, 5, 5), FieldCellState::Obstacle);
    assert_eq!(get_cell_state(&field, 5, 6), FieldCellState::Clear);
    assert_eq!(count_cells_avail_for_ant(&field), 0);
}

#[test]
fn traversal_from_a_marked_cell_changes_nothing() {
    let mut field = FieldSparseMatrix::new();
    set_cell_state(&mut field, 5, 5, FieldCellState::Avail);
    mark_cells_avail_for_ant(&mut field, 5, 5);
    assert_eq!(field.len(), 1);
    assert_eq!(field[&5].len(), 1);
    assert_eq!(count_cells_avail_for_ant(&field), 1);
    assert_eq!(get_cell_state(&field, 4, 5), FieldCellState::Clear);
}

#[test]
fn marks_stay_through_later_traversals() {
    let mut field = fenced_corner(4);
    // A wall splits the corner into two rooms: columns 0..2 and column 3.
    for y in 0..4 {
        set_cell_state(&mut field, 2, y, FieldCellState::Obstacle);
    }
    mark_cells_avail_for_ant(&mut field, 0, 0);
    assert_eq!(count_cells_avail_for_ant(&field), 8);
    let after_first = field.clone();

    // The same seed again: it is marked now, so nothing moves.
    mark_cells_avail_for_ant(&mut field, 0, 0);
    assert_eq!(field, after_first);

    // Another seed: the other room is added, the first one keeps its marks.
    mark_cells_avail_for_ant(&mut field, 3, 3);
    assert_eq!(count_cells_avail_for_ant(&field), 12);
    for y in 0..4 {
        assert_eq!(get_cell_state(&field, 0, y), FieldCellState::Avail);
        assert_eq!(get_cell_state(&field, 1, y), FieldCellState::Avail);
        assert_eq!(get_cell_state(&field, 2, y), FieldCellState::Obstacle);
        assert_eq!(get_cell_state(&field, 3, y), FieldCellState::Avail);
    }
}

#[test]
fn store_grows_by_the_marked_cells_only() {
    let mut field = FieldSparseMatrix::new();
    // A room of 2 by 3 cells in the middle of nowhere, walled by written obstacles.
    for x in 100..=103 {
        set_cell_state(&mut field, x, 200, FieldCellState::Obstacle);
        set_cell_state(&mut field, x, 204, FieldCellState::Obstacle);
    }
    for y in 201..=203 {
        set_cell_state(&mut field, 100, y, FieldCellState::Obstacle);
        set_cell_state(&mut field, 103, y, FieldCellState::Obstacle);
    }
    let written_before: usize = field.values().map(|row| row.len()).sum();
    assert_eq!(written_before, 14);
    mark_cells_avail_for_ant(&mut field, 101, 202);
    let written_after: usize = field.values().map(|row| row.len()).sum();
    assert_eq!(written_after, 14 + 6);
    assert_eq!(count_cells_avail_for_ant(&field), 6);
}

#[test]
fn region_of_the_rule_from_the_default_seed() {
    let mut field = FieldSparseMatrix::new();
    mark_cells_avail_for_ant(&mut field, 1000, 1000);
    assert_eq!(count_cells_avail_for_ant(&field), 148848);
    assert_eq!(get_cell_state(&field, 1000, 1000), FieldCellState::Avail);
    assert_eq!(get_cell_state(&field, 999, 999), FieldCellState::Obstacle);
}

#[test]
fn visit_of_a_clear_cell_marks_it_and_lists_its_neighbours() {
    let mut field = FieldSparseMatrix::new();
    let mut pending = vec![(9usize, 9usize)];
    visit_cell(&mut field, &mut pending, 5, 7);
    assert_eq!(get_cell_state(&field, 5, 7), FieldCellState::Avail);
    assert_eq!(pending, vec![(9, 9), (6, 7), (4, 7), (5, 6), (5, 8)]);
    assert_eq!(field.len(), 1);
    assert_eq!(field[&7].len(), 1);
}

#[test]
fn visit_at_the_edges_lists_only_cells_of_the_grid() {
    let mut field = FieldSparseMatrix::new();
    let mut pending = Vec::new();
    visit_cell(&mut field, &mut pending, 0, 0);
    assert_eq!(pending, vec![(1, 0), (0, 1)]);

    let far = usize::MAX;
    set_cell_state(&mut field, far, far, FieldCellState::Clear);
    let mut pending = Vec::new();
    visit_cell(&mut field, &mut pending, far, far);
    assert_eq!(pending, vec![(far - 1, far), (far, far - 1)]);
    assert_eq!(get_cell_state(&field, far, far), FieldCellState::Avail);

    set_cell_state(&mut field, 0, far, FieldCellState::Clear);
    let mut pending = Vec::new();
    visit_cell(&mut field, &mut pending, 0, far);
    assert_eq!(pending, vec![(1, far), (0, far - 1)]);
}

#[test]
fn visit_of_a_blocked_cell_changes_nothing() {
    let mut field = FieldSparseMatrix::new();
    set_cell_state(&mut field, 5, 7, FieldCellState::Avail);
    set_cell_state(&mut field, 6, 7, FieldCellState::Obstacle);
    let before = field.clone();
    let mut pending = vec![(1usize, 2usize)];
    visit_cell(&mut field, &mut pending, 5, 7);
    visit_cell(&mut field, &mut pending, 6, 7);
    visit_cell(&mut field, &mut pending, 999, 999);
    assert_eq!(field, before);
    assert_eq!(pending, vec![(1, 2)]);
}

#[test]
fn count_ignores_cells_that_are_not_marked() {
    let mut field = FieldSparseMatrix::new();
    assert_eq!(count_cells_avail_for_ant(&field), 0);
    set_cell_state(&mut field, 1, 1, FieldCellState::Clear);
    set_cell_state(&mut field, 2, 1, FieldCellState::Obstacle);
    assert_eq!(count_cells_avail_for_ant(&field), 0);
    set_cell_state(&mut field, 3, 1, FieldCellState::Avail);
    set_cell_state(&mut field, 3, 2, FieldCellState::Avail);
    set_cell_state(&mut field, 4, 2, FieldCellState::Avail);
    set_cell_state(&mut field, 3, 9, FieldCellState::Avail);
    assert_eq!(count_cells_avail_for_ant(&field), 4);
    set_cell_state(&mut field, 3, 2, FieldCellState::Obstacle);
    assert_eq!(count_cells_avail_for_ant(&field), 3);
}
