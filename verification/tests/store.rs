use ant25lib::{
    calc_field_cell_state, get_cell_state, get_digits_sum, set_cell_state, FieldCellState,
    FieldSparseMatrix,
};

#[test]
fn test_field_cell_state_set_and_get_fn() {
    let mut field = FieldSparseMatrix::new();

    assert_eq!(get_cell_state(&field, 10, 10), FieldCellState::Clear);
    assert_eq!(get_cell_state(&field, 101, 101), FieldCellState::Clear);
    assert_eq!(get_cell_state(&field, 1234, 4321), FieldCellState::Clear);
    assert_eq!(get_cell_state(&field, 999, 999), FieldCellState::Obstacle);

    set_cell_state(&mut field, 10, 10, FieldCellState::Obstacle);
    set_cell_state(&mut field, 101, 101, FieldCellState::Clear);
    set_cell_state(&mut field, 1234, 4321, FieldCellState::Avail);

    assert_eq!(field[&10][&10], FieldCellState::Obstacle);
    assert_eq!(field[&101][&101], FieldCellState::Clear);
    assert_eq!(field[&4321][&1234], FieldCellState::Avail);

    assert_eq!(get_cell_state(&field, 10, 10), FieldCellState::Obstacle);
    assert_eq!(get_cell_state(&field, 101, 101), FieldCellState::Clear);
    assert_eq!(get_cell_state(&field, 1234, 4321), FieldCellState::Avail);

    assert_eq!(field.len(), 3);
    for (_y, row) in field {
        assert_eq!(row.len(), 1);
    }
}

#[test]
fn digits_sum_of_zero_is_zero() {
    assert_eq!(get_digits_sum(0), 0);
}

#[test]
fn digits_sum_of_literal_cases() {
    assert_eq!(get_digits_sum(7), 7);
    assert_eq!(get_digits_sum(10), 1);
    assert_eq!(get_digits_sum(123), 6);
    assert_eq!(get_digits_sum(4321), 10);
    assert_eq!(get_digits_sum(999_999_999), 81);
    assert_eq!(get_digits_sum(1_000_000_000), 1);
}

#[test]
fn digits_sum_of_the_largest_coordinate() {
    if usize::BITS == 64 {
        assert_eq!(get_digits_sum(9_999_999_999_999_999_999), 171);
        assert_eq!(get_digits_sum(usize::MAX), 87);
    }
    if usize::BITS == 32 {
        assert_eq!(get_digits_sum(usize::MAX), 39);
    }
}

#[test]
fn rule_turns_at_the_threshold() {
    // 7 + 9 + 9 = 25 is still clear, 26 is not.
    assert_eq!(calc_field_cell_state(799, 0), FieldCellState::Clear);
    assert_eq!(calc_field_cell_state(0, 799), FieldCellState::Clear);
    assert_eq!(calc_field_cell_state(899, 0), FieldCellState::Obstacle);
    assert_eq!(calc_field_cell_state(799, 1), FieldCellState::Obstacle);
    assert_eq!(calc_field_cell_state(997, 0), FieldCellState::Clear);
    assert_eq!(calc_field_cell_state(997, 1), FieldCellState::Obstacle);
    assert_eq!(calc_field_cell_state(0, 0), FieldCellState::Clear);
    assert_eq!(calc_field_cell_state(1000, 1000), FieldCellState::Clear);
    assert_eq!(calc_field_cell_state(999, 999), FieldCellState::Obstacle);
}

#[test]
fn rule_never_gives_avail() {
    for y in 0..60 {
        for x in 0..60 {
            assert_ne!(calc_field_cell_state(x * 17, y * 23), FieldCellState::Avail);
        }
    }
}

#[test]
fn reading_does_not_grow_the_store() {
    let field = FieldSparseMatrix::new();
    for _ in 0..3 {
        assert_eq!(get_cell_state(&field, 42, 24), FieldCellState::Clear);
        assert_eq!(get_cell_state(&field, 9999, 9999), FieldCellState::Obstacle);
    }
    assert_eq!(field.len(), 0);
}

#[test]
fn unwritten_cell_reads_as_the_rule_in_any_store() {
    let empty = FieldSparseMatrix::new();
    let mut other = FieldSparseMatrix::new();
    set_cell_state(&mut other, 5, 5, FieldCellState::Avail);
    set_cell_state(&mut other, 899, 1, FieldCellState::Clear);
    for &(x, y) in [(0usize, 0usize), (5, 6), (6, 5), (899, 0), (899, 2), (12345, 54321)].iter() {
        assert_eq!(get_cell_state(&empty, x, y), calc_field_cell_state(x, y));
        assert_eq!(get_cell_state(&other, x, y), calc_field_cell_state(x, y));
    }
}

#[test]
fn written_state_overrides_the_rule() {
    let mut field = FieldSparseMatrix::new();
    assert_eq!(get_cell_state(&field, 999, 999), FieldCellState::Obstacle);
    set_cell_state(&mut field, 999, 999, FieldCellState::Clear);
    assert_eq!(get_cell_state(&field, 999, 999), FieldCellState::Clear);
    set_cell_state(&mut field, 1, 1, FieldCellState::Obstacle);
    assert_eq!(get_cell_state(&field, 1, 1), FieldCellState::Obstacle);
    set_cell_state(&mut field, 2, 1, FieldCellState::Avail);
    assert_eq!(get_cell_state(&field, 2, 1), FieldCellState::Avail);
}

#[test]
fn write_replaces_an_earlier_write() {
    let mut field = FieldSparseMatrix::new();
    set_cell_state(&mut field, 3, 4, FieldCellState::Avail);
    set_cell_state(&mut field, 3, 4, FieldCellState::Obstacle);
    assert_eq!(get_cell_state(&field, 3, 4), FieldCellState::Obstacle);
    assert_eq!(field.len(), 1);
    assert_eq!(field[&4].len(), 1);
}

#[test]
fn write_keeps_the_other_cells() {
    let mut field = FieldSparseMatrix::new();
    set_cell_state(&mut field, 3, 4, FieldCellState::Avail);
    set_cell_state(&mut field, 4, 4, FieldCellState::Obstacle);
    set_cell_state(&mut field, 3, 5, FieldCellState::Clear);
    assert_eq!(field.len(), 2);
    assert_eq!(field[&4].len(), 2);
    assert_eq!(field[&5].len(), 1);
    assert_eq!(get_cell_state(&field, 3, 4), FieldCellState::Avail);
    assert_eq!(get_cell_state(&field, 4, 4), FieldCellState::Obstacle);
    assert_eq!(get_cell_state(&field, 3, 5), FieldCellState::Clear);
    // The transposed cell was never written.
    assert_eq!(get_cell_state(&field, 4, 3), FieldCellState::Clear);
    assert!(!field.contains_key(&3));
}
