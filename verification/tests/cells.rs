use std::collections::HashSet;
use sudoku::Cell;

fn set_of(values: &[u32]) -> HashSet<u32> {
    values.iter().copied().collect()
}

#[test]
fn an_undetermined_cell_is_empty_and_no_number() {
    let cell = Cell::Empty { candidates: set_of(&[1, 2, 3]) };
    assert!(cell.is_empty());
    assert!(!cell.is_number());
    assert_eq!(cell.number(), None);
    assert_eq!(cell.candidates(), Some(&set_of(&[1, 2, 3])));
}

#[test]
fn a_fixed_cell_is_a_number_and_has_no_candidates() {
    let cell = Cell::Number(7);
    assert!(cell.is_number());
    assert!(!cell.is_empty());
    assert_eq!(cell.number(), Some(7));
    assert_eq!(cell.candidates(), None);
}

#[test]
fn remove_candidate_strikes_one_value() {
    let mut cell = Cell::Empty { candidates: set_of(&[1, 2, 3]) };
    cell.remove_candidate(2);
    assert_eq!(cell, Cell::Empty { candidates: set_of(&[1, 3]) });
}

#[test]
fn remove_candidate_of_an_absent_value_changes_nothing() {
    let mut cell = Cell::Empty { candidates: set_of(&[1, 3]) };
    cell.remove_candidate(2);
    assert_eq!(cell, Cell::Empty { candidates: set_of(&[1, 3]) });
}

#[test]
fn remove_candidate_leaves_a_fixed_cell() {
    let mut cell = Cell::Number(2);
    cell.remove_candidate(2);
    assert_eq!(cell, Cell::Number(2));
}

#[test]
fn remove_candidate_can_empty_the_set() {
    let mut cell = Cell::Empty { candidates: set_of(&[4]) };
    cell.remove_candidate(4);
    assert_eq!(cell, Cell::Empty { candidates: HashSet::new() });
    assert!(cell.is_empty());
}

#[test]
fn set_number_discards_the_candidates() {
    let mut cell = Cell::Empty { candidates: set_of(&[1, 2]) };
    cell.set_number(9);
    assert_eq!(cell, Cell::Number(9));
}

#[test]
fn set_number_does_not_validate() {
    let mut cell = Cell::Number(1);
    cell.set_number(0);
    assert_eq!(cell.number(), Some(0));
}

#[test]
fn set_candidates_replaces_the_whole_set() {
    let mut cell = Cell::Empty { candidates: set_of(&[1, 2]) };
    cell.set_candidates(set_of(&[5, 6, 7]));
    assert_eq!(cell.candidates(), Some(&set_of(&[5, 6, 7])));
}

#[test]
fn set_candidates_makes_a_fixed_cell_undetermined() {
    let mut cell = Cell::Number(3);
    cell.set_candidates(set_of(&[3, 4]));
    assert!(cell.is_empty());
    assert_eq!(cell.candidates(), Some(&set_of(&[3, 4])));
}

#[test]
fn clone_copies_the_cell() {
    let cell = Cell::Empty { candidates: set_of(&[8, 2]) };
    let mut copy = cell.clone();
    assert_eq!(copy, cell);
    copy.remove_candidate(8);
    assert_eq!(cell.candidates(), Some(&set_of(&[2, 8])));
    assert_eq!(Cell::Number(5).clone(), Cell::Number(5));
}

#[test]
fn a_fixed_cell_renders_as_its_numeral() {
    assert_eq!(Cell::Number(0).render(), "0");
    assert_eq!(Cell::Number(7).render(), "7");
    assert_eq!(Cell::Number(10).render(), "10");
    assert_eq!(Cell::Number(16).render(), "16");
    assert_eq!(Cell::Number(4294967295).render(), "4294967295");
}

#[test]
fn an_undetermined_cell_renders_its_candidates_in_ascending_order() {
    let cell = Cell::Empty { candidates: set_of(&[12, 3, 1, 25, 9]) };
    assert_eq!(cell.render(), "[1,3,9,12,25]");
    assert_eq!(Cell::Empty { candidates: set_of(&[4]) }.render(), "[4]");
    assert_eq!(Cell::Empty { candidates: HashSet::new() }.render(), "[]");
}
