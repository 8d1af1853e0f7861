use std::collections::HashSet;
use sudoku::{Cell, Group};

fn set_of(values: &[u32]) -> HashSet<u32> {
    values.iter().copied().collect()
}

fn open(values: &[u32]) -> Cell {
    Cell::Empty { candidates: set_of(values) }
}

#[test]
fn a_group_with_distinct_numbers_is_valid() {
    let group = Group::new(vec![Cell::Number(1), open(&[2, 3]), Cell::Number(2), Cell::Number(4)]);
    assert!(group.is_valid());
}

#[test]
fn a_group_with_a_repeated_number_is_not_valid() {
    let group = Group::new(vec![Cell::Number(3), open(&[3]), Cell::Number(1), Cell::Number(3)]);
    assert!(!group.is_valid());
}

#[test]
fn candidates_do_not_count_against_validity() {
    let group = Group::new(vec![Cell::Number(3), open(&[3]), open(&[3])]);
    assert!(group.is_valid());
}

#[test]
fn the_empty_group_is_valid_and_solved() {
    let group = Group::new(Vec::new());
    assert!(group.is_valid());
    assert!(group.is_solved());
    assert_eq!(group.numbers(), HashSet::new());
    assert_eq!(group.candidates(), HashSet::new());
    assert_eq!(group.render(), "");
}

#[test]
fn a_group_is_solved_when_every_cell_is_fixed() {
    assert!(Group::new(vec![Cell::Number(1), Cell::Number(2)]).is_solved());
    assert!(!Group::new(vec![Cell::Number(1), open(&[2])]).is_solved());
    assert!(Group::new(vec![Cell::Number(1), Cell::Number(1)]).is_solved());
}

#[test]
fn numbers_are_the_fixed_values() {
    let group = Group::new(vec![Cell::Number(4), open(&[1, 2]), Cell::Number(2), Cell::Number(4)]);
    assert_eq!(group.numbers(), set_of(&[2, 4]));
}

#[test]
fn candidates_are_pooled_from_the_undetermined_cells() {
    let group = Group::new(vec![open(&[1, 2]), Cell::Number(9), open(&[2, 5]), open(&[])]);
    assert_eq!(group.candidates(), set_of(&[1, 2, 5]));
}

#[test]
fn a_fixed_cell_adds_nothing_to_the_pooled_candidates() {
    let group = Group::new(vec![Cell::Number(9), Cell::Number(8)]);
    assert_eq!(group.candidates(), HashSet::new());
}

#[test]
fn remove_candidate_strikes_the_value_from_every_cell() {
    let mut group = Group::new(vec![open(&[1, 2]), Cell::Number(2), open(&[2]), open(&[3, 4])]);
    group.remove_candidate(2);
    assert_eq!(group.candidates(), set_of(&[1, 3, 4]));
    assert_eq!(group.numbers(), set_of(&[2]));
    assert_eq!(group.render(), "[1] \n2 \n[] \n[3,4] \n");
}

#[test]
fn a_group_renders_each_cell_on_a_line_of_its_own() {
    let group = Group::new(vec![Cell::Number(1), open(&[3, 2])]);
    assert_eq!(group.render(), "1 \n[2,3] \n");
}
