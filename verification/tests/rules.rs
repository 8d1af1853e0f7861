use std::collections::HashSet;
use sudoku::rules::{Error, ReduceCandidates, SingleCandidate, UniqueCandidate};
use sudoku::{Board, Cell, Rule};

fn set_of(values: &[u32]) -> HashSet<u32> {
    values.iter().copied().collect()
}

fn board_of(base: u32, rows: &[&[u32]]) -> Board {
    let mut board = Board::new(base);
    for (r, line) in rows.iter().enumerate() {
        for (c, n) in line.iter().enumerate() {
            if *n != 0 {
                board.get_mut(r as u32, c as u32).unwrap().set_number(*n);
            }
        }
    }
    board
}

fn limit(board: &mut Board, row: u32, col: u32, values: &[u32]) {
    board.get_mut(row, col).unwrap().set_candidates(set_of(values));
}

#[test]
fn reduce_strikes_what_row_column_and_box_have_fixed() {
    let mut board = board_of(2, &[&[1, 0, 0, 0], &[0, 0, 3, 0], &[0, 4, 0, 0], &[0, 0, 0, 2]]);
    assert_eq!(ReduceCandidates.apply(&mut board), Ok(()));
    assert_eq!(
        board.render(),
        "1 [2,3] [2,4] [4]\n[2,4] [2] 3 [1,4]\n[2,3] 4 [1] [1,3]\n[3] [1,3] [1,4] 2"
    );
}

#[test]
fn reduce_judges_every_cell_by_the_board_before_the_pass() {
    let mut board = board_of(2, &[&[1, 2, 3, 0], &[0, 0, 0, 0], &[0, 0, 0, 0], &[0, 0, 0, 0]]);
    assert_eq!(ReduceCandidates.apply(&mut board), Ok(()));
    assert_eq!(board.get(0, 3), Some(&Cell::Empty { candidates: set_of(&[4]) }));
    assert_eq!(board.get(1, 3), Some(&Cell::Empty { candidates: set_of(&[1, 2, 4]) }));
}

#[test]
fn reduce_keeps_candidates_already_narrowed() {
    let mut board = Board::new(2);
    limit(&mut board, 2, 2, &[2, 3]);
    board.get_mut(2, 0).unwrap().set_number(3);
    assert_eq!(ReduceCandidates.apply(&mut board), Ok(()));
    assert_eq!(board.get(2, 2), Some(&Cell::Empty { candidates: set_of(&[2]) }));
}

#[test]
fn reduce_twice_is_reduce_once() {
    let mut board = board_of(2, &[&[1, 0, 0, 0], &[0, 0, 3, 0], &[0, 4, 0, 0], &[0, 0, 0, 2]]);
    assert_eq!(ReduceCandidates.apply(&mut board), Ok(()));
    let once = board.render();
    assert_eq!(ReduceCandidates.apply(&mut board), Ok(()));
    assert_eq!(board.render(), once);
}

#[test]
fn reduce_reports_the_cell_without_candidates() {
    let mut board = board_of(2, &[&[0, 1, 2, 0], &[3, 0, 0, 0], &[4, 0, 0, 0], &[0, 0, 0, 0]]);
    let before = board.render();
    assert_eq!(ReduceCandidates.apply(&mut board), Err(Error::NoCandidate { row: 0, col: 0 }));
    assert_eq!(board.render(), before);
}

#[test]
fn reduce_reports_the_first_such_cell_in_reading_order() {
    let mut board = Board::new(2);
    limit(&mut board, 3, 1, &[]);
    limit(&mut board, 1, 2, &[]);
    limit(&mut board, 1, 3, &[]);
    assert_eq!(ReduceCandidates.apply(&mut board), Err(Error::NoCandidate { row: 1, col: 2 }));
}

#[test]
fn single_fixes_a_cell_with_one_candidate() {
    let mut board = Board::new(2);
    limit(&mut board, 1, 1, &[3]);
    limit(&mut board, 2, 3, &[1, 2]);
    assert_eq!(SingleCandidate.apply(&mut board), Ok(()));
    assert_eq!(board.get(1, 1), Some(&Cell::Number(3)));
    assert_eq!(board.get(2, 3), Some(&Cell::Empty { candidates: set_of(&[1, 2]) }));
    assert_eq!(board.get(0, 0), Some(&Cell::Empty { candidates: set_of(&[1, 2, 3, 4]) }));
}

#[test]
fn single_leaves_a_cell_without_candidates() {
    let mut board = Board::new(2);
    limit(&mut board, 0, 0, &[]);
    assert_eq!(SingleCandidate.apply(&mut board), Ok(()));
    assert_eq!(board.get(0, 0), Some(&Cell::Empty { candidates: HashSet::new() }));
}

#[test]
fn single_reports_a_candidate_that_the_row_has_fixed() {
    let mut board = board_of(2, &[&[0, 0, 0, 2], &[0, 0, 0, 0], &[0, 0, 0, 0], &[0, 0, 0, 0]]);
    limit(&mut board, 0, 0, &[2]);
    let before = board.render();
    assert_eq!(
        SingleCandidate.apply(&mut board),
        Err(Error::InvalidCandidate { row: 0, col: 0, candidate: 2 })
    );
    assert_eq!(board.render(), before);
}

#[test]
fn single_reports_a_candidate_that_the_column_has_fixed() {
    let mut board = board_of(2, &[&[0, 0, 0, 0], &[0, 0, 0, 0], &[0, 0, 0, 0], &[0, 4, 0, 0]]);
    limit(&mut board, 1, 1, &[4]);
    assert_eq!(
        SingleCandidate.apply(&mut board),
        Err(Error::InvalidCandidate { row: 1, col: 1, candidate: 4 })
    );
}

#[test]
fn single_reports_a_candidate_that_the_box_has_fixed() {
    let mut board = board_of(2, &[&[0, 0, 0, 0], &[0, 0, 0, 0], &[0, 0, 0, 1], &[0, 0, 0, 0]]);
    limit(&mut board, 3, 2, &[1]);
    assert_eq!(
        SingleCandidate.apply(&mut board),
        Err(Error::InvalidCandidate { row: 3, col: 2, candidate: 1 })
    );
}

#[test]
fn single_writes_nothing_when_a_later_cell_fails() {
    let mut board = board_of(2, &[&[0, 0, 0, 0], &[0, 0, 0, 0], &[0, 0, 0, 1], &[0, 0, 0, 0]]);
    limit(&mut board, 0, 0, &[2]);
    limit(&mut board, 3, 2, &[1]);
    assert_eq!(
        SingleCandidate.apply(&mut board),
        Err(Error::InvalidCandidate { row: 3, col: 2, candidate: 1 })
    );
    assert_eq!(board.get(0, 0), Some(&Cell::Empty { candidates: set_of(&[2]) }));
}

#[test]
fn single_fixes_two_cells_of_a_row_to_the_same_value() {
    let mut board = Board::new(2);
    limit(&mut board, 0, 0, &[1]);
    limit(&mut board, 0, 2, &[1]);
    assert_eq!(SingleCandidate.apply(&mut board), Ok(()));
    assert_eq!(board.get(0, 0), Some(&Cell::Number(1)));
    assert_eq!(board.get(0, 2), Some(&Cell::Number(1)));
    assert!(!board.is_valid());
}

#[test]
fn a_value_fixed_by_single_is_fixed_nowhere_else_in_its_groups() {
    let mut board = board_of(2, &[&[0, 2, 0, 0], &[0, 0, 0, 0], &[0, 0, 4, 0], &[3, 0, 0, 0]]);
    limit(&mut board, 0, 0, &[1]);
    limit(&mut board, 1, 1, &[4]);
    assert_eq!(SingleCandidate.apply(&mut board), Ok(()));
    assert_eq!(board.get(0, 0), Some(&Cell::Number(1)));
    assert!(!board.row_except_cell(0, 0).numbers().contains(&1));
    assert!(!board.col_except_cell(0, 0).numbers().contains(&1));
    assert!(!board.square_except_cell(0, 0).numbers().contains(&1));
}

#[test]
fn unique_fixes_a_value_that_no_other_cell_of_the_row_can_hold() {
    let mut board = Board::new(2);
    limit(&mut board, 0, 1, &[2, 3, 4]);
    limit(&mut board, 0, 2, &[2, 3, 4]);
    limit(&mut board, 0, 3, &[2, 3, 4]);
    assert_eq!(UniqueCandidate.apply(&mut board), Ok(()));
    assert_eq!(board.get(0, 0), Some(&Cell::Number(1)));
    assert_eq!(board.get(0, 1), Some(&Cell::Empty { candidates: set_of(&[2, 3, 4]) }));
    assert_eq!(board.get(1, 0), Some(&Cell::Empty { candidates: set_of(&[1, 2, 3, 4]) }));
}

#[test]
fn unique_fixes_a_value_that_no_other_cell_of_the_column_can_hold() {
    let mut board = Board::new(2);
    limit(&mut board, 0, 3, &[1, 2, 4]);
    limit(&mut board, 1, 3, &[1, 2, 4]);
    limit(&mut board, 3, 3, &[1, 2, 4]);
    assert_eq!(UniqueCandidate.apply(&mut board), Ok(()));
    assert_eq!(board.get(2, 3), Some(&Cell::Number(3)));
}

#[test]
fn unique_fixes_a_value_that_no_other_cell_of_the_box_can_hold() {
    let mut board = Board::new(2);
    limit(&mut board, 2, 2, &[1, 2, 3]);
    limit(&mut board, 2, 3, &[1, 2, 3]);
    limit(&mut board, 3, 2, &[1, 2, 3]);
    assert_eq!(UniqueCandidate.apply(&mut board), Ok(()));
    assert_eq!(board.get(3, 3), Some(&Cell::Number(4)));
    assert_eq!(board.get(2, 2), Some(&Cell::Empty { candidates: set_of(&[1, 2, 3]) }));
}

#[test]
fn unique_takes_no_account_of_fixed_cells() {
    let mut board = board_of(2, &[&[0, 1, 0, 0], &[0, 0, 0, 0], &[0, 0, 0, 0], &[0, 0, 0, 0]]);
    limit(&mut board, 0, 2, &[2, 3, 4]);
    limit(&mut board, 0, 3, &[2, 3, 4]);
    assert_eq!(UniqueCandidate.apply(&mut board), Ok(()));
    assert_eq!(board.get(0, 0), Some(&Cell::Number(1)));
}

#[test]
fn unique_changes_nothing_on_a_blank_board() {
    let mut board = Board::new(2);
    let before = board.render();
    assert_eq!(UniqueCandidate.apply(&mut board), Ok(()));
    assert_eq!(board.render(), before);
}

#[test]
fn unique_reports_two_values_forced_into_one_cell() {
    let mut board = Board::new(2);
    limit(&mut board, 0, 1, &[3, 4]);
    limit(&mut board, 0, 2, &[3, 4]);
    limit(&mut board, 0, 3, &[3, 4]);
    let before = board.render();
    assert_eq!(
        UniqueCandidate.apply(&mut board),
        Err(Error::MultipleUniqueCandidates { row: 0, col: 0, candidates: set_of(&[1, 2]) })
    );
    assert_eq!(board.render(), before);
}

#[test]
fn unique_pools_the_forced_values_of_column_row_and_box() {
    let mut board = Board::new(2);
    limit(&mut board, 0, 1, &[2, 3, 4]);
    limit(&mut board, 0, 2, &[2, 3, 4]);
    limit(&mut board, 0, 3, &[2, 3, 4]);
    limit(&mut board, 1, 0, &[1, 3, 4]);
    limit(&mut board, 2, 0, &[1, 3, 4]);
    limit(&mut board, 3, 0, &[1, 3, 4]);
    assert_eq!(
        UniqueCandidate.apply(&mut board),
        Err(Error::MultipleUniqueCandidates { row: 0, col: 0, candidates: set_of(&[1, 2]) })
    );
}

#[test]
fn unique_writes_nothing_when_a_later_cell_fails() {
    let mut board = Board::new(2);
    limit(&mut board, 0, 1, &[2, 3, 4]);
    limit(&mut board, 0, 2, &[2, 3, 4]);
    limit(&mut board, 0, 3, &[2, 3, 4]);
    limit(&mut board, 3, 0, &[3, 4]);
    limit(&mut board, 3, 1, &[3, 4]);
    limit(&mut board, 3, 2, &[3, 4]);
    let before = board.render();
    assert_eq!(
        UniqueCandidate.apply(&mut board),
        Err(Error::MultipleUniqueCandidates { row: 3, col: 3, candidates: set_of(&[1, 2]) })
    );
    assert_eq!(board.render(), before);
    assert_eq!(board.get(0, 0), Some(&Cell::Empty { candidates: set_of(&[1, 2, 3, 4]) }));
}

#[test]
fn the_rules_leave_a_board_without_cells() {
    let mut board = Board::new(0);
    assert_eq!(SingleCandidate.apply(&mut board), Ok(()));
    assert_eq!(ReduceCandidates.apply(&mut board), Ok(()));
    assert_eq!(UniqueCandidate.apply(&mut board), Ok(()));
    assert_eq!(board.render(), "");
}

#[test]
fn an_error_can_be_cloned() {
    let error = Error::MultipleUniqueCandidates { row: 1, col: 2, candidates: set_of(&[5, 6]) };
    assert_eq!(error.clone(), error);
    let error = Error::NoCandidate { row: 3, col: 4 };
    assert_eq!(error.clone(), error);
    let error = Error::InvalidCandidate { row: 3, col: 4, candidate: 9 };
    assert_eq!(error.clone(), error);
}
