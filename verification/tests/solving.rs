use std::collections::HashSet;
use sudoku::rules::{ReduceCandidates, SingleCandidate, UniqueCandidate};
use sudoku::solver::{Error, StandardRule};
use sudoku::{make_solver, Board, Cell, Solver};

fn set_of(values: &[u32]) -> HashSet<u32> {
    values.iter().copied().collect()
}

fn board_of(base: u32, rows: &[&[u32]]) -> Board {
    let mut board = Board::new(base);
    for (r, line) in rows.iter().enumerate() {
        for (c, n) in line.iter().enumerate() {
            if *n != 0 {
                board.get_mut(r as u32, c as u32).unwrap().set_number(*n);
            }
        }
    }
    board
}

#[test]
fn elimination_solves_a_board_of_base_two() {
    let mut board = board_of(2, &[&[1, 0, 0, 0], &[0, 0, 3, 0], &[0, 4, 0, 0], &[0, 0, 0, 2]]);
    assert_eq!(make_solver().solve(&mut board), Ok(()));
    assert!(board.fullfilled());
    assert!(board.is_valid());
    assert_eq!(board.render(), "1 3 2 4\n4 2 3 1\n2 4 1 3\n3 1 4 2");
}

#[test]
fn singles_and_elimination_alone_solve_a_board_with_one_gap() {
    let mut board = board_of(2, &[&[1, 2, 3, 4], &[3, 4, 1, 2], &[2, 1, 4, 3], &[4, 3, 2, 0]]);
    let mut solver = Solver::new();
    solver.add_rule(StandardRule::Single(SingleCandidate));
    solver.add_rule(StandardRule::Reduce(ReduceCandidates));
    assert_eq!(solver.solve(&mut board), Ok(()));
    assert!(board.fullfilled());
    assert!(board.is_valid());
    assert_eq!(board.get(3, 3), Some(&Cell::Number(1)));
}

#[test]
fn a_board_of_base_three_is_solved() {
    let mut board = board_of(
        3,
        &[
            &[5, 3, 0, 0, 7, 0, 0, 0, 0],
            &[6, 0, 0, 1, 9, 5, 0, 0, 0],
            &[0, 9, 8, 0, 0, 0, 0, 6, 0],
            &[8, 0, 0, 0, 6, 0, 0, 0, 3],
            &[4, 0, 0, 8, 0, 3, 0, 0, 1],
            &[7, 0, 0, 0, 2, 0, 0, 0, 6],
            &[0, 6, 0, 0, 0, 0, 2, 8, 0],
            &[0, 0, 0, 4, 1, 9, 0, 0, 5],
            &[0, 0, 0, 0, 8, 0, 0, 7, 9],
        ],
    );
    assert_eq!(make_solver().solve(&mut board), Ok(()));
    assert!(board.fullfilled());
    assert!(board.is_valid());
    assert_eq!(
        board.render(),
        "5 3 4 6 7 8 9 1 2\n6 7 2 1 9 5 3 4 8\n1 9 8 3 4 2 5 6 7\n8 5 9 7 6 1 4 2 3\n\
         4 2 6 8 5 3 7 9 1\n7 1 3 9 2 4 8 5 6\n9 6 1 5 3 7 2 8 4\n2 8 7 4 1 9 6 3 5\n\
         3 4 5 2 8 6 1 7 9"
    );
}

#[test]
fn a_cell_whose_groups_hold_every_value_is_reported() {
    let mut board = board_of(2, &[&[0, 1, 2, 0], &[3, 0, 0, 0], &[4, 0, 0, 0], &[0, 0, 0, 0]]);
    assert_eq!(make_solver().solve(&mut board), Err(Error::NoCandidate { row: 0, col: 0 }));
    assert_eq!(board.get(0, 0), Some(&Cell::Empty { candidates: set_of(&[1, 2, 3, 4]) }));
}

#[test]
fn two_values_forced_into_one_cell_are_reported() {
    let mut board = Board::new(2);
    for col in 1..4 {
        board.get_mut(0, col).unwrap().set_candidates(set_of(&[3, 4]));
    }
    assert_eq!(
        make_solver().solve(&mut board),
        Err(Error::MultipleUniqueCandidates { row: 0, col: 0, candidates: set_of(&[1, 2]) })
    );
}

#[test]
fn a_sole_candidate_that_is_taken_is_reported() {
    let mut board = board_of(2, &[&[0, 0, 0, 2], &[0, 0, 0, 0], &[0, 0, 0, 0], &[0, 0, 0, 0]]);
    board.get_mut(0, 0).unwrap().set_candidates(set_of(&[2]));
    assert_eq!(
        make_solver().solve(&mut board),
        Err(Error::InvalidCandidate { row: 0, col: 0, candidate: 2 })
    );
}

#[test]
fn a_stalled_run_ends_without_error_and_without_a_full_board() {
    let mut board = board_of(2, &[&[1, 0, 0, 0], &[0, 0, 0, 0], &[0, 0, 0, 0], &[0, 0, 0, 0]]);
    assert_eq!(make_solver().solve(&mut board), Ok(()));
    assert!(!board.fullfilled());
    assert!(board.is_valid());
    assert_eq!(
        board.render(),
        "1 [2,3,4] [2,3,4] [2,3,4]\n[2,3,4] [2,3,4] [1,2,3,4] [1,2,3,4]\n\
         [2,3,4] [1,2,3,4] [1,2,3,4] [1,2,3,4]\n[2,3,4] [1,2,3,4] [1,2,3,4] [1,2,3,4]"
    );
}

#[test]
fn a_blank_board_stalls() {
    let mut board = Board::new(2);
    let before = board.render();
    assert_eq!(make_solver().solve(&mut board), Ok(()));
    assert!(!board.fullfilled());
    assert_eq!(board.render(), before);
}

#[test]
fn a_full_board_is_left_alone_even_when_invalid() {
    let mut board = board_of(2, &[&[1, 1, 1, 1], &[1, 1, 1, 1], &[1, 1, 1, 1], &[1, 1, 1, 1]]);
    assert_eq!(make_solver().solve(&mut board), Ok(()));
    assert!(board.fullfilled());
    assert!(!board.is_valid());
}

#[test]
fn a_puzzle_without_solution_can_end_full_and_invalid() {
    let mut board = board_of(2, &[&[0, 0, 0, 0], &[1, 0, 0, 4], &[3, 2, 4, 1], &[0, 1, 2, 3]]);
    assert!(board.is_valid());
    assert_eq!(make_solver().solve(&mut board), Ok(()));
    assert!(board.fullfilled());
    assert!(!board.is_valid());
    assert_eq!(board.render(), "2 4 1 2\n1 3 3 4\n3 2 4 1\n4 1 2 3");
}

#[test]
fn a_solver_without_rules_changes_nothing() {
    let mut board = board_of(2, &[&[1, 2, 3, 0], &[0, 0, 0, 0], &[0, 0, 0, 0], &[0, 0, 0, 0]]);
    let before = board.render();
    let solver: Solver<StandardRule> = Solver::new();
    assert_eq!(solver.solve(&mut board), Ok(()));
    assert_eq!(board.render(), before);
    let solver: Solver<StandardRule> = Solver::default();
    assert_eq!(solver.solve(&mut board), Ok(()));
    assert_eq!(board.render(), before);
}

#[test]
fn a_solver_without_passes_changes_nothing() {
    let mut board = board_of(2, &[&[1, 2, 3, 0], &[0, 0, 0, 0], &[0, 0, 0, 0], &[0, 0, 0, 0]]);
    let before = board.render();
    let mut solver = Solver::with_passes(0);
    solver.add_rule(ReduceCandidates);
    assert_eq!(solver.solve(&mut board), Ok(()));
    assert_eq!(board.render(), before);
}

#[test]
fn the_passes_bound_the_run() {
    let given: &[&[u32]] = &[&[1, 2, 3, 0], &[0, 0, 0, 0], &[0, 0, 0, 0], &[0, 0, 0, 0]];
    let mut solver = Solver::with_passes(1);
    solver.add_rule(StandardRule::Single(SingleCandidate));
    solver.add_rule(StandardRule::Reduce(ReduceCandidates));
    let mut board = board_of(2, given);
    assert_eq!(solver.solve(&mut board), Ok(()));
    assert_eq!(board.get(0, 3), Some(&Cell::Empty { candidates: set_of(&[4]) }));
    let mut solver = Solver::with_passes(2);
    solver.add_rule(StandardRule::Single(SingleCandidate));
    solver.add_rule(StandardRule::Reduce(ReduceCandidates));
    let mut board = board_of(2, given);
    assert_eq!(solver.solve(&mut board), Ok(()));
    assert_eq!(board.get(0, 3), Some(&Cell::Number(4)));
}

#[test]
fn the_order_of_the_rules_decides_what_a_pass_reaches() {
    let given: &[&[u32]] = &[&[1, 2, 3, 0], &[0, 0, 0, 0], &[0, 0, 0, 0], &[0, 0, 0, 0]];
    let mut solver = Solver::with_passes(1);
    solver.add_rule(StandardRule::Reduce(ReduceCandidates));
    solver.add_rule(StandardRule::Single(SingleCandidate));
    let mut board = board_of(2, given);
    assert_eq!(solver.solve(&mut board), Ok(()));
    assert_eq!(board.get(0, 3), Some(&Cell::Number(4)));
}

#[test]
fn a_contradiction_leaves_what_earlier_rules_wrote() {
    let mut board = board_of(2, &[&[0, 1, 2, 0], &[3, 0, 0, 0], &[4, 0, 0, 0], &[0, 0, 0, 0]]);
    board.get_mut(3, 3).unwrap().set_candidates(set_of(&[2]));
    assert_eq!(make_solver().solve(&mut board), Err(Error::NoCandidate { row: 0, col: 0 }));
    assert_eq!(board.get(3, 3), Some(&Cell::Number(2)));
}

#[test]
fn a_solver_of_one_rule_type_holds_that_rule() {
    let mut solver = Solver::new();
    solver.add_rule(UniqueCandidate);
    let mut board = Board::new(2);
    for col in 1..4 {
        board.get_mut(0, col).unwrap().set_candidates(set_of(&[2, 3, 4]));
    }
    assert_eq!(solver.solve(&mut board), Ok(()));
    assert_eq!(board.get(0, 0), Some(&Cell::Number(1)));
}
