use std::collections::HashSet;
use sudoku::{Board, Cell};

fn set_of(values: &[u32]) -> HashSet<u32> {
    values.iter().copied().collect()
}

fn board_of(base: u32, rows: &[&[u32]]) -> Board {
    let mut board = Board::new(base);
    for (r, line) in rows.iter().enumerate() {
        for (c, n) in line.iter().enumerate() {
            if *n != 0 {
                board.get_mut(r as u32, c as u32).unwrap().set_number(*n);
            }
        }
    }
    board
}

fn numbered() -> Board {
    board_of(2, &[&[1, 2, 3, 4], &[5, 6, 7, 8], &[9, 10, 11, 12], &[13, 14, 15, 16]])
}

#[test]
fn a_new_board_has_every_value_as_candidate_everywhere() {
    let board = Board::new(2);
    assert_eq!(board.base_number(), 2);
    assert_eq!(board.sq_base(), 4);
    for r in 0..4 {
        for c in 0..4 {
            assert_eq!(board.get(r, c), Some(&Cell::Empty { candidates: set_of(&[1, 2, 3, 4]) }));
        }
    }
    assert!(!board.fullfilled());
    assert!(board.is_valid());
}

#[test]
fn a_board_of_base_three_has_side_nine() {
    let board = Board::new(3);
    assert_eq!(board.sq_base(), 9);
    assert_eq!(
        board.get(8, 8).unwrap().candidates(),
        Some(&set_of(&[1, 2, 3, 4, 5, 6, 7, 8, 9]))
    );
    assert!(board.get(9, 0).is_none());
}

#[test]
fn a_board_of_base_zero_has_no_cells() {
    let board = Board::new(0);
    assert_eq!(board.sq_base(), 0);
    assert!(board.get(0, 0).is_none());
    assert!(board.fullfilled());
    assert!(board.is_valid());
    assert_eq!(board.render(), "");
    assert_eq!(board.square(0, 0).render(), "");
    assert_eq!(board.square_except_cell(0, 0).render(), "");
}

#[test]
fn a_board_of_base_one_has_one_cell() {
    let board = Board::new(1);
    assert_eq!(board.sq_base(), 1);
    assert_eq!(board.get(0, 0), Some(&Cell::Empty { candidates: set_of(&[1]) }));
    assert_eq!(board.render(), "[1]");
}

#[test]
fn get_is_none_outside_the_grid() {
    let board = numbered();
    assert_eq!(board.get(3, 3).unwrap().number(), Some(16));
    assert!(board.get(0, 4).is_none());
    assert!(board.get(4, 0).is_none());
    assert!(board.get(4294967295, 4294967295).is_none());
}

#[test]
fn get_mut_writes_the_addressed_cell_only() {
    let mut board = numbered();
    board.get_mut(1, 2).unwrap().set_number(99);
    assert_eq!(board.get(1, 2).unwrap().number(), Some(99));
    assert_eq!(board.get(1, 1).unwrap().number(), Some(6));
    assert_eq!(board.get(2, 1).unwrap().number(), Some(10));
    assert!(board.get_mut(0, 4).is_none());
    assert!(board.get_mut(4, 0).is_none());
}

#[test]
fn row_and_col_hold_their_cells_in_order() {
    let board = numbered();
    assert_eq!(board.row(1).render(), "5 \n6 \n7 \n8 \n");
    assert_eq!(board.col(2).render(), "3 \n7 \n11 \n15 \n");
    assert_eq!(board.row(4).render(), "");
    assert_eq!(board.col(4).render(), "");
}

#[test]
fn square_holds_the_box_of_the_cell() {
    let board = numbered();
    assert_eq!(board.square(0, 0).render(), "1 \n2 \n5 \n6 \n");
    assert_eq!(board.square(1, 1).render(), "1 \n2 \n5 \n6 \n");
    assert_eq!(board.square(1, 2).render(), "3 \n4 \n7 \n8 \n");
    assert_eq!(board.square(3, 0).render(), "9 \n10 \n13 \n14 \n");
    assert_eq!(board.square(2, 3).render(), "11 \n12 \n15 \n16 \n");
    assert_eq!(board.square(4, 0).render(), "");
    assert_eq!(board.square(0, 4).render(), "");
}

#[test]
fn the_except_groups_leave_out_the_named_cell() {
    let board = numbered();
    assert_eq!(board.row_except_cell(1, 2).render(), "5 \n6 \n8 \n");
    assert_eq!(board.col_except_cell(1, 2).render(), "3 \n11 \n15 \n");
    assert_eq!(board.square_except_cell(1, 2).render(), "3 \n4 \n8 \n");
    assert_eq!(board.square_except_cell(0, 0).render(), "2 \n5 \n6 \n");
    assert_eq!(board.square_except_cell(3, 3).render(), "11 \n12 \n15 \n");
    assert_eq!(board.square_except_cell(3, 2).render(), "11 \n12 \n16 \n");
}

#[test]
fn the_except_groups_outside_the_grid() {
    let board = numbered();
    assert_eq!(board.row_except_cell(1, 4).render(), "5 \n6 \n7 \n8 \n");
    assert_eq!(board.row_except_cell(4, 1).render(), "");
    assert_eq!(board.col_except_cell(4, 2).render(), "3 \n7 \n11 \n15 \n");
    assert_eq!(board.col_except_cell(2, 4).render(), "");
    assert_eq!(board.square_except_cell(4, 0).render(), "");
}

#[test]
fn a_group_is_a_copy_of_the_cells() {
    let board = numbered();
    let mut row = board.row(0);
    row.remove_candidate(1);
    assert_eq!(board.get(0, 0).unwrap().number(), Some(1));
    let blank = Board::new(2);
    let mut row = blank.row(0);
    row.remove_candidate(1);
    assert_eq!(row.candidates(), set_of(&[2, 3, 4]));
    assert_eq!(blank.get(0, 0).unwrap().candidates(), Some(&set_of(&[1, 2, 3, 4])));
}

#[test]
fn a_solved_board_is_fullfilled_and_valid() {
    let board = board_of(2, &[&[1, 2, 3, 4], &[3, 4, 1, 2], &[2, 1, 4, 3], &[4, 3, 2, 1]]);
    assert!(board.fullfilled());
    assert!(board.is_valid());
}

#[test]
fn a_repeated_number_in_a_row_makes_the_board_invalid() {
    let board = board_of(2, &[&[1, 0, 0, 1], &[0, 0, 0, 0], &[0, 0, 0, 0], &[0, 0, 0, 0]]);
    assert!(!board.is_valid());
    assert!(!board.fullfilled());
}

#[test]
fn a_repeated_number_in_a_column_makes_the_board_invalid() {
    let board = board_of(2, &[&[0, 2, 0, 0], &[0, 0, 0, 0], &[0, 0, 0, 0], &[0, 2, 0, 0]]);
    assert!(!board.is_valid());
}

#[test]
fn a_repeated_number_in_a_box_makes_the_board_invalid() {
    let board = board_of(2, &[&[0, 0, 0, 0], &[0, 0, 0, 0], &[0, 0, 3, 0], &[0, 0, 0, 3]]);
    assert!(!board.is_valid());
    let board = board_of(2, &[&[0, 0, 0, 0], &[0, 0, 0, 0], &[0, 0, 3, 0], &[0, 3, 0, 0]]);
    assert!(board.is_valid());
}

#[test]
fn a_full_board_can_be_invalid() {
    let board = board_of(2, &[&[1, 1, 1, 1], &[1, 1, 1, 1], &[1, 1, 1, 1], &[1, 1, 1, 1]]);
    assert!(board.fullfilled());
    assert!(!board.is_valid());
}

#[test]
fn clone_copies_the_board() {
    let board = numbered();
    let mut copy = board.clone();
    copy.get_mut(0, 0).unwrap().set_number(77);
    assert_eq!(board.get(0, 0).unwrap().number(), Some(1));
    assert_eq!(copy.get(0, 0).unwrap().number(), Some(77));
    assert_eq!(copy.get(3, 3).unwrap().number(), Some(16));
    assert_eq!(copy.base_number(), 2);
}

#[test]
fn a_board_renders_a_line_for_each_row() {
    let board = board_of(2, &[&[1, 2, 3, 4], &[3, 4, 1, 2], &[2, 1, 4, 3], &[4, 3, 2, 0]]);
    assert_eq!(board.render(), "1 2 3 4\n3 4 1 2\n2 1 4 3\n4 3 2 [1,2,3,4]");
}
