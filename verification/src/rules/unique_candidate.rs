//! Hidden singles: a value that is a candidate of no other cell of a cell's
//! column, row or box can stand only in that cell.

use crate::model::board::{lemma_index_inside, Board, BoardView};
use crate::model::cell::{Cell, CellView};
use crate::model::group::{candidates_of, views};
use crate::rules::{
    first_failure, lemma_first_failure_next, lemma_first_failure_stays, lemma_position,
    lemma_scan_narrows, narrows, narrows_cell, scan, Error, ErrorView, Rule,
};
use crate::sets::{difference, has_several, is_sole, only_member, several, sole, union};
use vstd::prelude::*;

verus! {

broadcast use vstd::std_specs::hash::group_hash_axioms;

/// The candidates of the cell at (`row`, `col`) that are a candidate of no
/// other cell of its column, or of none of its row, or of none of its box.
pub open spec fn forced(board: BoardView, row: int, col: int) -> Set<u32> {
    let own = board.at(row, col).candidates();
    own.difference(candidates_of(board.col_except(row, col))).union(
        own.difference(candidates_of(board.row_except(row, col))),
    ).union(own.difference(candidates_of(board.square_except(row, col))))
}

/// What the rule makes of the cell with index `i`: an undetermined cell with
/// exactly one forced value is fixed to it, every other cell stays, and there
/// is no cell where two or more values are forced into one undetermined cell.
pub open spec fn unique_cell(board: BoardView, i: int) -> Option<CellView> {
    match board.cells[i] {
        CellView::Number(n) => Some(CellView::Number(n)),
        CellView::Empty(candidates) => {
            let d = forced(board, i / (board.side() as int), i % (board.side() as int));
            if several(d) {
                None
            } else {
                match sole(d) {
                    Some(number) => Some(CellView::Number(number)),
                    None => Some(CellView::Empty(candidates)),
                }
            }
        },
    }
}

/// What the rule makes of each cell of `board`, by index.
pub open spec fn unique_steps(board: BoardView) -> Seq<Option<CellView>> {
    Seq::new(board.cells.len(), |i: int| unique_cell(board, i))
}

/// One application of the rule to `board`. Every cell is judged by the board
/// as it was before the pass.
pub open spec fn unique(board: BoardView) -> Result<BoardView, ErrorView> {
    match scan(board, unique_steps(board)) {
        Ok(next) => Ok(next),
        Err(i) => Err(
            ErrorView::MultipleUniqueCandidates {
                row: (i / (board.side() as int)) as u32,
                col: (i % (board.side() as int)) as u32,
                candidates: forced(board, i / (board.side() as int), i % (board.side() as int)),
            },
        ),
    }
}

/// The hidden-single rule only narrows: it leaves the fixed cells, and fixes
/// a cell to none but a candidate of it.
pub proof fn lemma_unique_narrows(board: BoardView)
    requires
        board.wf(),
    ensures
        unique(board) matches Ok(next) ==> narrows(board, next),
{
    let steps = unique_steps(board);
    assert forall|i: int| 0 <= i < steps.len() && (#[trigger] steps[i]) is Some implies narrows_cell(
        board.cells[i],
        steps[i]->0,
    ) by {
        crate::model::board::lemma_cell_position(board, i);
        if let CellView::Empty(candidates) = board.cells[i] {
            let d = forced(board, i / (board.side() as int), i % (board.side() as int));
            if let Some(v) = sole(d) {
                assert(is_sole(d, v));
            }
        }
    }
    lemma_scan_narrows(board, steps);
}

/// The hidden-single rule.
pub struct UniqueCandidate;

impl Rule for UniqueCandidate {
    open spec fn deduce(&self, board: BoardView) -> Result<BoardView, ErrorView> {
        unique(board)
    }

    fn apply(&self, board: &mut Board) -> (r: Result<(), Error>) {
        let sq_base = board.sq_base();
        let ghost before = board@;
        let ghost steps = unique_steps(before);
        let mut next: Vec<Cell> = Vec::new();
        let mut row: u32 = 0;
        while row < sq_base
            invariant
                row <= sq_base,
                sq_base == before.side(),
                board.wf(),
                board@ == before,
                *board == *old(board),
                steps == unique_steps(before),
                next@.len() == row * sq_base,
                first_failure(steps.take(next@.len() as int)) is None,
                forall|i: int| 0 <= i < next@.len() ==> Some(#[trigger] next@[i]@) == steps[i],
            decreases sq_base - row,
        {
            let mut col: u32 = 0;
            while col < sq_base
                invariant
                    row < sq_base,
                    col <= sq_base,
                    sq_base == before.side(),
                    board.wf(),
                    board@ == before,
                    *board == *old(board),
                    steps == unique_steps(before),
                    next@.len() == row * sq_base + col,
                    first_failure(steps.take(next@.len() as int)) is None,
                    forall|i: int| 0 <= i < next@.len() ==> Some(#[trigger] next@[i]@) == steps[i],
                decreases sq_base - col,
            {
                let ghost i = row * sq_base + col;
                proof {
                    lemma_index_inside(before.side(), row as int, col as int);
                    lemma_position(before.side(), row as int, col as int);
                    lemma_first_failure_next(steps, i);
                }
                let cell = board.get(row, col).unwrap();
                match cell.candidates() {
                    Some(candidates) => {
                        let others = board.col_except_cell(row, col).candidates();
                        let d_col = difference(candidates, &others);
                        let others = board.row_except_cell(row, col).candidates();
                        let d_row = difference(candidates, &others);
                        let others = board.square_except_cell(row, col).candidates();
                        let d_square = difference(candidates, &others);
                        let d = union(&d_col, &d_row);
                        let d = union(&d, &d_square);
                        assert(d@ == forced(before, row as int, col as int));
                        if has_several(&d) {
                            proof {
                                assert(steps[i] is None);
                                lemma_first_failure_stays(steps, i + 1);
                            }
                            return Err(Error::MultipleUniqueCandidates { row, col, candidates: d });
                        }
                        match only_member(&d) {
                            Some(number) => {
                                next.push(Cell::Number(number));
                            },
                            None => {
                                next.push(cell.clone());
                            },
                        }
                    },
                    None => {
                        next.push(cell.clone());
                    },
                }
                assert(Some(next@[i]@) == steps[i]);
                col += 1;
            }
            assert(row * sq_base + sq_base == (row + 1) * sq_base) by (nonlinear_arith);
            row += 1;
        }
        assert(steps.take(next@.len() as int) =~= steps);
        assert(views(next@) =~= Seq::new(steps.len(), |i: int| steps[i]->0));
        board.replace_cells(next);
        Ok(())
    }
}

} // verus!
