//! Elimination: a value fixed in a cell's row, column or box is no candidate
//! of that cell.

use crate::model::board::{lemma_cell_position, lemma_index_inside, Board, BoardView};
use crate::model::cell::{Cell, CellView};
use crate::model::group::views;
use crate::rules::{
    first_failure, lemma_first_failure, lemma_first_failure_next, lemma_first_failure_stays,
    lemma_no_failure, lemma_position, lemma_scan_narrows, lemma_seen_agrees, narrows, scan, seen,
    Error, ErrorView, Rule,
};
use crate::sets::{absorb, difference};
use vstd::prelude::*;

verus! {

broadcast use vstd::std_specs::hash::group_hash_axioms;

/// What the rule makes of the cell with index `i`: a fixed cell stays, an
/// undetermined one loses the values that its row, column and box have fixed,
/// and there is no cell where that leaves it no candidate.
pub open spec fn reduce_cell(board: BoardView, i: int) -> Option<CellView> {
    match board.cells[i] {
        CellView::Number(n) => Some(CellView::Number(n)),
        CellView::Empty(candidates) => {
            let left = candidates.difference(
                seen(board, i / (board.side() as int), i % (board.side() as int)),
            );
            if left.is_empty() {
                None
            } else {
                Some(CellView::Empty(left))
            }
        },
    }
}

/// What the rule makes of each cell of `board`, by index.
pub open spec fn reduce_steps(board: BoardView) -> Seq<Option<CellView>> {
    Seq::new(board.cells.len(), |i: int| reduce_cell(board, i))
}

/// One application of the rule to `board`. Every cell is judged by the board
/// as it was before the pass.
pub open spec fn reduce(board: BoardView) -> Result<BoardView, ErrorView> {
    match scan(board, reduce_steps(board)) {
        Ok(next) => Ok(next),
        Err(i) => Err(
            ErrorView::NoCandidate {
                row: (i / (board.side() as int)) as u32,
                col: (i % (board.side() as int)) as u32,
            },
        ),
    }
}

/// Elimination is idempotent: on a board that one application has left,
/// the next application changes nothing and finds no contradiction.
pub proof fn lemma_reduce_idempotent(board: BoardView)
    requires
        board.wf(),
    ensures
        reduce(board) matches Ok(once) ==> reduce(once) == Ok::<BoardView, ErrorView>(once),
{
    if let Ok(once) = reduce(board) {
        let first = reduce_steps(board);
        let second = reduce_steps(once);
        lemma_first_failure(first);
        assert(once.cells.len() == board.cells.len());
        assert forall|i: int| 0 <= i < once.cells.len() implies second[i] == Some(
            once.cells[i],
        ) by {
            lemma_cell_position(board, i);
            let (row, col) = (i / (board.side() as int), i % (board.side() as int));
            assert(first[i] is Some);
            assert(once.cells[i] == first[i]->0);
            assert forall|j: int| 0 <= j < once.cells.len() implies once.cells[j].number()
                == board.cells[j].number() by {
                assert(first[j] is Some);
                assert(once.cells[j] == first[j]->0);
            }
            lemma_seen_agrees(once, board, row, col);
            match board.cells[i] {
                CellView::Number(_) => {},
                CellView::Empty(candidates) => {
                    let gone = seen(board, row, col);
                    let left = candidates.difference(gone);
                    assert(left.difference(gone) =~= left);
                },
            }
        }
        lemma_no_failure(second);
        assert(Seq::new(second.len(), |i: int| second[i]->0) =~= once.cells);
    }
}

/// Elimination only narrows: it leaves the fixed cells and adds no candidate.
pub proof fn lemma_reduce_narrows(board: BoardView)
    ensures
        reduce(board) matches Ok(next) ==> narrows(board, next),
{
    lemma_scan_narrows(board, reduce_steps(board));
}

/// The elimination rule.
pub struct ReduceCandidates;

impl Rule for ReduceCandidates {
    open spec fn deduce(&self, board: BoardView) -> Result<BoardView, ErrorView> {
        reduce(board)
    }

    fn apply(&self, board: &mut Board) -> (r: Result<(), Error>) {
        let sq_base = board.sq_base();
        let ghost before = board@;
        let ghost steps = reduce_steps(before);
        let mut next: Vec<Cell> = Vec::new();
        let mut row: u32 = 0;
        while row < sq_base
            invariant
                row <= sq_base,
                sq_base == before.side(),
                board.wf(),
                board@ == before,
                *board == *old(board),
                steps == reduce_steps(before),
                next@.len() == row * sq_base,
                first_failure(steps.take(next@.len() as int)) is None,
                forall|i: int| 0 <= i < next@.len() ==> Some(#[trigger] next@[i]@) == steps[i],
            decreases sq_base - row,
        {
            let mut col: u32 = 0;
            while col < sq_base
                invariant
                    row < sq_base,
                    col <= sq_base,
                    sq_base == before.side(),
                    board.wf(),
                    board@ == before,
                    *board == *old(board),
                    steps == reduce_steps(before),
                    next@.len() == row * sq_base + col,
                    first_failure(steps.take(next@.len() as int)) is None,
                    forall|i: int| 0 <= i < next@.len() ==> Some(#[trigger] next@[i]@) == steps[i],
                decreases sq_base - col,
            {
                let ghost i = row * sq_base + col;
                proof {
                    lemma_index_inside(before.side(), row as int, col as int);
                    lemma_position(before.side(), row as int, col as int);
                    lemma_first_failure_next(steps, i);
                }
                let cell = board.get(row, col).unwrap();
                match cell.candidates() {
                    Some(candidates) => {
                        let mut numbers = board.row(row).numbers();
                        absorb(&mut numbers, &board.col(col).numbers());
                        absorb(&mut numbers, &board.square(row, col).numbers());
                        let left = difference(candidates, &numbers);
                        if left.is_empty() {
                            proof {
                                assert(steps[i] is None);
                                lemma_first_failure_stays(steps, i + 1);
                            }
                            return Err(Error::NoCandidate { row, col });
                        }
                        next.push(Cell::Empty { candidates: left });
                    },
                    None => {
                        next.push(cell.clone());
                    },
                }
                assert(Some(next@[i]@) == steps[i]);
                col += 1;
            }
            assert(row * sq_base + sq_base == (row + 1) * sq_base) by (nonlinear_arith);
            row += 1;
        }
        assert(steps.take(next@.len() as int) =~= steps);
        assert(views(next@) =~= Seq::new(steps.len(), |i: int| steps[i]->0));
        board.replace_cells(next);
        Ok(())
    }
}

} // verus!
