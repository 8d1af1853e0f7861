//! Naked singles: an undetermined cell with one candidate left is fixed to it.

use crate::model::board::{
    lemma_group_cells, lemma_index_inside, lemma_own_cells, skipping, Board, BoardView,
};
use crate::model::cell::{Cell, CellView};
use crate::model::group::{numbers_of, views};
use crate::rules::{
    first_failure, lemma_first_failure, lemma_first_failure_next, lemma_first_failure_stays,
    lemma_position, lemma_scan_narrows, narrows, narrows_cell, scan, seen, Error, ErrorView, Rule,
};
use crate::sets::{absorb, is_sole, only_member, sole};
use vstd::prelude::*;

verus! {

broadcast use vstd::std_specs::hash::group_hash_axioms;

/// What the rule makes of the cell with index `i`: an undetermined cell with
/// exactly one candidate is fixed to it, every other cell stays, and there is
/// no cell where that one candidate is already fixed in the cell's row,
/// column or box.
pub open spec fn single_cell(board: BoardView, i: int) -> Option<CellView> {
    match board.cells[i] {
        CellView::Number(n) => Some(CellView::Number(n)),
        CellView::Empty(candidates) => match sole(candidates) {
            Some(candidate) => if seen(
                board,
                i / (board.side() as int),
                i % (board.side() as int),
            ).contains(candidate) {
                None
            } else {
                Some(CellView::Number(candidate))
            },
            None => Some(CellView::Empty(candidates)),
        },
    }
}

/// What the rule makes of each cell of `board`, by index.
pub open spec fn single_steps(board: BoardView) -> Seq<Option<CellView>> {
    Seq::new(board.cells.len(), |i: int| single_cell(board, i))
}

/// One application of the rule to `board`. Every cell is judged by the board
/// as it was before the pass.
pub open spec fn single(board: BoardView) -> Result<BoardView, ErrorView> {
    match scan(board, single_steps(board)) {
        Ok(next) => Ok(next),
        Err(i) => Err(
            ErrorView::InvalidCandidate {
                row: (i / (board.side() as int)) as u32,
                col: (i % (board.side() as int)) as u32,
                candidate: sole(board.cells[i].candidates())->0,
            },
        ),
    }
}

/// Some undetermined cell of `cells` has `v` for its one candidate.
pub open spec fn has_single(cells: Seq<CellView>, v: u32) -> bool {
    exists|k: int|
        0 <= k < cells.len() && (#[trigger] cells[k]) is Empty && sole(cells[k].candidates())
            == Some(v)
}

/// Within one group: where no cell was fixed to `v` before the pass and no
/// cell but the one at `own` had `v` for its one candidate, no cell but the
/// one at `own` is fixed to `v` after it.
proof fn lemma_fresh_in_group(before: Seq<CellView>, after: Seq<CellView>, own: int, v: u32)
    requires
        before.len() == after.len(),
        forall|k: int|
            0 <= k < before.len() && #[trigger] after[k] == CellView::Number(v) ==> before[k]
                == CellView::Number(v) || (before[k] is Empty && sole(before[k].candidates())
                == Some(v)),
        !numbers_of(before).contains(v),
        !has_single(skipping(before, own), v),
    ensures
        !numbers_of(skipping(after, own)).contains(v),
{
    let rest = skipping(after, own);
    if numbers_of(rest).contains(v) {
        let k = choose|k: int| 0 <= k < rest.len() && rest[k] == CellView::Number(v);
        let from = if 0 <= own < after.len() && k >= own {
            k + 1
        } else {
            k
        };
        assert(rest[k] == after[from]);
        assert(skipping(before, own)[k] == before[from]);
        assert(after[from] == CellView::Number(v));
        if before[from] == CellView::Number(v) {
            assert(numbers_of(before).contains(v));
        }
    }
}

/// A naked single is fresh. Where a pass fixes the cell at (`row`, `col`) to
/// `v`, and `v` was the one candidate of no other undetermined cell of its
/// row, of its column or of its box, then after the pass `v` is fixed nowhere
/// else in that row, that column and that box.
pub proof fn lemma_single_is_fresh(board: BoardView, next: BoardView, row: int, col: int, v: u32)
    requires
        board.wf(),
        board.inside(row, col),
        single(board) == Ok::<BoardView, ErrorView>(next),
        board.at(row, col) is Empty,
        next.at(row, col) == CellView::Number(v),
        !has_single(board.row_except(row, col), v),
        !has_single(board.col_except(row, col), v),
        !has_single(board.square_except(row, col), v),
    ensures
        !numbers_of(next.row_except(row, col)).contains(v),
        !numbers_of(next.col_except(row, col)).contains(v),
        !numbers_of(next.square_except(row, col)).contains(v),
{
    let steps = single_steps(board);
    lemma_first_failure(steps);
    lemma_index_inside(board.side(), row, col);
    crate::rules::lemma_position(board.side(), row, col);
    let i = row * board.side() + col;
    assert(steps[i] is Some);
    assert(next.cells[i] == steps[i]->0);
    assert(!seen(board, row, col).contains(v));
    lemma_own_cells(board, row, col);
    let (rows, cols, squares) = (board.row(row), board.col(col), board.square(row, col));
    let (rows2, cols2, squares2) = (next.row(row), next.col(col), next.square(row, col));
    assert forall|k: int| 0 <= k < rows.len() && #[trigger] rows2[k] == CellView::Number(
        v,
    ) implies rows[k] == CellView::Number(v) || (rows[k] is Empty && sole(rows[k].candidates())
        == Some(v)) by {
        lemma_group_cells(board, row, col, k);
        lemma_group_cells(next, row, col, k);
        let a = board.row_index(row, k);
        assert(steps[a] is Some && next.cells[a] == steps[a]->0);
    }
    assert forall|k: int| 0 <= k < cols.len() && #[trigger] cols2[k] == CellView::Number(
        v,
    ) implies cols[k] == CellView::Number(v) || (cols[k] is Empty && sole(cols[k].candidates())
        == Some(v)) by {
        lemma_group_cells(board, row, col, k);
        lemma_group_cells(next, row, col, k);
        let a = board.col_index(col, k);
        assert(steps[a] is Some && next.cells[a] == steps[a]->0);
    }
    assert forall|k: int| 0 <= k < squares.len() && #[trigger] squares2[k] == CellView::Number(
        v,
    ) implies squares[k] == CellView::Number(v) || (squares[k] is Empty && sole(
        squares[k].candidates(),
    ) == Some(v)) by {
        lemma_group_cells(board, row, col, k);
        lemma_group_cells(next, row, col, k);
        let a = board.square_index(row, col, k);
        assert(steps[a] is Some && next.cells[a] == steps[a]->0);
    }
    lemma_fresh_in_group(board.row(row), next.row(row), col, v);
    lemma_fresh_in_group(board.col(col), next.col(col), row, v);
    lemma_fresh_in_group(
        board.square(row, col),
        next.square(row, col),
        board.place_in_square(row, col),
        v,
    );
}

/// The naked-single rule only narrows: it leaves the fixed cells, and fixes a
/// cell to none but a candidate of it.
pub proof fn lemma_single_narrows(board: BoardView)
    ensures
        single(board) matches Ok(next) ==> narrows(board, next),
{
    let steps = single_steps(board);
    assert forall|i: int| 0 <= i < steps.len() && (#[trigger] steps[i]) is Some implies narrows_cell(
        board.cells[i],
        steps[i]->0,
    ) by {
        if let CellView::Empty(candidates) = board.cells[i] {
            if let Some(v) = sole(candidates) {
                assert(is_sole(candidates, v));
            }
        }
    }
    lemma_scan_narrows(board, steps);
}

/// The naked-single rule.
pub struct SingleCandidate;

impl Rule for SingleCandidate {
    open spec fn deduce(&self, board: BoardView) -> Result<BoardView, ErrorView> {
        single(board)
    }

    fn apply(&self, board: &mut Board) -> (r: Result<(), Error>) {
        let sq_base = board.sq_base();
        let ghost before = board@;
        let ghost steps = single_steps(before);
        let mut next: Vec<Cell> = Vec::new();
        let mut row: u32 = 0;
        while row < sq_base
            invariant
                row <= sq_base,
                sq_base == before.side(),
                board.wf(),
                board@ == before,
                *board == *old(board),
                steps == single_steps(before),
                next@.len() == row * sq_base,
                first_failure(steps.take(next@.len() as int)) is None,
                forall|i: int| 0 <= i < next@.len() ==> Some(#[trigger] next@[i]@) == steps[i],
            decreases sq_base - row,
        {
            let mut col: u32 = 0;
            while col < sq_base
                invariant
                    row < sq_base,
                    col <= sq_base,
                    sq_base == before.side(),
                    board.wf(),
                    board@ == before,
                    *board == *old(board),
                    steps == single_steps(before),
                    next@.len() == row * sq_base + col,
                    first_failure(steps.take(next@.len() as int)) is None,
                    forall|i: int| 0 <= i < next@.len() ==> Some(#[trigger] next@[i]@) == steps[i],
                decreases sq_base - col,
            {
                let ghost i = row * sq_base + col;
                proof {
                    lemma_index_inside(before.side(), row as int, col as int);
                    lemma_position(before.side(), row as int, col as int);
                    lemma_first_failure_next(steps, i);
                }
                let cell = board.get(row, col).unwrap();
                let only = match cell.candidates() {
                    Some(candidates) => only_member(candidates),
                    None => None,
                };
                match only {
                    Some(candidate) => {
                        let mut numbers = board.row(row).numbers();
                        absorb(&mut numbers, &board.col(col).numbers());
                        absorb(&mut numbers, &board.square(row, col).numbers());
                        if numbers.contains(&candidate) {
                            proof {
                                assert(steps[i] is None);
                                lemma_first_failure_stays(steps, i + 1);
                            }
                            return Err(Error::InvalidCandidate { row, col, candidate });
                        }
                        next.push(Cell::Number(candidate));
                    },
                    None => {
                        next.push(cell.clone());
                    },
                }
                assert(Some(next@[i]@) == steps[i]);
                col += 1;
            }
            assert(row * sq_base + sq_base == (row + 1) * sq_base) by (nonlinear_arith);
            row += 1;
        }
        assert(steps.take(next@.len() as int) =~= steps);
        assert(views(next@) =~= Seq::new(steps.len(), |i: int| steps[i]->0));
        board.replace_cells(next);
        Ok(())
    }
}

} // verus!
