//! The deduction rules. A rule looks at the whole board, and either writes
//! what it deduced or reports the contradiction it found and writes nothing.

use crate::model::board::{lemma_group_cells, Board, BoardView};
use crate::model::cell::CellView;
use crate::model::group::{lemma_numbers_agree, numbers_of};
use crate::sets::copy_of;
use std::collections::HashSet;
use vstd::prelude::*;

pub mod reduce_candidates;
pub mod single_candidate;
pub mod unique_candidate;

pub use reduce_candidates::ReduceCandidates;
pub use single_candidate::SingleCandidate;
pub use unique_candidate::UniqueCandidate;

verus! {

/// A contradiction: the board as it stands has no completion.
#[derive(Debug, PartialEq)]
pub enum Error {
    /// An undetermined cell has lost every candidate.
    NoCandidate { row: u32, col: u32 },
    /// The only candidate left to a cell is already fixed in its row, column or box.
    InvalidCandidate { row: u32, col: u32, candidate: u32 },
    /// More than one value can stand nowhere but in this cell.
    MultipleUniqueCandidates { row: u32, col: u32, candidates: HashSet<u32> },
}

/// The mathematical value of an [`Error`].
pub enum ErrorView {
    NoCandidate { row: u32, col: u32 },
    InvalidCandidate { row: u32, col: u32, candidate: u32 },
    MultipleUniqueCandidates { row: u32, col: u32, candidates: Set<u32> },
}

impl View for Error {
    type V = ErrorView;

    open spec fn view(&self) -> ErrorView {
        match self {
            Error::NoCandidate { row, col } => ErrorView::NoCandidate { row: *row, col: *col },
            Error::InvalidCandidate { row, col, candidate } => ErrorView::InvalidCandidate {
                row: *row,
                col: *col,
                candidate: *candidate,
            },
            Error::MultipleUniqueCandidates {
                row,
                col,
                candidates,
            } => ErrorView::MultipleUniqueCandidates {
                row: *row,
                col: *col,
                candidates: candidates@,
            },
        }
    }
}

impl Clone for Error {
    fn clone(&self) -> (r: Self)
        ensures
            r@ == self@,
    {
        match self {
            Error::NoCandidate { row, col } => Error::NoCandidate { row: *row, col: *col },
            Error::InvalidCandidate { row, col, candidate } => Error::InvalidCandidate {
                row: *row,
                col: *col,
                candidate: *candidate,
            },
            Error::MultipleUniqueCandidates { row, col, candidates } => {
                Error::MultipleUniqueCandidates {
                    row: *row,
                    col: *col,
                    candidates: copy_of(candidates),
                }
            },
        }
    }
}

/// A deduction rule.
pub trait Rule {
    /// What one application makes of `board`: the board it leaves, or the
    /// contradiction it reports.
    spec fn deduce(&self, board: BoardView) -> Result<BoardView, ErrorView>;

    /// Applies the rule once. On a contradiction the board is left as it was.
    fn apply(&self, board: &mut Board) -> (r: Result<(), Error>)
        requires
            old(board).wf(),
        ensures
            final(board).wf(),
            match r {
                Ok(_) => self.deduce(old(board)@) == Ok::<BoardView, ErrorView>(final(board)@),
                Err(e) => {
                    &&& self.deduce(old(board)@) == Err::<BoardView, ErrorView>(e@)
                    &&& final(board)@ == old(board)@
                },
            },
    ;
}

/// The values fixed in the row, the column or the box of (`row`, `col`).
pub open spec fn seen(board: BoardView, row: int, col: int) -> Set<u32> {
    numbers_of(board.row(row)).union(numbers_of(board.col(col))).union(
        numbers_of(board.square(row, col)),
    )
}

/// The least index at which `steps` holds no cell.
pub open spec fn first_failure(steps: Seq<Option<CellView>>) -> Option<int>
    decreases steps.len(),
{
    if steps.len() == 0 {
        None
    } else {
        match first_failure(steps.drop_last()) {
            Some(i) => Some(i),
            None => if steps.last() is None {
                Some(steps.len() - 1)
            } else {
                None
            },
        }
    }
}

/// One pass over the cells in row-major order, `steps` holding what the rule
/// makes of each: where that is a cell for every index, the board of those
/// cells; else the first index where it is none.
pub open spec fn scan(board: BoardView, steps: Seq<Option<CellView>>) -> Result<BoardView, int> {
    match first_failure(steps) {
        Some(i) => Err(i),
        None => Ok(
            BoardView { base: board.base, cells: Seq::new(steps.len(), |i: int| steps[i]->0) },
        ),
    }
}

/// What `first_failure` says of its result.
pub proof fn lemma_first_failure(steps: Seq<Option<CellView>>)
    ensures
        match first_failure(steps) {
            Some(i) => {
                &&& 0 <= i < steps.len()
                &&& steps[i] is None
                &&& forall|j: int| 0 <= j < i ==> steps[j] is Some
            },
            None => forall|j: int| 0 <= j < steps.len() ==> steps[j] is Some,
        },
    decreases steps.len(),
{
    if steps.len() > 0 {
        let front = steps.drop_last();
        lemma_first_failure(front);
        assert(forall|j: int| 0 <= j < front.len() ==> front[j] == steps[j]);
        match first_failure(front) {
            Some(i) => {
                assert(steps[i] == front[i]);
            },
            None => {
                assert forall|j: int| 0 <= j < steps.len() - 1 implies steps[j] is Some by {
                    assert(front[j] is Some);
                }
            },
        }
    }
}

/// A failure found within the first `m` steps is the failure of the whole.
pub proof fn lemma_first_failure_stays(steps: Seq<Option<CellView>>, m: int)
    requires
        0 <= m <= steps.len(),
        first_failure(steps.take(m)) is Some,
    ensures
        first_failure(steps) == first_failure(steps.take(m)),
    decreases steps.len(),
{
    if m < steps.len() {
        assert(steps.drop_last().take(m) =~= steps.take(m));
        lemma_first_failure_stays(steps.drop_last(), m);
    } else {
        assert(steps.take(m) =~= steps);
    }
}

/// One more step that gives a cell leaves a scan without failure.
pub proof fn lemma_first_failure_next(steps: Seq<Option<CellView>>, m: int)
    requires
        0 <= m < steps.len(),
        first_failure(steps.take(m)) is None,
    ensures
        first_failure(steps.take(m + 1)) == if steps[m] is None {
            Some(m)
        } else {
            None
        },
{
    assert(steps.take(m + 1).drop_last() =~= steps.take(m));
}

/// A scan without failure gives a cell for every index, and the other way round.
pub proof fn lemma_no_failure(steps: Seq<Option<CellView>>)
    requires
        forall|j: int| 0 <= j < steps.len() ==> steps[j] is Some,
    ensures
        first_failure(steps) is None,
{
    lemma_first_failure(steps);
}

/// Boards that agree cell by cell on what is fixed have the same values in
/// sight of every position.
pub proof fn lemma_seen_agrees(a: BoardView, b: BoardView, row: int, col: int)
    requires
        a.wf(),
        b.wf(),
        a.base == b.base,
        a.inside(row, col),
        forall|i: int| 0 <= i < a.cells.len() ==> a.cells[i].number() == b.cells[i].number(),
    ensures
        seen(a, row, col) == seen(b, row, col),
{
    let (ra, rb) = (a.row(row), b.row(row));
    let (ca, cb) = (a.col(col), b.col(col));
    let (sa, sb) = (a.square(row, col), b.square(row, col));
    assert forall|k: int| 0 <= k < ra.len() implies ra[k].number() == rb[k].number() by {
        lemma_group_cells(a, row, col, k);
        lemma_group_cells(b, row, col, k);
    }
    assert forall|k: int| 0 <= k < ca.len() implies ca[k].number() == cb[k].number() by {
        lemma_group_cells(a, row, col, k);
        lemma_group_cells(b, row, col, k);
    }
    assert forall|k: int| 0 <= k < sa.len() implies sa[k].number() == sb[k].number() by {
        lemma_group_cells(a, row, col, k);
        lemma_group_cells(b, row, col, k);
    }
    lemma_numbers_agree(ra, rb);
    lemma_numbers_agree(ca, cb);
    lemma_numbers_agree(sa, sb);
}

/// `after` only narrows `cell`: a fixed cell stays as it is, an undetermined
/// one keeps some of its candidates or is fixed to one of them.
pub open spec fn narrows_cell(cell: CellView, after: CellView) -> bool {
    match cell {
        CellView::Number(n) => after == CellView::Number(n),
        CellView::Empty(candidates) => match after {
            CellView::Empty(left) => left.subset_of(candidates),
            CellView::Number(n) => candidates.contains(n),
        },
    }
}

/// `after` is `before` narrowed: the same grid, no fixed cell changed or
/// undone, no candidate added.
pub open spec fn narrows(before: BoardView, after: BoardView) -> bool {
    &&& after.base == before.base
    &&& after.cells.len() == before.cells.len()
    &&& forall|i: int|
        0 <= i < before.cells.len() ==> narrows_cell(#[trigger] before.cells[i], after.cells[i])
}

/// A scan whose every step narrows its cell narrows the board.
pub proof fn lemma_scan_narrows(board: BoardView, steps: Seq<Option<CellView>>)
    requires
        steps.len() == board.cells.len(),
        forall|i: int|
            0 <= i < steps.len() && (#[trigger] steps[i]) is Some ==> narrows_cell(
                board.cells[i],
                steps[i]->0,
            ),
    ensures
        scan(board, steps) matches Ok(next) ==> narrows(board, next),
{
    if let Ok(next) = scan(board, steps) {
        lemma_first_failure(steps);
        assert forall|i: int| 0 <= i < board.cells.len() implies narrows_cell(
            #[trigger] board.cells[i],
            next.cells[i],
        ) by {
            assert(steps[i] is Some);
        }
    }
}

/// Narrowing what was narrowed is narrowing.
pub proof fn lemma_narrows_on(a: BoardView, b: BoardView, c: BoardView)
    requires
        narrows(a, b),
        narrows(b, c),
    ensures
        narrows(a, c),
{
    assert forall|i: int| 0 <= i < a.cells.len() implies narrows_cell(
        #[trigger] a.cells[i],
        c.cells[i],
    ) by {
        assert(narrows_cell(a.cells[i], b.cells[i]));
        assert(narrows_cell(b.cells[i], c.cells[i]));
    }
}

/// The row and the column of the cell with index `row * side + col`.
pub proof fn lemma_position(side: nat, row: int, col: int)
    requires
        0 <= row < side,
        0 <= col < side,
    ensures
        (row * side + col) / (side as int) == row,
        (row * side + col) % (side as int) == col,
{
    vstd::arithmetic::div_mod::lemma_fundamental_div_mod_converse(
        row * side + col,
        side as int,
        row,
        col,
    );
}

} // verus!
