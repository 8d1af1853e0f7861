//! Soundness of the standard solver: on a board that has a solution among
//! its candidates, no rule finds a contradiction and no rule leaves the way
//! to that solution.

use crate::model::board::{
    lemma_cell_position, lemma_group_cells, lemma_own_cells, lemma_square_cell, skipping,
    values_up_to, BoardView,
};
use crate::model::cell::CellView;
use crate::model::group::{candidates_of, distinct_numbers, numbers_of};
use crate::rules::reduce_candidates::{reduce, reduce_steps};
use crate::rules::single_candidate::{single, single_steps};
use crate::rules::unique_candidate::{forced, unique, unique_steps};
use crate::rules::{lemma_no_failure, lemma_seen_agrees, seen};
use crate::sets::{is_sole, several, sole};
use crate::solver::{default_pass, lemma_standard_pass, run, standard_rules};
use vstd::prelude::*;

verus! {

/// The cells hold each of the values 1..=n, and none of them twice.
pub open spec fn holds_each_once(cells: Seq<CellView>, n: nat) -> bool {
    &&& distinct_numbers(cells)
    &&& forall|v: u32| 1 <= v <= n ==> numbers_of(cells).contains(v)
}

/// `board` is a solved Sudoku: every cell is fixed, and every row, column
/// and box holds each of the values 1..=N once.
pub open spec fn is_solution(board: BoardView) -> bool {
    &&& board.wf()
    &&& board.fullfilled()
    &&& forall|row: int, col: int| #[trigger]
        board.inside(row, col) ==> {
            &&& holds_each_once(board.row(row), board.side())
            &&& holds_each_once(board.col(col), board.side())
            &&& holds_each_once(board.square(row, col), board.side())
        }
}

/// `cell` does not rule out `answer`: fixed, it is fixed to the answer;
/// undetermined, the answer is among its candidates, and these are values of
/// the board.
pub open spec fn admits(cell: CellView, answer: CellView, side: nat) -> bool {
    match cell {
        CellView::Number(n) => answer == CellView::Number(n),
        CellView::Empty(candidates) => {
            &&& answer is Number
            &&& candidates.contains(answer->Number_0)
            &&& candidates.subset_of(values_up_to(side))
        },
    }
}

/// `solution` is a solved Sudoku that `board` can still become: no cell of
/// `board` rules out what `solution` holds there.
pub open spec fn leads_to(board: BoardView, solution: BoardView) -> bool {
    &&& board.wf()
    &&& board.base == solution.base
    &&& is_solution(solution)
    &&& forall|i: int|
        0 <= i < board.cells.len() ==> admits(
            #[trigger] board.cells[i],
            solution.cells[i],
            board.side(),
        )
}

/// No undetermined cell has a candidate that its row, column or box has fixed.
pub open spec fn is_reduced(board: BoardView) -> bool {
    forall|i: int|
        0 <= i < board.cells.len() ==> (#[trigger] board.cells[i]).candidates().disjoint(
            seen(board, i / (board.side() as int), i % (board.side() as int)),
        )
}

/// Cell by cell, `group` does not rule out `answers`.
pub open spec fn group_admits(group: Seq<CellView>, answers: Seq<CellView>, side: nat) -> bool {
    &&& group.len() == answers.len()
    &&& forall|k: int| 0 <= k < group.len() ==> admits(#[trigger] group[k], answers[k], side)
}

/// The answer of an undetermined cell is fixed nowhere in its group.
proof fn lemma_answer_unseen(
    group: Seq<CellView>,
    answers: Seq<CellView>,
    side: nat,
    own: int,
    v: u32,
)
    requires
        group_admits(group, answers, side),
        distinct_numbers(answers),
        0 <= own < group.len(),
        group[own] is Empty,
        answers[own] == CellView::Number(v),
    ensures
        !numbers_of(group).contains(v),
{
    if numbers_of(group).contains(v) {
        let k = choose|k: int| 0 <= k < group.len() && group[k] == CellView::Number(v);
        assert(admits(group[k], answers[k], side));
        if k < own {
            assert(answers[k] != answers[own]);
        } else {
            assert(answers[own] != answers[k]);
        }
    }
}

/// A candidate that no other cell of the group can hold, and that the group
/// has not fixed, is the answer.
proof fn lemma_forced_is_answer(
    group: Seq<CellView>,
    answers: Seq<CellView>,
    side: nat,
    own: int,
    w: u32,
)
    requires
        group_admits(group, answers, side),
        holds_each_once(answers, side),
        0 <= own < group.len(),
        1 <= w <= side,
        !candidates_of(skipping(group, own)).contains(w),
        !numbers_of(group).contains(w),
    ensures
        answers[own] == CellView::Number(w),
{
    assert(numbers_of(answers).contains(w));
    let k = choose|k: int| 0 <= k < answers.len() && answers[k] == CellView::Number(w);
    if k != own {
        assert(admits(group[k], answers[k], side));
        match group[k] {
            CellView::Number(m) => {
                assert(group[k] == CellView::Number(w));
                assert(numbers_of(group).contains(w));
            },
            CellView::Empty(candidates) => {
                let others = skipping(group, own);
                let at = if k < own {
                    k
                } else {
                    k - 1
                };
                assert(others[at] == group[k]);
                assert(others[at].candidates().contains(w));
                assert(candidates_of(others).contains(w));
            },
        }
    }
}

/// The three groups of a position do not rule out the solution's groups
/// there.
proof fn lemma_groups_admit(board: BoardView, solution: BoardView, row: int, col: int)
    requires
        leads_to(board, solution),
        board.inside(row, col),
    ensures
        group_admits(board.row(row), solution.row(row), board.side()),
        group_admits(board.col(col), solution.col(col), board.side()),
        group_admits(board.square(row, col), solution.square(row, col), board.side()),
        holds_each_once(solution.row(row), board.side()),
        holds_each_once(solution.col(col), board.side()),
        holds_each_once(solution.square(row, col), board.side()),
        board.row(row)[col] == board.at(row, col),
        board.col(col)[row] == board.at(row, col),
        board.square(row, col)[board.place_in_square(row, col)] == board.at(row, col),
        solution.row(row)[col] == solution.at(row, col),
        solution.col(col)[row] == solution.at(row, col),
        solution.square(row, col)[board.place_in_square(row, col)] == solution.at(row, col),
        0 <= board.place_in_square(row, col) < board.side(),
{
    assert(solution.inside(row, col));
    let (r1, r2) = (board.row(row), solution.row(row));
    let (c1, c2) = (board.col(col), solution.col(col));
    let (s1, s2) = (board.square(row, col), solution.square(row, col));
    assert forall|k: int| 0 <= k < r1.len() implies admits(#[trigger] r1[k], r2[k], board.side()) by {
        lemma_group_cells(board, row, col, k);
        lemma_group_cells(solution, row, col, k);
        assert(admits(board.cells[board.row_index(row, k)], solution.cells[board.row_index(row, k)], board.side()));
    }
    assert forall|k: int| 0 <= k < c1.len() implies admits(#[trigger] c1[k], c2[k], board.side()) by {
        lemma_group_cells(board, row, col, k);
        lemma_group_cells(solution, row, col, k);
        assert(admits(board.cells[board.col_index(col, k)], solution.cells[board.col_index(col, k)], board.side()));
    }
    assert forall|k: int| 0 <= k < s1.len() implies admits(#[trigger] s1[k], s2[k], board.side()) by {
        lemma_group_cells(board, row, col, k);
        lemma_group_cells(solution, row, col, k);
        assert(admits(
            board.cells[board.square_index(row, col, k)],
            solution.cells[board.square_index(row, col, k)],
            board.side(),
        ));
    }
    lemma_own_cells(board, row, col);
    lemma_own_cells(solution, row, col);
    lemma_group_cells(board, row, col, col);
    lemma_group_cells(board, row, col, row);
    lemma_group_cells(board, row, col, board.place_in_square(row, col));
    lemma_group_cells(solution, row, col, col);
    lemma_group_cells(solution, row, col, row);
    lemma_group_cells(solution, row, col, board.place_in_square(row, col));
}

/// The answer of an undetermined cell is not in sight of it.
proof fn lemma_answer_not_seen(board: BoardView, solution: BoardView, row: int, col: int)
    requires
        leads_to(board, solution),
        board.inside(row, col),
        board.at(row, col) is Empty,
    ensures
        solution.at(row, col) is Number,
        !seen(board, row, col).contains(solution.at(row, col)->Number_0),
{
    lemma_groups_admit(board, solution, row, col);
    let i = row * board.side() + col;
    crate::model::board::lemma_index_inside(board.side(), row, col);
    assert(admits(board.cells[i], solution.cells[i], board.side()));
    let v = solution.at(row, col)->Number_0;
    lemma_answer_unseen(board.row(row), solution.row(row), board.side(), col, v);
    lemma_answer_unseen(board.col(col), solution.col(col), board.side(), row, v);
    lemma_answer_unseen(
        board.square(row, col),
        solution.square(row, col),
        board.side(),
        board.place_in_square(row, col),
        v,
    );
}

/// A board made of cells that admit the solution leads to it.
proof fn lemma_next_leads(board: BoardView, steps: Seq<Option<CellView>>, solution: BoardView)
    requires
        leads_to(board, solution),
        steps.len() == board.cells.len(),
        forall|i: int|
            0 <= i < steps.len() ==> (#[trigger] steps[i]) is Some && admits(
                steps[i]->0,
                solution.cells[i],
                board.side(),
            ),
    ensures
        crate::rules::scan(board, steps) is Ok,
        leads_to(crate::rules::scan(board, steps)->Ok_0, solution),
{
    lemma_no_failure(steps);
    let next = crate::rules::scan(board, steps)->Ok_0;
    assert forall|i: int| 0 <= i < next.cells.len() implies admits(
        #[trigger] next.cells[i],
        solution.cells[i],
        next.side(),
    ) by {
        assert(steps[i] is Some);
    }
}

/// The naked-single rule keeps a board on its way to a solution.
pub proof fn lemma_single_keeps(board: BoardView, solution: BoardView)
    requires
        leads_to(board, solution),
    ensures
        single(board) is Ok,
        leads_to(single(board)->Ok_0, solution),
{
    let steps = single_steps(board);
    assert forall|i: int| 0 <= i < steps.len() implies (#[trigger] steps[i]) is Some && admits(
        steps[i]->0,
        solution.cells[i],
        board.side(),
    ) by {
        lemma_cell_position(board, i);
        let (row, col) = (i / (board.side() as int), i % (board.side() as int));
        assert(admits(board.cells[i], solution.cells[i], board.side()));
        match board.cells[i] {
            CellView::Number(_) => {},
            CellView::Empty(candidates) => {
                lemma_cell_position(solution, i);
                lemma_answer_not_seen(board, solution, row, col);
                let v = solution.cells[i]->Number_0;
                if let Some(w) = sole(candidates) {
                    assert(is_sole(candidates, w));
                    assert(w == v);
                }
            },
        }
    }
    lemma_next_leads(board, steps, solution);
}

/// The elimination rule keeps a board on its way to a solution, and leaves
/// it reduced.
pub proof fn lemma_reduce_keeps(board: BoardView, solution: BoardView)
    requires
        leads_to(board, solution),
    ensures
        reduce(board) is Ok,
        leads_to(reduce(board)->Ok_0, solution),
        is_reduced(reduce(board)->Ok_0),
{
    let steps = reduce_steps(board);
    assert forall|i: int| 0 <= i < steps.len() implies (#[trigger] steps[i]) is Some && admits(
        steps[i]->0,
        solution.cells[i],
        board.side(),
    ) by {
        lemma_cell_position(board, i);
        let (row, col) = (i / (board.side() as int), i % (board.side() as int));
        assert(admits(board.cells[i], solution.cells[i], board.side()));
        match board.cells[i] {
            CellView::Number(_) => {},
            CellView::Empty(candidates) => {
                lemma_cell_position(solution, i);
                lemma_answer_not_seen(board, solution, row, col);
                let v = solution.cells[i]->Number_0;
                let left = candidates.difference(seen(board, row, col));
                assert(left.contains(v));
            },
        }
    }
    lemma_next_leads(board, steps, solution);
    let next = reduce(board)->Ok_0;
    assert forall|i: int| 0 <= i < next.cells.len() implies (#[trigger] next.cells[i]).candidates().disjoint(
        seen(next, i / (next.side() as int), i % (next.side() as int)),
    ) by {
        lemma_cell_position(board, i);
        let (row, col) = (i / (board.side() as int), i % (board.side() as int));
        assert forall|j: int| 0 <= j < next.cells.len() implies next.cells[j].number()
            == board.cells[j].number() by {
            assert(steps[j] is Some);
        }
        lemma_seen_agrees(next, board, row, col);
        assert(steps[i] is Some);
    }
}

/// On a reduced board on its way to a solution, what is forced into a cell
/// is the cell's answer and nothing else.
proof fn lemma_forced_values(board: BoardView, solution: BoardView, row: int, col: int, w: u32)
    requires
        leads_to(board, solution),
        is_reduced(board),
        board.inside(row, col),
        board.at(row, col) is Empty,
        forced(board, row, col).contains(w),
    ensures
        solution.at(row, col) == CellView::Number(w),
{
    lemma_groups_admit(board, solution, row, col);
    let i = row * board.side() + col;
    crate::model::board::lemma_index_inside(board.side(), row, col);
    crate::rules::lemma_position(board.side(), row, col);
    assert(admits(board.cells[i], solution.cells[i], board.side()));
    let own = board.at(row, col).candidates();
    assert(own.contains(w));
    assert(values_up_to(board.side()).contains(w));
    assert(board.cells[i].candidates().disjoint(seen(board, row, col)));
    assert(!seen(board, row, col).contains(w));
    if !candidates_of(board.col_except(row, col)).contains(w) {
        lemma_forced_is_answer(board.col(col), solution.col(col), board.side(), row, w);
    } else if !candidates_of(board.row_except(row, col)).contains(w) {
        lemma_forced_is_answer(board.row(row), solution.row(row), board.side(), col, w);
    } else {
        lemma_forced_is_answer(
            board.square(row, col),
            solution.square(row, col),
            board.side(),
            board.place_in_square(row, col),
            w,
        );
    }
}

/// The hidden-single rule keeps a reduced board on its way to a solution.
pub proof fn lemma_unique_keeps(board: BoardView, solution: BoardView)
    requires
        leads_to(board, solution),
        is_reduced(board),
    ensures
        unique(board) is Ok,
        leads_to(unique(board)->Ok_0, solution),
{
    let steps = unique_steps(board);
    assert forall|i: int| 0 <= i < steps.len() implies (#[trigger] steps[i]) is Some && admits(
        steps[i]->0,
        solution.cells[i],
        board.side(),
    ) by {
        lemma_cell_position(board, i);
        lemma_cell_position(solution, i);
        let (row, col) = (i / (board.side() as int), i % (board.side() as int));
        assert(admits(board.cells[i], solution.cells[i], board.side()));
        match board.cells[i] {
            CellView::Number(_) => {},
            CellView::Empty(candidates) => {
                let d = forced(board, row, col);
                if several(d) {
                    let (a, b) = choose|a: u32, b: u32| a != b && d.contains(a) && d.contains(b);
                    lemma_forced_values(board, solution, row, col, a);
                    lemma_forced_values(board, solution, row, col, b);
                }
                if let Some(w) = sole(d) {
                    assert(is_sole(d, w));
                    lemma_forced_values(board, solution, row, col, w);
                }
            },
        }
    }
    lemma_next_leads(board, steps, solution);
}

/// A pass of the standard rules keeps a board on its way to a solution.
pub proof fn lemma_pass_keeps(board: BoardView, solution: BoardView)
    requires
        leads_to(board, solution),
    ensures
        default_pass(board) is Ok,
        leads_to(default_pass(board)->Ok_0, solution),
{
    lemma_single_keeps(board, solution);
    let first = single(board)->Ok_0;
    lemma_reduce_keeps(first, solution);
    let second = reduce(first)->Ok_0;
    lemma_unique_keeps(second, solution);
}

/// A full board on its way to a solution is that solution, and valid.
pub proof fn lemma_full_is_solution(board: BoardView, solution: BoardView)
    requires
        leads_to(board, solution),
        board.fullfilled(),
    ensures
        board == solution,
        board.valid(),
{
    assert forall|i: int| 0 <= i < board.cells.len() implies board.cells[i]
        == solution.cells[i] by {
        assert(admits(board.cells[i], solution.cells[i], board.side()));
    }
    assert(board.cells =~= solution.cells);
    assert forall|k: int| 0 <= k < board.side() implies {
        &&& distinct_numbers(#[trigger] board.row(k))
        &&& distinct_numbers(board.col(k))
        &&& distinct_numbers(
            board.square(
                (k / (board.base as int)) * board.base,
                (k % (board.base as int)) * board.base,
            ),
        )
    } by {
        assert(solution.inside(k, k));
        lemma_square_cell(board.base, k, k, k);
        let base = board.base as int;
        let (top, left) = ((k / base) * base, (k % base) * base);
        vstd::arithmetic::div_mod::lemma_fundamental_div_mod(k, base);
        assert(0 <= top <= k) by (nonlinear_arith)
            requires
                top == (k / base) * base,
                0 <= k / base,
                base > 0,
                k == base * (k / base) + k % base,
                0 <= k % base,
        {
        }
        assert(0 <= left < base * base) by (nonlinear_arith)
            requires
                left == (k % base) * base,
                0 <= k % base < base,
        {
        }
        assert(solution.inside(top, left));
    }
}

/// The standard solver is sound. On a board that can still become a solved
/// Sudoku, a run of the three rules in their default order finds no
/// contradiction, ends on a board that can still become that solution, and,
/// where that board is full, it is the solution: full and valid.
pub proof fn lemma_solve_is_sound(board: BoardView, solution: BoardView, passes: nat)
    requires
        leads_to(board, solution),
    ensures
        run(standard_rules(), board, passes) is Ok,
        leads_to(run(standard_rules(), board, passes)->Ok_0, solution),
        run(standard_rules(), board, passes)->Ok_0.fullfilled() ==> {
            &&& run(standard_rules(), board, passes)->Ok_0.valid()
            &&& run(standard_rules(), board, passes)->Ok_0 == solution
        },
    decreases passes,
{
    if passes == 0 || board.fullfilled() {
        if board.fullfilled() {
            lemma_full_is_solution(board, solution);
        }
    } else {
        lemma_standard_pass(board);
        lemma_pass_keeps(board, solution);
        let next = default_pass(board)->Ok_0;
        lemma_solve_is_sound(next, solution, (passes - 1) as nat);
    }
}

} // verus!
