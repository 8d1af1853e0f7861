//! The solver: an ordered list of rules, applied pass after pass until the
//! board is full, a rule reports a contradiction, or the passes run out.
//!
//! The order of the rules is part of what the solver computes: each rule
//! sees the board as the rules before it left it, so another order may fix
//! other cells and meet other contradictions.

use crate::model::board::{Board, BoardView};
use crate::rules::reduce_candidates::{lemma_reduce_narrows, reduce};
use crate::rules::single_candidate::{lemma_single_narrows, single};
use crate::rules::unique_candidate::{lemma_unique_narrows, unique};
use crate::rules::{
    lemma_narrows_on, narrows, ErrorView, ReduceCandidates, Rule, SingleCandidate,
    UniqueCandidate,
};
use vstd::prelude::*;

pub use crate::rules::Error;

verus! {

/// The number of passes that a solver makes at most, unless told otherwise.
pub const DEFAULT_PASSES: u32 = 100;

/// Where a run stopped on a contradiction: the board as the failing rule
/// found it, and what the rule reported.
pub struct Halt {
    pub board: BoardView,
    pub error: ErrorView,
}

/// What a pass that came to `reached` becomes with `rule` applied behind it.
pub open spec fn then<R: Rule>(reached: Result<BoardView, Halt>, rule: R) -> Result<
    BoardView,
    Halt,
> {
    match reached {
        Ok(board) => match rule.deduce(board) {
            Ok(next) => Ok(next),
            Err(error) => Err(Halt { board, error }),
        },
        Err(halt) => Err(halt),
    }
}

/// One pass: every rule of `rules` once, in order, each on the board that
/// the rules before it left. The first contradiction ends the pass.
pub open spec fn pass<R: Rule>(rules: Seq<R>, board: BoardView) -> Result<BoardView, Halt>
    decreases rules.len(),
{
    if rules.len() == 0 {
        Ok(board)
    } else {
        then(pass(rules.drop_last(), board), rules.last())
    }
}

/// The run of `rules` on `board`: passes are made while the board is not
/// full and fewer than `passes` were made. It ends with the board reached,
/// or with the first contradiction.
pub open spec fn run<R: Rule>(rules: Seq<R>, board: BoardView, passes: nat) -> Result<
    BoardView,
    Halt,
>
    decreases passes,
{
    if passes == 0 || board.fullfilled() {
        Ok(board)
    } else {
        match pass(rules, board) {
            Ok(next) => run(rules, next, (passes - 1) as nat),
            Err(halt) => Err(halt),
        }
    }
}

/// One of the three rules of this library, for a solver that mixes them.
pub enum StandardRule {
    Single(SingleCandidate),
    Reduce(ReduceCandidates),
    Unique(UniqueCandidate),
}

impl Rule for StandardRule {
    open spec fn deduce(&self, board: BoardView) -> Result<BoardView, ErrorView> {
        match self {
            StandardRule::Single(rule) => rule.deduce(board),
            StandardRule::Reduce(rule) => rule.deduce(board),
            StandardRule::Unique(rule) => rule.deduce(board),
        }
    }

    fn apply(&self, board: &mut Board) -> (r: Result<(), Error>) {
        match self {
            StandardRule::Single(rule) => rule.apply(board),
            StandardRule::Reduce(rule) => rule.apply(board),
            StandardRule::Unique(rule) => rule.apply(board),
        }
    }
}

/// The three rules in their default order: naked singles, elimination,
/// hidden singles.
pub open spec fn standard_rules() -> Seq<StandardRule> {
    seq![
        StandardRule::Single(SingleCandidate),
        StandardRule::Reduce(ReduceCandidates),
        StandardRule::Unique(UniqueCandidate),
    ]
}

/// One pass of the rules in their default order, written out.
pub open spec fn default_pass(board: BoardView) -> Result<BoardView, Halt> {
    match single(board) {
        Err(error) => Err(Halt { board, error }),
        Ok(first) => match reduce(first) {
            Err(error) => Err(Halt { board: first, error }),
            Ok(second) => match unique(second) {
                Err(error) => Err(Halt { board: second, error }),
                Ok(third) => Ok(third),
            },
        },
    }
}

/// A pass of the standard rules is a naked-single step, then an elimination
/// step, then a hidden-single step.
pub proof fn lemma_standard_pass(board: BoardView)
    ensures
        pass(standard_rules(), board) == default_pass(board),
{
    let all = standard_rules();
    let two = all.drop_last();
    let one = two.drop_last();
    let none = one.drop_last();
    assert(none.len() == 0);
    assert(pass(none, board) == Ok::<BoardView, Halt>(board));
    assert(pass(one, board) == then(pass(none, board), one.last()));
    assert(pass(two, board) == then(pass(one, board), two.last()));
    assert(pass(all, board) == then(pass(two, board), all.last()));
}

/// The board that a run ends on, with or without a contradiction.
pub open spec fn reached(end: Result<BoardView, Halt>) -> BoardView {
    match end {
        Ok(board) => board,
        Err(halt) => halt.board,
    }
}

/// A pass of the standard rules only narrows the board, however it ends.
pub proof fn lemma_pass_narrows(board: BoardView)
    requires
        board.wf(),
    ensures
        narrows(board, reached(default_pass(board))),
        reached(default_pass(board)).wf(),
{
    lemma_single_narrows(board);
    if let Ok(first) = single(board) {
        lemma_reduce_narrows(first);
        if let Ok(second) = reduce(first) {
            lemma_unique_narrows(second);
            lemma_narrows_on(board, first, second);
            if let Ok(third) = unique(second) {
                lemma_narrows_on(board, second, third);
            }
        }
    }
}

/// A run of the standard rules only narrows the board, however it ends: no
/// fixed cell is changed or made undetermined again, an undetermined cell
/// gains no candidate, and one that is fixed is fixed to a candidate it had.
pub proof fn lemma_run_narrows(board: BoardView, passes: nat)
    requires
        board.wf(),
    ensures
        narrows(board, reached(run(standard_rules(), board, passes))),
    decreases passes,
{
    if passes == 0 || board.fullfilled() {
    } else {
        lemma_standard_pass(board);
        lemma_pass_narrows(board);
        if let Ok(next) = default_pass(board) {
            lemma_run_narrows(next, (passes - 1) as nat);
            lemma_narrows_on(board, next, reached(run(standard_rules(), next, (passes - 1) as nat)));
        }
    }
}

/// A solver: its rules in the order of their application, and the most
/// passes it makes.
pub struct Solver<R: Rule> {
    rules: Vec<R>,
    passes: u32,
}

impl<R: Rule> Solver<R> {
    /// The rules, in order.
    pub closed spec fn rules(&self) -> Seq<R> {
        self.rules@
    }

    /// The most passes that `solve` makes.
    pub closed spec fn passes(&self) -> nat {
        self.passes as nat
    }

    /// A solver without rules that makes at most [`DEFAULT_PASSES`] passes.
    pub fn new() -> (s: Self)
        ensures
            s.rules() == Seq::<R>::empty(),
            s.passes() == DEFAULT_PASSES,
    {
        Self { rules: Vec::new(), passes: DEFAULT_PASSES }
    }

    /// A solver without rules that makes at most `passes` passes.
    pub fn with_passes(passes: u32) -> (s: Self)
        ensures
            s.rules() == Seq::<R>::empty(),
            s.passes() == passes,
    {
        Self { rules: Vec::new(), passes }
    }

    /// Adds `rule` behind the rules that the solver has.
    pub fn add_rule(&mut self, rule: R)
        ensures
            final(self).rules() == old(self).rules().push(rule),
            final(self).passes() == old(self).passes(),
    {
        self.rules.push(rule);
    }

    /// Runs the rules on `board`: passes of all rules in order, while the
    /// board is not full and passes are left. A contradiction ends the run at
    /// once and is returned; the board then is as the failing rule found it.
    /// A run that uses up its passes returns `Ok` like one that fills the
    /// board: which of the two happened, the board tells.
    pub fn solve(&self, board: &mut Board) -> (r: Result<(), Error>)
        requires
            old(board).wf(),
        ensures
            final(board).wf(),
            match run(self.rules(), old(board)@, self.passes()) {
                Ok(reached) => r is Ok && final(board)@ == reached,
                Err(halt) => r is Err && r->Err_0@ == halt.error && final(board)@ == halt.board,
            },
    {
        let mut i: u32 = 0;
        while i < self.passes && !board.fullfilled()
            invariant
                i <= self.passes,
                board.wf(),
                run(self.rules@, old(board)@, self.passes as nat) == run(
                    self.rules@,
                    board@,
                    (self.passes - i) as nat,
                ),
            decreases self.passes - i,
        {
            i += 1;
            let ghost start = board@;
            let mut j: usize = 0;
            while j < self.rules.len()
                invariant
                    j <= self.rules.len(),
                    0 < i <= self.passes,
                    board.wf(),
                    !start.fullfilled(),
                    run(self.rules@, old(board)@, self.passes as nat) == run(
                        self.rules@,
                        start,
                        (self.passes - i + 1) as nat,
                    ),
                    pass(self.rules@.take(j as int), start) == Ok::<BoardView, Halt>(board@),
                decreases self.rules.len() - j,
            {
                proof {
                    assert(self.rules@.take(j + 1).drop_last() =~= self.rules@.take(j as int));
                }
                match self.rules[j].apply(board) {
                    Ok(_) => {},
                    Err(error) => {
                        proof {
                            lemma_pass_halts(self.rules@, j + 1, start);
                        }
                        return Err(error);
                    },
                }
                j += 1;
            }
            assert(self.rules@.take(j as int) =~= self.rules@);
        }
        Ok(())
    }
}

/// A pass that halts within its first `m` rules halts there whatever follows.
pub proof fn lemma_pass_halts<R: Rule>(rules: Seq<R>, m: int, board: BoardView)
    requires
        0 <= m <= rules.len(),
        pass(rules.take(m), board) is Err,
    ensures
        pass(rules, board) == pass(rules.take(m), board),
    decreases rules.len(),
{
    if m < rules.len() {
        assert(rules.drop_last().take(m) =~= rules.take(m));
        lemma_pass_halts(rules.drop_last(), m, board);
    } else {
        assert(rules.take(m) =~= rules);
    }
}

impl<R: Rule> Default for Solver<R> {
    fn default() -> (s: Self)
        ensures
            s.rules() == Seq::<R>::empty(),
            s.passes() == DEFAULT_PASSES,
    {
        Self::new()
    }
}

/// The solver with the three rules in their default order: naked singles,
/// elimination, hidden singles.
pub fn make_solver() -> (s: Solver<StandardRule>)
    ensures
        s.rules() == standard_rules(),
        s.passes() == DEFAULT_PASSES,
{
    let mut solver = Solver::new();
    solver.add_rule(StandardRule::Single(SingleCandidate));
    solver.add_rule(StandardRule::Reduce(ReduceCandidates));
    solver.add_rule(StandardRule::Unique(UniqueCandidate));
    assert(solver.rules() =~= standard_rules());
    solver
}

} // verus!
