//! A group: the cells of one row, column or box, or of one of these without
//! the cell under analysis, read off a board to be asked about as a whole.

use crate::model::cell::{cell_text, Cell, CellView};
use crate::sets::absorb;
use std::collections::HashSet;
use vstd::prelude::*;
use vstd::string::StringExecFns;

verus! {

broadcast use vstd::std_specs::hash::group_hash_axioms;

/// The views of a sequence of cells, in order.
pub open spec fn views(cells: Seq<Cell>) -> Seq<CellView> {
    cells.map_values(|c: Cell| c@)
}

/// The values that some cell of `cells` is fixed to.
pub open spec fn numbers_of(cells: Seq<CellView>) -> Set<u32> {
    Set::new(|v: u32| exists|i: int| 0 <= i < cells.len() && cells[i] == CellView::Number(v))
}

/// The values that are a candidate of some cell of `cells`.
pub open spec fn candidates_of(cells: Seq<CellView>) -> Set<u32> {
    Set::new(|v: u32| exists|i: int| 0 <= i < cells.len() && cells[i].candidates().contains(v))
}

/// No value is the fixed number of two cells of `cells`.
pub open spec fn distinct_numbers(cells: Seq<CellView>) -> bool {
    forall|i: int, j: int|
        0 <= i < j < cells.len() && cells[i] is Number && cells[j] is Number ==> cells[i]
            != cells[j]
}

/// Every cell of `cells` is fixed.
pub open spec fn all_fixed(cells: Seq<CellView>) -> bool {
    forall|i: int| 0 <= i < cells.len() ==> cells[i] is Number
}

/// `cells` with `candidate` struck from every cell.
pub open spec fn all_without(cells: Seq<CellView>, candidate: u32) -> Seq<CellView> {
    cells.map_values(|c: CellView| c.without(candidate))
}

/// How a group is written: each cell as text, followed by a space and a
/// line break.
pub open spec fn group_text(cells: Seq<CellView>) -> Seq<char>
    decreases cells.len(),
{
    if cells.len() == 0 {
        Seq::empty()
    } else {
        group_text(cells.drop_last()) + cell_text(cells.last()) + seq![' ', '\n']
    }
}

/// What one more cell adds to the fixed values of a group.
pub proof fn lemma_numbers_push(cells: Seq<CellView>, cell: CellView)
    ensures
        numbers_of(cells.push(cell)) == match cell {
            CellView::Number(v) => numbers_of(cells).insert(v),
            CellView::Empty(_) => numbers_of(cells),
        },
{
    let more = cells.push(cell);
    let expected = match cell {
        CellView::Number(v) => numbers_of(cells).insert(v),
        CellView::Empty(_) => numbers_of(cells),
    };
    assert forall|v: u32| numbers_of(more).contains(v) <==> expected.contains(v) by {
        if numbers_of(more).contains(v) {
            let i = choose|i: int| 0 <= i < more.len() && more[i] == CellView::Number(v);
            if i < cells.len() {
                assert(cells[i] == CellView::Number(v));
            }
        }
        if numbers_of(cells).contains(v) {
            let i = choose|i: int| 0 <= i < cells.len() && cells[i] == CellView::Number(v);
            assert(more[i] == CellView::Number(v));
        }
        if cell == CellView::Number(v) {
            assert(more[cells.len() as int] == CellView::Number(v));
        }
    }
    assert(numbers_of(more) =~= expected);
}

/// What one more cell adds to the pooled candidates of a group.
pub proof fn lemma_candidates_push(cells: Seq<CellView>, cell: CellView)
    ensures
        candidates_of(cells.push(cell)) == candidates_of(cells).union(cell.candidates()),
{
    let more = cells.push(cell);
    let expected = candidates_of(cells).union(cell.candidates());
    assert forall|v: u32| candidates_of(more).contains(v) <==> expected.contains(v) by {
        if candidates_of(more).contains(v) {
            let i = choose|i: int| 0 <= i < more.len() && more[i].candidates().contains(v);
            if i < cells.len() {
                assert(cells[i].candidates().contains(v));
            }
        }
        if candidates_of(cells).contains(v) {
            let i = choose|i: int| 0 <= i < cells.len() && cells[i].candidates().contains(v);
            assert(more[i].candidates().contains(v));
        }
        if cell.candidates().contains(v) {
            assert(more[cells.len() as int].candidates().contains(v));
        }
    }
    assert(candidates_of(more) =~= expected);
}

/// Groups that agree cell by cell on what is fixed have the same fixed values.
pub proof fn lemma_numbers_agree(a: Seq<CellView>, b: Seq<CellView>)
    requires
        a.len() == b.len(),
        forall|k: int| 0 <= k < a.len() ==> a[k].number() == b[k].number(),
    ensures
        numbers_of(a) == numbers_of(b),
{
    assert forall|v: u32| numbers_of(a).contains(v) <==> numbers_of(b).contains(v) by {
        if numbers_of(a).contains(v) {
            let k = choose|k: int| 0 <= k < a.len() && a[k] == CellView::Number(v);
            assert(b[k].number() == a[k].number());
            assert(b[k] == CellView::Number(v));
        }
        if numbers_of(b).contains(v) {
            let k = choose|k: int| 0 <= k < b.len() && b[k] == CellView::Number(v);
            assert(a[k].number() == b[k].number());
            assert(a[k] == CellView::Number(v));
        }
    }
    assert(numbers_of(a) =~= numbers_of(b));
}

/// A group of cells, in the order in which they were read off the board.
#[derive(Debug)]
pub struct Group {
    cells: Vec<Cell>,
}

impl View for Group {
    type V = Seq<CellView>;

    closed spec fn view(&self) -> Seq<CellView> {
        views(self.cells@)
    }
}

impl Group {
    /// The group of `cells`, in their order.
    pub fn new(cells: Vec<Cell>) -> (g: Self)
        ensures
            g@ == views(cells@),
    {
        Self { cells }
    }

    /// Whether no value is fixed in two cells of the group.
    pub fn is_valid(&self) -> (r: bool)
        ensures
            r == distinct_numbers(self@),
    {
        let mut numbers: HashSet<u32> = HashSet::new();
        let mut i: usize = 0;
        while i < self.cells.len()
            invariant
                i <= self.cells.len(),
                numbers@ == numbers_of(self@.take(i as int)),
                distinct_numbers(self@.take(i as int)),
            decreases self.cells.len() - i,
        {
            let ghost seen = self@.take(i as int);
            let ghost next = self@.take(i + 1);
            proof {
                assert(next =~= seen.push(self@[i as int]));
                lemma_numbers_push(seen, self@[i as int]);
            }
            if let Some(number) = self.cells[i].number() {
                if numbers.contains(&number) {
                    proof {
                        let j = choose|j: int| 0 <= j < seen.len() && seen[j] == CellView::Number(number);
                        assert(self@[j] == self@[i as int]);
                    }
                    return false;
                }
                numbers.insert(number);
                assert forall|a: int, b: int|
                    0 <= a < b < next.len() && next[a] is Number && next[b] is Number implies next[a]
                    != next[b] by {
                    if b < i {
                        assert(seen[a] != seen[b]);
                    } else {
                        assert(seen[a] == self@[a]);
                    }
                }
            } else {
                assert forall|a: int, b: int|
                    0 <= a < b < next.len() && next[a] is Number && next[b] is Number implies next[a]
                    != next[b] by {
                    assert(seen[a] != seen[b]);
                }
            }
            i += 1;
        }
        assert(self@.take(i as int) =~= self@);
        true
    }

    /// Whether every cell of the group is fixed.
    pub fn is_solved(&self) -> (r: bool)
        ensures
            r == all_fixed(self@),
    {
        let mut i: usize = 0;
        while i < self.cells.len()
            invariant
                i <= self.cells.len(),
                forall|j: int| 0 <= j < i ==> self@[j] is Number,
            decreases self.cells.len() - i,
        {
            if self.cells[i].is_empty() {
                assert(!(self@[i as int] is Number));
                return false;
            }
            i += 1;
        }
        true
    }

    /// Strikes `candidate` from every cell of the group.
    pub fn remove_candidate(&mut self, candidate: u32)
        ensures
            final(self)@ == all_without(old(self)@, candidate),
    {
        let mut i: usize = 0;
        while i < self.cells.len()
            invariant
                i <= self.cells.len(),
                self.cells.len() == old(self).cells.len(),
                forall|j: int| 0 <= j < i ==> self@[j] == old(self)@[j].without(candidate),
                forall|j: int| i <= j < self.cells.len() ==> self@[j] == old(self)@[j],
            decreases self.cells.len() - i,
        {
            let ghost before = self.cells@;
            let ghost pre = self@;
            assert(pre == views(before));
            self.cells[i].remove_candidate(candidate);
            proof {
                assert(self.cells@.len() == before.len());
                assert(self.cells@[i as int]@ == before[i as int]@.without(candidate));
                assert(forall|j: int| 0 <= j < before.len() && j != i ==> self.cells@[j] == before[j]);
                assert forall|j: int| 0 <= j < i + 1 implies self@[j] == old(self)@[j].without(
                    candidate,
                ) by {
                    if j < i {
                        assert(pre[j] == old(self)@[j].without(candidate));
                    }
                }
                assert forall|j: int| i + 1 <= j < self.cells.len() implies self@[j] == old(self)@[j] by {
                    assert(pre[j] == old(self)@[j]);
                }
            }
            i += 1;
        }
        assert(self@ =~= all_without(old(self)@, candidate));
    }

    /// The values fixed in some cell of the group.
    pub fn numbers(&self) -> (r: HashSet<u32>)
        ensures
            r@ == numbers_of(self@),
    {
        let mut r: HashSet<u32> = HashSet::new();
        let mut i: usize = 0;
        while i < self.cells.len()
            invariant
                i <= self.cells.len(),
                r@ == numbers_of(self@.take(i as int)),
            decreases self.cells.len() - i,
        {
            proof {
                assert(self@.take(i + 1) =~= self@.take(i as int).push(self@[i as int]));
                lemma_numbers_push(self@.take(i as int), self@[i as int]);
            }
            if let Some(number) = self.cells[i].number() {
                r.insert(number);
            }
            i += 1;
        }
        assert(self@.take(i as int) =~= self@);
        r
    }

    /// The candidates of the group's undetermined cells, pooled.
    pub fn candidates(&self) -> (r: HashSet<u32>)
        ensures
            r@ == candidates_of(self@),
    {
        let mut r: HashSet<u32> = HashSet::new();
        let mut i: usize = 0;
        while i < self.cells.len()
            invariant
                i <= self.cells.len(),
                r@ == candidates_of(self@.take(i as int)),
            decreases self.cells.len() - i,
        {
            proof {
                assert(self@.take(i + 1) =~= self@.take(i as int).push(self@[i as int]));
                lemma_candidates_push(self@.take(i as int), self@[i as int]);
            }
            if let Some(candidates) = self.cells[i].candidates() {
                absorb(&mut r, candidates);
            }
            i += 1;
        }
        assert(self@.take(i as int) =~= self@);
        r
    }

    /// The group as text.
    pub fn render(&self) -> (s: String)
        ensures
            s@ == group_text(self@),
    {
        let mut s = String::new();
        let mut i: usize = 0;
        while i < self.cells.len()
            invariant
                i <= self.cells.len(),
                s@ == group_text(self@.take(i as int)),
            decreases self.cells.len() - i,
        {
            proof {
                reveal_strlit(" \n");
                assert(" \n"@ =~= seq![' ', '\n']);
                assert(self@.take(i + 1).drop_last() =~= self@.take(i as int));
            }
            let cell = self.cells[i].render();
            s.append(cell.as_str());
            s.append(" \n");
            i += 1;
        }
        assert(self@.take(i as int) =~= self@);
        s
    }
}

} // verus!
