//! One grid position: a fixed number, or the candidates still possible.

use crate::sets::{ascending, copy_of, sorted};
use crate::text::{decimal, join, joined, number_text, texts};
use std::collections::HashSet;
use vstd::prelude::*;
use vstd::string::StringExecFns;

verus! {

broadcast use vstd::std_specs::hash::group_hash_axioms;

/// The mathematical value of a [`Cell`].
pub enum CellView {
    /// Undetermined, with the set of values still possible.
    Empty(Set<u32>),
    /// Fixed to a value.
    Number(u32),
}

impl CellView {
    /// The fixed value, if there is one.
    pub open spec fn number(self) -> Option<u32> {
        match self {
            CellView::Number(n) => Some(n),
            CellView::Empty(_) => None,
        }
    }

    /// The candidates of an undetermined cell; a fixed cell has none.
    pub open spec fn candidates(self) -> Set<u32> {
        match self {
            CellView::Empty(s) => s,
            CellView::Number(_) => Set::empty(),
        }
    }

    /// The cell without `candidate` among its candidates; a fixed cell stays as it is.
    pub open spec fn without(self, candidate: u32) -> CellView {
        match self {
            CellView::Empty(s) => CellView::Empty(s.remove(candidate)),
            CellView::Number(n) => CellView::Number(n),
        }
    }
}

/// The numerals of `values`, in order.
pub open spec fn numerals(values: Seq<u32>) -> Seq<Seq<char>> {
    values.map_values(|v: u32| decimal(v as nat))
}

/// How a cell is written: a fixed cell as its numeral, an undetermined one
/// as its candidates in ascending order, separated by commas, in brackets.
pub open spec fn cell_text(cell: CellView) -> Seq<char> {
    match cell {
        CellView::Number(n) => decimal(n as nat),
        CellView::Empty(candidates) => seq!['['] + joined(numerals(ascending(candidates)), seq![','])
            + seq![']'],
    }
}

/// A cell of the grid. It validates nothing: which numbers and candidates are
/// legal is for the rules that write it.
#[derive(Debug, PartialEq)]
pub enum Cell {
    Empty { candidates: HashSet<u32> },
    Number(u32),
}

impl View for Cell {
    type V = CellView;

    open spec fn view(&self) -> CellView {
        match self {
            Cell::Empty { candidates } => CellView::Empty(candidates@),
            Cell::Number(n) => CellView::Number(*n),
        }
    }
}

impl Clone for Cell {
    fn clone(&self) -> (r: Self)
        ensures
            r@ == self@,
    {
        match self {
            Cell::Empty { candidates } => Cell::Empty { candidates: copy_of(candidates) },
            Cell::Number(n) => Cell::Number(*n),
        }
    }
}

impl Cell {
    /// Whether the cell is still undetermined.
    pub fn is_empty(&self) -> (r: bool)
        ensures
            r == (self@ is Empty),
    {
        matches!(self, Cell::Empty { .. })
    }

    /// Whether the cell is fixed.
    pub fn is_number(&self) -> (r: bool)
        ensures
            r == (self@ is Number),
    {
        matches!(self, Cell::Number(_))
    }

    /// The fixed value, if the cell has one.
    pub fn number(&self) -> (r: Option<u32>)
        ensures
            r == self@.number(),
    {
        match self {
            Cell::Number(n) => Some(*n),
            _ => None,
        }
    }

    /// The candidate set of an undetermined cell.
    pub fn candidates(&self) -> (r: Option<&HashSet<u32>>)
        ensures
            match r {
                Some(s) => self@ == CellView::Empty(s@),
                None => self@ is Number,
            },
    {
        match self {
            Cell::Empty { candidates } => Some(candidates),
            _ => None,
        }
    }

    /// Strikes `candidate` from the candidates. Nothing changes where the cell
    /// is fixed or `candidate` was no candidate.
    pub fn remove_candidate(&mut self, candidate: u32)
        ensures
            final(self)@ == old(self)@.without(candidate),
    {
        if let Cell::Empty { candidates } = self {
            candidates.remove(&candidate);
        }
    }

    /// Fixes the cell to `number`, whatever it held.
    pub fn set_number(&mut self, number: u32)
        ensures
            final(self)@ == CellView::Number(number),
    {
        *self = Cell::Number(number);
    }

    /// Makes the cell undetermined with exactly `candidates`.
    pub fn set_candidates(&mut self, candidates: HashSet<u32>)
        ensures
            final(self)@ == CellView::Empty(candidates@),
    {
        *self = Cell::Empty { candidates };
    }

    /// The cell as text.
    pub fn render(&self) -> (s: String)
        ensures
            s@ == cell_text(self@),
    {
        match self {
            Cell::Number(n) => number_text(*n),
            Cell::Empty { candidates } => {
                let order = sorted(candidates);
                let mut parts: Vec<String> = Vec::new();
                let mut i: usize = 0;
                while i < order.len()
                    invariant
                        i <= order.len(),
                        texts(parts@) == numerals(order@.take(i as int)),
                    decreases order.len() - i,
                {
                    let ghost before = parts@;
                    let part = number_text(order[i]);
                    parts.push(part);
                    assert(texts(parts@) =~= texts(before).push(part@));
                    assert(texts(parts@) =~= numerals(order@.take(i + 1)));
                    i += 1;
                }
                assert(order@.take(i as int) =~= order@);
                proof {
                    reveal_strlit("[");
                    reveal_strlit(",");
                    reveal_strlit("]");
                }
                let inner = join(&parts, ",");
                let mut s = String::from_str("[");
                s.append(inner.as_str());
                s.append("]");
                assert("["@ =~= seq!['[']);
                assert(","@ =~= seq![',']);
                assert("]"@ =~= seq![']']);
                s
            },
        }
    }
}

} // verus!
