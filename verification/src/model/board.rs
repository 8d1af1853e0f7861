//! The board: an N×N grid of cells with N = b², stored row by row.

use crate::model::cell::{cell_text, Cell, CellView};
use crate::model::group::{all_fixed, distinct_numbers, views, Group};
use crate::sets::copy_of;
use crate::text::{join, joined, texts};
use std::collections::HashSet;
use vstd::prelude::*;

verus! {

broadcast use vstd::std_specs::hash::group_hash_axioms;

/// The largest base for which the N² cells of a board can be counted in a `u32`.
pub const MAX_BASE: u32 = 255;

/// The values 1..=n.
pub open spec fn values_up_to(n: nat) -> Set<u32> {
    Set::new(|v: u32| 1 <= v <= n)
}

/// `s` without its element at `k`; `s` itself where it has no such element.
pub open spec fn skipping<T>(s: Seq<T>, k: int) -> Seq<T> {
    if 0 <= k < s.len() {
        s.remove(k)
    } else {
        s
    }
}

/// The mathematical value of a [`Board`]: its base and its cells, row by row.
pub struct BoardView {
    pub base: nat,
    pub cells: Seq<CellView>,
}

impl BoardView {
    /// The side length N = b².
    pub open spec fn side(self) -> nat {
        self.base * self.base
    }

    /// The board holds N² cells.
    pub open spec fn wf(self) -> bool {
        self.cells.len() == self.side() * self.side()
    }

    /// Whether (`row`, `col`) is a position of the grid.
    pub open spec fn inside(self, row: int, col: int) -> bool {
        0 <= row < self.side() && 0 <= col < self.side()
    }

    /// The cell at (`row`, `col`).
    pub open spec fn at(self, row: int, col: int) -> CellView
        recommends
            self.inside(row, col),
    {
        self.cells[row * self.side() + col]
    }

    /// The index of the cell in column `k` of row `row`.
    pub open spec fn row_index(self, row: int, k: int) -> int {
        row * self.side() + k
    }

    /// The index of the cell in row `k` of column `col`.
    pub open spec fn col_index(self, col: int, k: int) -> int {
        k * self.side() + col
    }

    /// The index of the `k`-th cell of the box that holds (`row`, `col`).
    pub open spec fn square_index(self, row: int, col: int, k: int) -> int {
        ((row / (self.base as int)) * self.base + k / (self.base as int)) * self.side() + (col / (
        self.base as int)) * self.base + k % (self.base as int)
    }

    /// The board with `cell` at (`row`, `col`).
    pub open spec fn with_cell(self, row: int, col: int, cell: CellView) -> BoardView
        recommends
            self.inside(row, col),
    {
        BoardView { base: self.base, cells: self.cells.update(row * self.side() + col, cell) }
    }

    /// The board of base `base` with every cell undetermined and every value a candidate.
    pub open spec fn blank(base: nat) -> BoardView {
        BoardView {
            base,
            cells: Seq::new(
                base * base * (base * base),
                |i: int| CellView::Empty(values_up_to(base * base)),
            ),
        }
    }

    /// The cells of row `row`, by column; empty where there is no such row.
    pub open spec fn row(self, row: int) -> Seq<CellView> {
        if 0 <= row < self.side() {
            Seq::new(self.side(), |c: int| self.at(row, c))
        } else {
            Seq::empty()
        }
    }

    /// The cells of column `col`, by row; empty where there is no such column.
    pub open spec fn col(self, col: int) -> Seq<CellView> {
        if 0 <= col < self.side() {
            Seq::new(self.side(), |r: int| self.at(r, col))
        } else {
            Seq::empty()
        }
    }

    /// The cells of the box that holds (`row`, `col`), row by row; empty where
    /// (`row`, `col`) is no position of the grid.
    pub open spec fn square(self, row: int, col: int) -> Seq<CellView> {
        if self.inside(row, col) {
            Seq::new(
                self.side(),
                |k: int|
                    self.at(
                        (row / (self.base as int)) * self.base + k / (self.base as int),
                        (col / (self.base as int)) * self.base + k % (self.base as int),
                    ),
            )
        } else {
            Seq::empty()
        }
    }

    /// Row `row` without the cell in column `col`.
    pub open spec fn row_except(self, row: int, col: int) -> Seq<CellView> {
        skipping(self.row(row), col)
    }

    /// Column `col` without the cell in row `row`.
    pub open spec fn col_except(self, row: int, col: int) -> Seq<CellView> {
        skipping(self.col(col), row)
    }

    /// The place of (`row`, `col`) among the cells of its box.
    pub open spec fn place_in_square(self, row: int, col: int) -> int {
        (row % (self.base as int)) * self.base + col % (self.base as int)
    }

    /// The box that holds (`row`, `col`) without that cell.
    pub open spec fn square_except(self, row: int, col: int) -> Seq<CellView> {
        skipping(self.square(row, col), self.place_in_square(row, col))
    }

    /// Every cell is fixed.
    pub open spec fn fullfilled(self) -> bool {
        all_fixed(self.cells)
    }

    /// No row, column or box holds a value twice among its fixed cells.
    pub open spec fn valid(self) -> bool {
        forall|k: int|
            0 <= k < self.side() ==> {
                &&& distinct_numbers(#[trigger] self.row(k))
                &&& distinct_numbers(self.col(k))
                &&& distinct_numbers(
                    self.square(
                        (k / (self.base as int)) * self.base,
                        (k % (self.base as int)) * self.base,
                    ),
                )
            }
    }
}

/// How a row is written: its cells as text, with a space between neighbours.
pub open spec fn row_text(cells: Seq<CellView>) -> Seq<char> {
    joined(cells.map_values(|c: CellView| cell_text(c)), seq![' '])
}

/// The rows of `board` as text, from the top.
pub open spec fn row_texts(board: BoardView) -> Seq<Seq<char>> {
    Seq::new(board.side(), |r: int| row_text(board.row(r)))
}

/// How a board is written: one line for each row, from the top, with a line
/// break between neighbours.
pub open spec fn board_text(board: BoardView) -> Seq<char> {
    joined(row_texts(board), seq!['\n'])
}

/// Positions of the grid have their index within the N² cells.
pub proof fn lemma_index_inside(side: nat, row: int, col: int)
    requires
        0 <= row < side,
        0 <= col < side,
    ensures
        0 <= row * side + col < side * side,
{
    assert(row * side + col < side * side) by (nonlinear_arith)
        requires
            0 <= row < side,
            0 <= col < side,
    ;
    assert(0 <= row * side) by (nonlinear_arith)
        requires
            0 <= row,
    ;
}

/// A base within [`MAX_BASE`] keeps N² within a `u32`.
pub proof fn lemma_base_bound(base: nat)
    requires
        base <= MAX_BASE,
    ensures
        base * base <= 65025,
        base * base * (base * base) <= 4228250625,
{
    assert(base * base <= 65025) by (nonlinear_arith)
        requires
            base <= 255,
    ;
    let side = base * base;
    assert(side * side <= 4228250625) by (nonlinear_arith)
        requires
            side <= 65025,
    ;
}

/// How `skipping` grows with the sequence.
pub proof fn lemma_skipping_push<T>(s: Seq<T>, x: T, k: int)
    ensures
        skipping(s.push(x), k) == if k == s.len() {
            s
        } else {
            skipping(s, k).push(x)
        },
{
    if k == s.len() {
        assert(skipping(s.push(x), k) =~= s);
    } else {
        assert(skipping(s.push(x), k) =~= skipping(s, k).push(x));
    }
}

/// The `k`-th cell of the box of (`row`, `col`) is a position of the grid.
pub proof fn lemma_square_cell(base: nat, row: int, col: int, k: int)
    requires
        0 <= row < base * base,
        0 <= col < base * base,
        0 <= k < base * base,
    ensures
        0 <= k / (base as int) < base,
        0 <= k % (base as int) < base,
        0 <= (row / (base as int)) * base + k / (base as int) < base * base,
        0 <= (col / (base as int)) * base + k % (base as int) < base * base,
{
    let b = base as int;
    if b == 0 {
        assert(b * b == 0) by (nonlinear_arith)
            requires
                b == 0,
        ;
    }
    vstd::arithmetic::div_mod::lemma_multiply_divide_lt(k, b, b);
    vstd::arithmetic::div_mod::lemma_multiply_divide_lt(row, b, b);
    vstd::arithmetic::div_mod::lemma_multiply_divide_lt(col, b, b);
    vstd::arithmetic::div_mod::lemma_div_pos_is_pos(k, b);
    vstd::arithmetic::div_mod::lemma_div_pos_is_pos(row, b);
    vstd::arithmetic::div_mod::lemma_div_pos_is_pos(col, b);
    vstd::arithmetic::div_mod::lemma_mod_pos_bound(k, b);
    let (qr, qc, i, j) = (row / b, col / b, k / b, k % b);
    assert(0 <= qr * b + i < b * b) by (nonlinear_arith)
        requires
            0 <= qr < b,
            0 <= i < b,
    ;
    assert(0 <= qc * b + j < b * b) by (nonlinear_arith)
        requires
            0 <= qc < b,
            0 <= j < b,
    ;
}

/// The `i`-th row and `j`-th column of a box make its cell `i * base + j`.
pub proof fn lemma_square_place(base: nat, i: int, j: int)
    requires
        0 <= i < base,
        0 <= j < base,
    ensures
        0 <= i * base + j < base * base,
        (i * base + j) / (base as int) == i,
        (i * base + j) % (base as int) == j,
{
    let b = base as int;
    vstd::arithmetic::div_mod::lemma_fundamental_div_mod_converse(i * b + j, b, i, j);
    assert(0 <= i * b + j < b * b) by (nonlinear_arith)
        requires
            0 <= i < b,
            0 <= j < b,
    ;
}

/// A position of the grid is the cell of its box that `place_in_square` names.
pub proof fn lemma_own_place(base: nat, row: int, col: int)
    requires
        0 <= row < base * base,
        0 <= col < base * base,
    ensures
        0 <= row % (base as int) < base,
        0 <= col % (base as int) < base,
        (row / (base as int)) * base + row % (base as int) == row,
        (col / (base as int)) * base + col % (base as int) == col,
{
    let b = base as int;
    if b == 0 {
        assert(b * b == 0) by (nonlinear_arith)
            requires
                b == 0,
        ;
    }
    vstd::arithmetic::div_mod::lemma_fundamental_div_mod(row, b);
    vstd::arithmetic::div_mod::lemma_fundamental_div_mod(col, b);
    vstd::arithmetic::div_mod::lemma_mod_pos_bound(row, b);
    vstd::arithmetic::div_mod::lemma_mod_pos_bound(col, b);
    assert(b * (row / b) == (row / b) * b) by (nonlinear_arith);
    assert(b * (col / b) == (col / b) * b) by (nonlinear_arith);
}

/// The cell with index `i` stands at row `i / N` and column `i % N`.
pub proof fn lemma_cell_position(board: BoardView, i: int)
    requires
        board.wf(),
        0 <= i < board.cells.len(),
    ensures
        board.inside(i / (board.side() as int), i % (board.side() as int)),
        (i / (board.side() as int)) * board.side() + i % (board.side() as int) == i,
        board.at(i / (board.side() as int), i % (board.side() as int)) == board.cells[i],
{
    let n = board.side() as int;
    if n == 0 {
        assert(n * n == 0) by (nonlinear_arith)
            requires
                n == 0,
        ;
    }
    vstd::arithmetic::div_mod::lemma_fundamental_div_mod(i, n);
    vstd::arithmetic::div_mod::lemma_mod_pos_bound(i, n);
    vstd::arithmetic::div_mod::lemma_div_pos_is_pos(i, n);
    vstd::arithmetic::div_mod::lemma_multiply_divide_lt(i, n, n);
    assert(n * (i / n) == (i / n) * n) by (nonlinear_arith);
}

/// The cells of the three groups of a position, by their index on the board.
pub proof fn lemma_group_cells(board: BoardView, row: int, col: int, k: int)
    requires
        board.wf(),
        board.inside(row, col),
        0 <= k < board.side(),
    ensures
        board.row(row).len() == board.side(),
        board.col(col).len() == board.side(),
        board.square(row, col).len() == board.side(),
        0 <= board.row_index(row, k) < board.cells.len(),
        0 <= board.col_index(col, k) < board.cells.len(),
        0 <= board.square_index(row, col, k) < board.cells.len(),
        board.row(row)[k] == board.cells[board.row_index(row, k)],
        board.col(col)[k] == board.cells[board.col_index(col, k)],
        board.square(row, col)[k] == board.cells[board.square_index(row, col, k)],
{
    lemma_index_inside(board.side(), row, k);
    lemma_index_inside(board.side(), k, col);
    lemma_square_cell(board.base, row, col, k);
    lemma_index_inside(
        board.side(),
        (row / (board.base as int)) * board.base + k / (board.base as int),
        (col / (board.base as int)) * board.base + k % (board.base as int),
    );
}

/// A position is a cell of its own row, column and box.
pub proof fn lemma_own_cells(board: BoardView, row: int, col: int)
    requires
        board.wf(),
        board.inside(row, col),
    ensures
        board.row_index(row, col) == row * board.side() + col,
        board.col_index(col, row) == row * board.side() + col,
        0 <= board.place_in_square(row, col) < board.side(),
        board.square_index(row, col, board.place_in_square(row, col)) == row * board.side() + col,
{
    lemma_own_place(board.base, row, col);
    lemma_square_place(board.base, row % (board.base as int), col % (board.base as int));
}

/// A Sudoku board. It owns its cells; groups are read off it on demand.
#[derive(Debug)]
pub struct Board {
    base_number: u32,
    board: Vec<Cell>,
}

impl View for Board {
    type V = BoardView;

    closed spec fn view(&self) -> BoardView {
        BoardView { base: self.base_number as nat, cells: views(self.board@) }
    }
}

impl Clone for Board {
    fn clone(&self) -> (r: Self)
        ensures
            r@ == self@,
    {
        let mut board: Vec<Cell> = Vec::new();
        let mut i: usize = 0;
        while i < self.board.len()
            invariant
                i <= self.board.len(),
                views(board@) == views(self.board@).take(i as int),
            decreases self.board.len() - i,
        {
            let ghost before = board@;
            let cell = self.board[i].clone();
            board.push(cell);
            assert(views(board@) =~= views(before).push(cell@));
            assert(views(board@) =~= views(self.board@).take(i + 1));
            i += 1;
        }
        assert(views(self.board@).take(i as int) =~= views(self.board@));
        Board { base_number: self.base_number, board }
    }
}

impl Board {
    /// The board holds the N² cells of its base, and N² fits a `u32`.
    pub open spec fn wf(&self) -> bool {
        self@.wf() && self@.base <= MAX_BASE
    }

    /// The blank board of base `base_number`: every cell undetermined, with
    /// all of 1..=N as candidates.
    pub fn new(base_number: u32) -> (b: Self)
        requires
            base_number <= MAX_BASE,
        ensures
            b.wf(),
            b@ == BoardView::blank(base_number as nat),
    {
        proof {
            lemma_base_bound(base_number as nat);
        }
        let sq_base: u32 = base_number * base_number;
        let mut all: HashSet<u32> = HashSet::new();
        let mut v: u32 = 0;
        while v < sq_base
            invariant
                v <= sq_base,
                all@ == values_up_to(v as nat),
            decreases sq_base - v,
        {
            v += 1;
            all.insert(v);
            assert(all@ =~= values_up_to(v as nat));
        }
        let count: u32 = sq_base * sq_base;
        let mut board: Vec<Cell> = Vec::new();
        let mut i: u32 = 0;
        while i < count
            invariant
                i <= count,
                all@ == values_up_to(sq_base as nat),
                board@.len() == i,
                forall|j: int| 0 <= j < i ==> (#[trigger] board@[j])@ == CellView::Empty(all@),
            decreases count - i,
        {
            board.push(Cell::Empty { candidates: copy_of(&all) });
            i += 1;
        }
        let b = Board { base_number, board };
        assert(b@.cells =~= BoardView::blank(base_number as nat).cells);
        b
    }

    /// The base b.
    pub fn base_number(&self) -> (r: u32)
        ensures
            r == self@.base,
    {
        self.base_number
    }

    /// The side length N = b².
    pub fn sq_base(&self) -> (r: u32)
        requires
            self.wf(),
        ensures
            r == self@.side(),
    {
        proof {
            lemma_base_bound(self.base_number as nat);
        }
        self.base_number * self.base_number
    }

    fn index(&self, row: u32, col: u32) -> (i: usize)
        requires
            self.wf(),
            self@.inside(row as int, col as int),
        ensures
            i == row * self@.side() + col,
            i < self@.cells.len(),
    {
        proof {
            lemma_base_bound(self.base_number as nat);
            lemma_index_inside(self@.side(), row as int, col as int);
        }
        let sq_base = self.sq_base();
        (row as usize) * (sq_base as usize) + (col as usize)
    }

    /// The cell at (`row`, `col`), where that is a position of the grid.
    pub fn get(&self, row: u32, col: u32) -> (r: Option<&Cell>)
        requires
            self.wf(),
        ensures
            match r {
                Some(cell) => self@.inside(row as int, col as int) && cell@ == self@.at(
                    row as int,
                    col as int,
                ),
                None => !self@.inside(row as int, col as int),
            },
    {
        let sq_base = self.sq_base();
        if row < sq_base && col < sq_base {
            let i = self.index(row, col);
            Some(&self.board[i])
        } else {
            None
        }
    }

    /// The cell at (`row`, `col`) for writing, where that is a position of the
    /// grid. What the caller leaves in the cell is what the board then holds there.
    pub fn get_mut(&mut self, row: u32, col: u32) -> (r: Option<&mut Cell>)
        requires
            old(self).wf(),
        ensures
            match r {
                Some(cell) => {
                    &&& old(self)@.inside(row as int, col as int)
                    &&& cell@ == old(self)@.at(row as int, col as int)
                    &&& final(self)@ == old(self)@.with_cell(row as int, col as int, final(cell)@)
                },
                None => !old(self)@.inside(row as int, col as int) && final(self)@ == old(self)@,
            },
    {
        let sq_base = self.sq_base();
        if row < sq_base && col < sq_base {
            let i = self.index(row, col);
            let ghost before = self.board@;
            let cell = &mut self.board[i];
            proof {
                let after = before.update(i as int, *final(cell));
                assert(views(after) =~= views(before).update(i as int, final(cell)@));
            }
            Some(cell)
        } else {
            None
        }
    }

    /// Whether no row, column or box holds a value twice among its fixed cells.
    pub fn is_valid(&self) -> (r: bool)
        requires
            self.wf(),
        ensures
            r == self@.valid(),
    {
        let sq_base = self.sq_base();
        let mut i: u32 = 0;
        while i < sq_base
            invariant
                i <= sq_base,
                sq_base == self@.side(),
                self.wf(),
                forall|k: int|
                    0 <= k < i ==> {
                        &&& distinct_numbers(#[trigger] self@.row(k))
                        &&& distinct_numbers(self@.col(k))
                        &&& distinct_numbers(
                            self@.square(
                                (k / (self@.base as int)) * self@.base,
                                (k % (self@.base as int)) * self@.base,
                            ),
                        )
                    },
            decreases sq_base - i,
        {
            proof {
                lemma_base_bound(self@.base);
                lemma_square_cell(self@.base, i as int, i as int, i as int);
                assert((i / self.base_number) * self.base_number <= i) by (nonlinear_arith)
                    requires
                        self.base_number > 0,
                ;
                assert((i % self.base_number) * self.base_number <= 65025) by (nonlinear_arith)
                    requires
                        0 <= i % self.base_number < self.base_number <= 255,
                ;
            }
            let top = (i / self.base_number) * self.base_number;
            let left = (i % self.base_number) * self.base_number;
            if !self.row(i).is_valid() || !self.col(i).is_valid() || !self.square(
                top,
                left,
            ).is_valid() {
                return false;
            }
            i += 1;
        }
        true
    }

    /// Puts `cells` in the place of the board's cells, row by row.
    pub(crate) fn replace_cells(&mut self, cells: Vec<Cell>)
        requires
            old(self).wf(),
            cells@.len() == old(self)@.cells.len(),
        ensures
            final(self).wf(),
            final(self)@ == (BoardView { base: old(self)@.base, cells: views(cells@) }),
    {
        self.board = cells;
    }

    /// Whether every cell is fixed.
    pub fn fullfilled(&self) -> (r: bool)
        ensures
            r == self@.fullfilled(),
    {
        let mut i: usize = 0;
        while i < self.board.len()
            invariant
                i <= self.board.len(),
                forall|j: int| 0 <= j < i ==> self@.cells[j] is Number,
            decreases self.board.len() - i,
        {
            if !self.board[i].is_number() {
                assert(!(self@.cells[i as int] is Number));
                return false;
            }
            i += 1;
        }
        true
    }
    /// The cells of row `row`.
    pub fn row(&self, row: u32) -> (g: Group)
        requires
            self.wf(),
        ensures
            g@ == self@.row(row as int),
    {
        let mut cells: Vec<Cell> = Vec::new();
        let sq_base = self.sq_base();
        let mut col: u32 = 0;
        while col < sq_base
            invariant
                col <= sq_base,
                sq_base == self@.side(),
                self.wf(),
                views(cells@) == self@.row(row as int).take(
                    if row < sq_base {
                        col as int
                    } else {
                        0
                    },
                ),
            decreases sq_base - col,
        {
            if let Some(cell) = self.get(row, col) {
                let ghost before = cells@;
                let cell = cell.clone();
                cells.push(cell);
                assert(views(cells@) =~= views(before).push(cell@));
                assert(views(cells@) =~= self@.row(row as int).take(col + 1));
            }
            col += 1;
        }
        assert(views(cells@) =~= self@.row(row as int));
        Group::new(cells)
    }

    /// The cells of row `row` but the one in column `col`.
    pub fn row_except_cell(&self, row: u32, col: u32) -> (g: Group)
        requires
            self.wf(),
        ensures
            g@ == self@.row_except(row as int, col as int),
    {
        let mut cells: Vec<Cell> = Vec::new();
        let sq_base = self.sq_base();
        let mut c: u32 = 0;
        while c < sq_base
            invariant
                c <= sq_base,
                sq_base == self@.side(),
                self.wf(),
                views(cells@) == skipping(
                    self@.row(row as int).take(
                        if row < sq_base {
                            c as int
                        } else {
                            0
                        },
                    ),
                    col as int,
                ),
            decreases sq_base - c,
        {
            if let Some(cell) = self.get(row, c) {
                let ghost before = cells@;
                let ghost seen = self@.row(row as int).take(c as int);
                proof {
                    assert(self@.row(row as int).take(c + 1) =~= seen.push(cell@));
                    lemma_skipping_push(seen, cell@, col as int);
                }
                if c != col {
                    let cell = cell.clone();
                    cells.push(cell);
                    assert(views(cells@) =~= views(before).push(cell@));
                }
            }
            c += 1;
        }
        assert(self@.row(row as int).take(self@.row(row as int).len() as int) =~= self@.row(
            row as int,
        ));
        Group::new(cells)
    }

    /// The cells of column `col`.
    pub fn col(&self, col: u32) -> (g: Group)
        requires
            self.wf(),
        ensures
            g@ == self@.col(col as int),
    {
        let mut cells: Vec<Cell> = Vec::new();
        let sq_base = self.sq_base();
        let mut row: u32 = 0;
        while row < sq_base
            invariant
                row <= sq_base,
                sq_base == self@.side(),
                self.wf(),
                views(cells@) == self@.col(col as int).take(
                    if col < sq_base {
                        row as int
                    } else {
                        0
                    },
                ),
            decreases sq_base - row,
        {
            if let Some(cell) = self.get(row, col) {
                let ghost before = cells@;
                let cell = cell.clone();
                cells.push(cell);
                assert(views(cells@) =~= views(before).push(cell@));
                assert(views(cells@) =~= self@.col(col as int).take(row + 1));
            }
            row += 1;
        }
        assert(views(cells@) =~= self@.col(col as int));
        Group::new(cells)
    }

    /// The cells of column `col` but the one in row `row`.
    pub fn col_except_cell(&self, row: u32, col: u32) -> (g: Group)
        requires
            self.wf(),
        ensures
            g@ == self@.col_except(row as int, col as int),
    {
        let mut cells: Vec<Cell> = Vec::new();
        let sq_base = self.sq_base();
        let mut r: u32 = 0;
        while r < sq_base
            invariant
                r <= sq_base,
                sq_base == self@.side(),
                self.wf(),
                views(cells@) == skipping(
                    self@.col(col as int).take(
                        if col < sq_base {
                            r as int
                        } else {
                            0
                        },
                    ),
                    row as int,
                ),
            decreases sq_base - r,
        {
            if let Some(cell) = self.get(r, col) {
                let ghost before = cells@;
                let ghost seen = self@.col(col as int).take(r as int);
                proof {
                    assert(self@.col(col as int).take(r + 1) =~= seen.push(cell@));
                    lemma_skipping_push(seen, cell@, row as int);
                }
                if r != row {
                    let cell = cell.clone();
                    cells.push(cell);
                    assert(views(cells@) =~= views(before).push(cell@));
                }
            }
            r += 1;
        }
        assert(self@.col(col as int).take(self@.col(col as int).len() as int) =~= self@.col(
            col as int,
        ));
        Group::new(cells)
    }

    /// The cells of the box that holds (`row`, `col`).
    pub fn square(&self, row: u32, col: u32) -> (g: Group)
        requires
            self.wf(),
        ensures
            g@ == self@.square(row as int, col as int),
    {
        let mut cells: Vec<Cell> = Vec::new();
        let sq_base = self.sq_base();
        if !(row < sq_base && col < sq_base) {
            assert(views(cells@) =~= self@.square(row as int, col as int));
            return Group::new(cells);
        }
        let base = self.base_number;
        proof {
            lemma_base_bound(self@.base);
            lemma_square_cell(self@.base, row as int, col as int, 0);
        }
        let top = (row / base) * base;
        let left = (col / base) * base;
        let ghost whole = self@.square(row as int, col as int);
        let mut i: u32 = 0;
        while i < base
            invariant
                i <= base,
                base == self@.base,
                sq_base == self@.side(),
                self.wf(),
                self@.inside(row as int, col as int),
                top == (row as int / (base as int)) * base,
                left == (col as int / (base as int)) * base,
                whole == self@.square(row as int, col as int),
                views(cells@) == whole.take(i * base),
            decreases base - i,
        {
            let mut j: u32 = 0;
            while j < base
                invariant
                    i < base,
                    j <= base,
                    base == self@.base,
                    sq_base == self@.side(),
                    self.wf(),
                    self@.inside(row as int, col as int),
                    top == (row as int / (base as int)) * base,
                    left == (col as int / (base as int)) * base,
                    whole == self@.square(row as int, col as int),
                    views(cells@) == whole.take(i * base + j),
                decreases base - j,
            {
                proof {
                    lemma_square_place(self@.base, i as int, j as int);
                    lemma_square_cell(self@.base, row as int, col as int, i * base + j);
                }
                if let Some(cell) = self.get(top + i, left + j) {
                    let ghost before = cells@;
                    let cell = cell.clone();
                    cells.push(cell);
                    assert(views(cells@) =~= views(before).push(cell@));
                    assert(views(cells@) =~= whole.take(i * base + j + 1));
                }
                j += 1;
            }
            assert(i * base + base == (i + 1) * base) by (nonlinear_arith);
            i += 1;
        }
        assert(views(cells@) =~= whole);
        Group::new(cells)
    }

    /// The cells of the box that holds (`row`, `col`) but that cell.
    pub fn square_except_cell(&self, row: u32, col: u32) -> (g: Group)
        requires
            self.wf(),
        ensures
            g@ == self@.square_except(row as int, col as int),
    {
        let mut cells: Vec<Cell> = Vec::new();
        let sq_base = self.sq_base();
        if !(row < sq_base && col < sq_base) {
            assert(views(cells@) =~= self@.square_except(row as int, col as int));
            return Group::new(cells);
        }
        let base = self.base_number;
        proof {
            lemma_base_bound(self@.base);
            lemma_square_cell(self@.base, row as int, col as int, 0);
            lemma_own_place(self@.base, row as int, col as int);
        }
        let top = (row / base) * base;
        let left = (col / base) * base;
        let ghost whole = self@.square(row as int, col as int);
        let ghost own = self@.place_in_square(row as int, col as int);
        let mut i: u32 = 0;
        while i < base
            invariant
                i <= base,
                base == self@.base,
                sq_base == self@.side(),
                self.wf(),
                self@.inside(row as int, col as int),
                top == (row as int / (base as int)) * base,
                left == (col as int / (base as int)) * base,
                top + row as int % (base as int) == row,
                left + col as int % (base as int) == col,
                whole == self@.square(row as int, col as int),
                own == self@.place_in_square(row as int, col as int),
                views(cells@) == skipping(whole.take(i * base), own),
            decreases base - i,
        {
            let mut j: u32 = 0;
            while j < base
                invariant
                    i < base,
                    j <= base,
                    base == self@.base,
                    sq_base == self@.side(),
                    self.wf(),
                    self@.inside(row as int, col as int),
                    top == (row as int / (base as int)) * base,
                    left == (col as int / (base as int)) * base,
                    top + row as int % (base as int) == row,
                    left + col as int % (base as int) == col,
                    whole == self@.square(row as int, col as int),
                    own == self@.place_in_square(row as int, col as int),
                    views(cells@) == skipping(whole.take(i * base + j), own),
                decreases base - j,
            {
                proof {
                    lemma_square_place(self@.base, i as int, j as int);
                    lemma_square_cell(self@.base, row as int, col as int, i * base + j);
                    lemma_own_place(self@.base, row as int, col as int);
                    lemma_square_place(
                        self@.base,
                        row as int % (base as int),
                        col as int % (base as int),
                    );
                }
                if let Some(cell) = self.get(top + i, left + j) {
                    let ghost before = cells@;
                    let ghost seen = whole.take(i * base + j);
                    proof {
                        assert(whole.take(i * base + j + 1) =~= seen.push(cell@));
                        lemma_skipping_push(seen, cell@, own);
                    }
                    if top + i != row || left + j != col {
                        let cell = cell.clone();
                        cells.push(cell);
                        assert(views(cells@) =~= views(before).push(cell@));
                    }
                }
                j += 1;
            }
            assert(i * base + base == (i + 1) * base) by (nonlinear_arith);
            i += 1;
        }
        assert(whole.take(base * base) =~= whole);
        Group::new(cells)
    }

    /// The board as text.
    pub fn render(&self) -> (s: String)
        requires
            self.wf(),
        ensures
            s@ == board_text(self@),
    {
        let sq_base = self.sq_base();
        let mut lines: Vec<String> = Vec::new();
        let mut row: u32 = 0;
        while row < sq_base
            invariant
                row <= sq_base,
                sq_base == self@.side(),
                self.wf(),
                texts(lines@) == row_texts(self@).take(row as int),
            decreases sq_base - row,
        {
            let mut parts: Vec<String> = Vec::new();
            let ghost cells = self@.row(row as int);
            let ghost written = cells.map_values(|c: CellView| cell_text(c));
            let mut col: u32 = 0;
            while col < sq_base
                invariant
                    row < sq_base,
                    col <= sq_base,
                    sq_base == self@.side(),
                    self.wf(),
                    cells == self@.row(row as int),
                    written == cells.map_values(|c: CellView| cell_text(c)),
                    texts(parts@) == written.take(col as int),
                decreases sq_base - col,
            {
                let ghost before = parts@;
                let part = self.get(row, col).unwrap().render();
                parts.push(part);
                assert(texts(parts@) =~= texts(before).push(part@));
                assert(texts(parts@) =~= written.take(col + 1));
                col += 1;
            }
            proof {
                reveal_strlit(" ");
                assert(" "@ =~= seq![' ']);
                assert(written.take(col as int) =~= written);
            }
            let ghost before = lines@;
            let line = join(&parts, " ");
            lines.push(line);
            assert(texts(lines@) =~= texts(before).push(line@));
            assert(texts(lines@) =~= row_texts(self@).take(row + 1));
            row += 1;
        }
        proof {
            reveal_strlit("\n");
            assert("\n"@ =~= seq!['\n']);
            assert(row_texts(self@).take(row as int) =~= row_texts(self@));
        }
        join(&lines, "\n")
    }
}

} // verus!
