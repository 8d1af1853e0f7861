//! Reading a board from text.
//!
//! The first line holds the base b. Each further line holds one row of the
//! board, from the top: its cells from the left, separated by white space. A
//! token that is a numeral of a value in 1..=N fixes its cell to that value;
//! any other token leaves its cell undetermined, with every value a candidate.

use crate::model::board::{values_up_to, Board, BoardView, MAX_BASE};
use crate::model::cell::CellView;
use vstd::prelude::*;

verus! {

/// White space, as Unicode defines it.
pub open spec fn is_space(c: char) -> bool {
    let u = c as u32;
    ||| 0x09 <= u <= 0x0D
    ||| u == 0x20
    ||| u == 0x85
    ||| u == 0xA0
    ||| u == 0x1680
    ||| 0x2000 <= u <= 0x200A
    ||| u == 0x2028
    ||| u == 0x2029
    ||| u == 0x202F
    ||| u == 0x205F
    ||| u == 0x3000
}

/// A line break.
pub open spec fn is_break(c: char) -> bool {
    c == '\n'
}

/// The number of characters of `s` before the first that `stop` holds of.
pub open spec fn span(s: Seq<char>, stop: spec_fn(char) -> bool) -> int
    decreases s.len(),
{
    if s.len() == 0 || stop(s[0]) {
        0
    } else {
        1 + span(s.drop_first(), stop)
    }
}

/// `s` without a carriage return at its end.
pub open spec fn without_return(s: Seq<char>) -> Seq<char> {
    if s.len() > 0 && s.last() == '\r' {
        s.drop_last()
    } else {
        s
    }
}

/// The lines of `s`. A line ends at a line break, or at a carriage return
/// followed by one; the last line needs no ending, and after the last ending
/// no empty line follows.
pub open spec fn lines(s: Seq<char>) -> Seq<Seq<char>>
    decreases s.len(),
{
    let k = span(s, |c: char| is_break(c));
    if s.len() == 0 {
        Seq::empty()
    } else if 0 <= k < s.len() {
        seq![without_return(s.take(k))] + lines(s.skip(k + 1))
    } else {
        seq![s]
    }
}

/// The tokens of `s`: its longest runs of characters that are no white space.
pub open spec fn tokens(s: Seq<char>) -> Seq<Seq<char>>
    decreases s.len(),
{
    let k = span(s, |c: char| is_space(c));
    if s.len() == 0 {
        Seq::empty()
    } else if is_space(s[0]) {
        tokens(s.drop_first())
    } else if 0 < k <= s.len() {
        seq![s.take(k)] + tokens(s.skip(k))
    } else {
        Seq::empty()
    }
}

/// The value of a decimal digit.
pub open spec fn digit_value(c: char) -> Option<nat> {
    let u = c as u32;
    if 0x30 <= u <= 0x39 {
        Some((u - 0x30) as nat)
    } else {
        None
    }
}

/// Every character of `s` is a decimal digit.
pub open spec fn all_digits(s: Seq<char>) -> bool {
    forall|i: int| 0 <= i < s.len() ==> digit_value(#[trigger] s[i]) is Some
}

/// The value of a sequence of decimal digits.
pub open spec fn value_of(s: Seq<char>) -> nat
    decreases s.len(),
{
    if s.len() == 0 {
        0
    } else {
        value_of(s.drop_last()) * 10 + digit_value(s.last()).unwrap_or(0)
    }
}

/// `s` after a plus sign at its start, if it has one.
pub open spec fn unsigned(s: Seq<char>) -> Seq<char> {
    if s.len() > 0 && s[0] == '+' {
        s.drop_first()
    } else {
        s
    }
}

/// The number that `s` is a numeral of: one or more decimal digits, with or
/// without a plus sign before them, of a value that fits a `u32`.
pub open spec fn number(s: Seq<char>) -> Option<u32> {
    let digits = unsigned(s);
    if digits.len() > 0 && all_digits(digits) && value_of(digits) <= u32::MAX {
        Some(value_of(digits) as u32)
    } else {
        None
    }
}

/// Why a text is no board.
#[derive(Debug, Clone, Copy, PartialEq, Eq)]
pub enum ParseError {
    /// The text has no first line.
    MissingBase,
    /// The first line is no numeral.
    InvalidBase,
    /// The base is above [`MAX_BASE`].
    BaseTooLarge,
    /// A token stands where the board has no cell: in a row below the last,
    /// or in a column right of the last.
    OutsideBoard,
}

/// Row `row` of `rows` has a token for column `col`.
pub open spec fn has_token(rows: Seq<Seq<char>>, row: int, col: int) -> bool {
    0 <= row < rows.len() && 0 <= col < tokens(rows[row]).len()
}

/// The value that `rows` give for the cell at (`row`, `col`) of a board of
/// side `side`, if they give one.
pub open spec fn given(rows: Seq<Seq<char>>, side: nat, row: int, col: int) -> Option<u32> {
    if has_token(rows, row, col) {
        match number(tokens(rows[row])[col]) {
            Some(v) => if 1 <= v <= side {
                Some(v)
            } else {
                None
            },
            None => None,
        }
    } else {
        None
    }
}

/// The cell that `value` makes on a board of side `side`.
pub open spec fn cell_of(value: Option<u32>, side: nat) -> CellView {
    match value {
        Some(v) => CellView::Number(v),
        None => CellView::Empty(values_up_to(side)),
    }
}

/// Some token of `rows` stands outside a board of side `side`.
pub open spec fn overflows(rows: Seq<Seq<char>>, side: nat) -> bool {
    exists|row: int, col: int| #[trigger] has_token(rows, row, col) && (row >= side || col >= side)
}

/// The board of base `base` that `rows` describe.
pub open spec fn filled(base: nat, rows: Seq<Seq<char>>) -> BoardView {
    let side = base * base;
    BoardView {
        base,
        cells: Seq::new(
            side * side,
            |i: int| cell_of(given(rows, side, i / (side as int), i % (side as int)), side),
        ),
    }
}

/// The board that `text` describes, or why it describes none.
pub open spec fn parse(text: Seq<char>) -> Result<BoardView, ParseError> {
    let all = lines(text);
    if all.len() == 0 {
        Err(ParseError::MissingBase)
    } else {
        match number(all[0]) {
            None => Err(ParseError::InvalidBase),
            Some(base) => if base > MAX_BASE {
                Err(ParseError::BaseTooLarge)
            } else if overflows(all.drop_first(), (base * base) as nat) {
                Err(ParseError::OutsideBoard)
            } else {
                Ok(filled(base as nat, all.drop_first()))
            },
        }
    }
}

/// What of `rows` a reader has put on the board when it has read the rows
/// above `row` and, of row `row`, the columns left of `col`.
pub open spec fn filled_upto(base: nat, rows: Seq<Seq<char>>, row: int, col: int) -> Seq<CellView> {
    let side = base * base;
    Seq::new(
        side * side,
        |i: int|
            {
                let (r, c) = (i / (side as int), i % (side as int));
                if r < row || (r == row && c < col) {
                    cell_of(given(rows, side, r, c), side)
                } else {
                    CellView::Empty(values_up_to(side))
                }
            },
    )
}

/// No token among the rows above `row` and, of row `row`, the columns left of
/// `col` stands outside a board of side `side`.
pub open spec fn fits_upto(rows: Seq<Seq<char>>, side: nat, row: int, col: int) -> bool {
    forall|r: int, c: int|
        #[trigger] has_token(rows, r, c) && (r < row || (r == row && c < col)) ==> r < side && c
            < side
}

/// A value that can be read from text.
pub trait Input: Sized {
    /// Why a text is no such value.
    type Error;

    /// The value that `text` describes.
    fn read(text: &str) -> Result<Self, Self::Error>;
}

impl Input for Board {
    type Error = ParseError;

    /// The board that `text` describes.
    fn read(text: &str) -> (r: Result<Board, ParseError>)
        ensures
            match r {
                Ok(board) => board.wf() && parse(text@) == Ok::<BoardView, ParseError>(board@),
                Err(error) => parse(text@) == Err::<BoardView, ParseError>(error),
            },
    {
        let chars = characters(text);
        let all = split_lines(&chars);
        assert(all@.len() == lines(text@).len());
        if all.len() == 0 {
            return Err(ParseError::MissingBase);
        }
        assert(spelled(all@)[0] == all@[0]@);
        let base = match parse_number(&all[0]) {
            Some(base) => base,
            None => {
                return Err(ParseError::InvalidBase);
            },
        };
        if base > MAX_BASE {
            return Err(ParseError::BaseTooLarge);
        }
        let mut board = Board::new(base);
        let sq_base = board.sq_base();
        let ghost rows = lines(text@).drop_first();
        let ghost side = (base * base) as nat;
        proof {
            crate::model::board::lemma_base_bound(base as nat);
            assert(board@.cells =~= filled_upto(base as nat, rows, 0, 0));
        }
        let mut row: usize = 0;
        while row + 1 < all.len()
            invariant
                row + 1 <= all.len(),
                spelled(all@) == lines(text@),
                lines(text@).len() > 0,
                number(lines(text@)[0]) == Some(base),
                rows == lines(text@).drop_first(),
                side == base * base,
                sq_base == side,
                base <= MAX_BASE,
                board.wf(),
                board@.base == base,
                board@.cells == filled_upto(base as nat, rows, row as int, 0),
                fits_upto(rows, side, row as int, 0),
            decreases all.len() - row,
        {
            let found = split_tokens(&all[row + 1]);
            assert(spelled(found@) == tokens(rows[row as int])) by {
                assert(spelled(all@)[row + 1] == all@[row + 1]@);
            }
            let mut col: usize = 0;
            while col < found.len()
                invariant
                    row + 1 < all.len(),
                    col <= found.len(),
                    lines(text@).len() > 0,
                    number(lines(text@)[0]) == Some(base),
                    rows == lines(text@).drop_first(),
                    rows.len() == all.len() - 1,
                    spelled(found@) == tokens(rows[row as int]),
                    side == base * base,
                    sq_base == side,
                    base <= MAX_BASE,
                    board.wf(),
                    board@.base == base,
                    board@.cells == filled_upto(base as nat, rows, row as int, col as int),
                    fits_upto(rows, side, row as int, col as int),
                decreases found.len() - col,
            {
                assert(has_token(rows, row as int, col as int));
                assert(spelled(found@)[col as int] == found@[col as int]@);
                if row >= sq_base as usize || col >= sq_base as usize {
                    assert(overflows(rows, side));
                    return Err(ParseError::OutsideBoard);
                }
                let ghost before = board@;
                let value = match parse_number(&found[col]) {
                    Some(n) => if 1 <= n && n <= sq_base {
                        Some(n)
                    } else {
                        None
                    },
                    None => None,
                };
                assert(value == given(rows, side, row as int, col as int));
                if let Some(n) = value {
                    if let Some(cell) = board.get_mut(row as u32, col as u32) {
                        cell.set_number(n);
                    }
                }
                proof {
                    crate::model::board::lemma_index_inside(side, row as int, col as int);
                    crate::rules::lemma_position(side, row as int, col as int);
                    let here = row * side + col;
                    assert(before.cells[here] == CellView::Empty(values_up_to(side)));
                    assert(board@.cells =~= before.cells.update(
                        here,
                        cell_of(value, side),
                    ));
                    assert forall|i: int| 0 <= i < side * side implies board@.cells[i]
                        == filled_upto(base as nat, rows, row as int, col + 1)[i] by {
                        vstd::arithmetic::div_mod::lemma_fundamental_div_mod(i, side as int);
                        let (r, c) = (i / (side as int), i % (side as int));
                        if r == row && c == col {
                            assert(i == here) by (nonlinear_arith)
                                requires
                                    i == side * r + c,
                                    here == row * side + col,
                                    r == row,
                                    c == col,
                            ;
                        }
                    }
                    assert(board@.cells =~= filled_upto(base as nat, rows, row as int, col + 1));
                }
                col += 1;
            }
            proof {
                assert forall|i: int| 0 <= i < side * side implies filled_upto(
                    base as nat,
                    rows,
                    row as int,
                    col as int,
                )[i] == filled_upto(base as nat, rows, row + 1, 0)[i] by {
                    let (r, c) = (i / (side as int), i % (side as int));
                    if r == row && c >= col {
                        assert(!has_token(rows, r, c));
                    }
                }
                assert(board@.cells =~= filled_upto(base as nat, rows, row + 1, 0));
                assert forall|r: int, c: int|
                    #[trigger] has_token(rows, r, c) && (r < row + 1 || (r == row + 1 && c < 0))
                    implies r < side && c < side by {
                    if r == row {
                        assert(c < col);
                    }
                }
            }
            row += 1;
        }
        proof {
            assert(rows.len() == all.len() - 1);
            assert forall|i: int| 0 <= i < side * side implies filled_upto(
                base as nat,
                rows,
                row as int,
                0,
            )[i] == filled(base as nat, rows).cells[i] by {
                let (r, c) = (i / (side as int), i % (side as int));
                if r >= row {
                    assert(!has_token(rows, r, c));
                }
            }
            assert(board@.cells =~= filled(base as nat, rows).cells);
            assert(!overflows(rows, side));
        }
        Ok(board)
    }
}

/// The span of `s` is `k` where `stop` holds of none of the first `k`
/// characters and `s` ends there or `stop` holds of the next.
pub proof fn lemma_span(s: Seq<char>, stop: spec_fn(char) -> bool, k: int)
    requires
        0 <= k <= s.len(),
        forall|j: int| 0 <= j < k ==> !stop(#[trigger] s[j]),
        k == s.len() || stop(s[k]),
    ensures
        span(s, stop) == k,
    decreases k,
{
    if k > 0 {
        let rest = s.drop_first();
        assert forall|j: int| 0 <= j < k - 1 implies !stop(#[trigger] rest[j]) by {
            assert(rest[j] == s[j + 1]);
        }
        lemma_span(rest, stop, k - 1);
    }
}

/// The value of digits grows with each digit that follows.
pub proof fn lemma_value_grows(s: Seq<char>, k: int)
    requires
        0 <= k <= s.len(),
    ensures
        value_of(s.take(k)) <= value_of(s),
    decreases s.len(),
{
    if k < s.len() {
        assert(s.drop_last().take(k) =~= s.take(k));
        lemma_value_grows(s.drop_last(), k);
    } else {
        assert(s.take(k) =~= s);
    }
}

/// The character sequences of `parts`, in order.
pub open spec fn spelled(parts: Seq<Vec<char>>) -> Seq<Seq<char>> {
    parts.map_values(|p: Vec<char>| p@)
}

/// Whether `c` is white space.
pub fn space(c: char) -> (r: bool)
    ensures
        r == is_space(c),
{
    let u = c as u32;
    (0x09 <= u && u <= 0x0D) || u == 0x20 || u == 0x85 || u == 0xA0 || u == 0x1680 || (0x2000 <= u
        && u <= 0x200A) || u == 0x2028 || u == 0x2029 || u == 0x202F || u == 0x205F || u
        == 0x3000
}

/// The characters of `text`.
pub fn characters(text: &str) -> (r: Vec<char>)
    ensures
        r@ == text@,
{
    let mut r: Vec<char> = Vec::new();
    for c in it: text.chars()
        invariant
            it.seq() == text@,
            r@.len() == it.index(),
            forall|j: int| 0 <= j < r@.len() ==> r@[j] == text@[j],
    {
        r.push(c);
    }
    assert(r@ =~= text@);
    r
}

/// The characters of `chars` from `from` up to `to`.
pub fn piece(chars: &Vec<char>, from: usize, to: usize) -> (r: Vec<char>)
    requires
        from <= to <= chars.len(),
    ensures
        r@ == chars@.subrange(from as int, to as int),
{
    let mut r: Vec<char> = Vec::new();
    let mut i: usize = from;
    while i < to
        invariant
            from <= i <= to <= chars.len(),
            r@ == chars@.subrange(from as int, i as int),
        decreases to - i,
    {
        r.push(chars[i]);
        assert(r@ =~= chars@.subrange(from as int, i + 1));
        i += 1;
    }
    r
}

/// The lines of `chars`.
pub fn split_lines(chars: &Vec<char>) -> (r: Vec<Vec<char>>)
    ensures
        spelled(r@) == lines(chars@),
{
    let mut r: Vec<Vec<char>> = Vec::new();
    let mut i: usize = 0;
    assert(chars@.skip(0) =~= chars@);
    while i < chars.len()
        invariant
            i <= chars.len(),
            lines(chars@) == spelled(r@) + lines(chars@.skip(i as int)),
        decreases chars.len() - i,
    {
        let ghost rest = chars@.skip(i as int);
        let mut j: usize = i;
        while j < chars.len() && chars[j] != '\n'
            invariant
                i <= j <= chars.len(),
                rest == chars@.skip(i as int),
                forall|k: int| 0 <= k < j - i ==> !is_break(#[trigger] rest[k]),
            decreases chars.len() - j,
        {
            j += 1;
        }
        proof {
            lemma_span(rest, |c: char| is_break(c), j - i);
        }
        let ghost before = r@;
        if j == chars.len() {
            let line = piece(chars, i, j);
            r.push(line);
            proof {
                assert(line@ =~= rest);
                assert(spelled(r@) =~= spelled(before).push(rest));
                assert(chars@.skip(j as int) =~= Seq::<char>::empty());
                assert(lines(rest) =~= seq![rest]);
            }
            i = j;
        } else {
            let end = if i < j && chars[j - 1] == '\r' {
                j - 1
            } else {
                j
            };
            let line = piece(chars, i, end);
            r.push(line);
            proof {
                assert(rest.take(j - i) =~= chars@.subrange(i as int, j as int));
                assert(line@ =~= without_return(rest.take(j - i)));
                assert(rest.skip(j - i + 1) =~= chars@.skip(j + 1));
                assert(spelled(r@) =~= spelled(before).push(line@));
                assert(lines(rest) =~= seq![line@] + lines(chars@.skip(j + 1)));
            }
            i = j + 1;
        }
    }
    assert(chars@.skip(i as int) =~= Seq::<char>::empty());
    assert(spelled(r@) + Seq::<Seq<char>>::empty() =~= spelled(r@));
    r
}

/// The tokens of `line`.
pub fn split_tokens(line: &Vec<char>) -> (r: Vec<Vec<char>>)
    ensures
        spelled(r@) == tokens(line@),
{
    let mut r: Vec<Vec<char>> = Vec::new();
    let mut i: usize = 0;
    assert(line@.skip(0) =~= line@);
    while i < line.len()
        invariant
            i <= line.len(),
            tokens(line@) == spelled(r@) + tokens(line@.skip(i as int)),
        decreases line.len() - i,
    {
        let ghost rest = line@.skip(i as int);
        if space(line[i]) {
            assert(rest.drop_first() =~= line@.skip(i + 1));
            i += 1;
        } else {
            let mut j: usize = i + 1;
            while j < line.len() && !space(line[j])
                invariant
                    i < j <= line.len(),
                    rest == line@.skip(i as int),
                    forall|k: int| 0 <= k < j - i ==> !is_space(#[trigger] rest[k]),
                decreases line.len() - j,
            {
                j += 1;
            }
            proof {
                lemma_span(rest, |c: char| is_space(c), j - i);
            }
            let ghost before = r@;
            let token = piece(line, i, j);
            r.push(token);
            proof {
                assert(token@ =~= rest.take(j - i));
                assert(rest.skip(j - i) =~= line@.skip(j as int));
                assert(spelled(r@) =~= spelled(before).push(token@));
                assert(tokens(rest) =~= seq![token@] + tokens(line@.skip(j as int)));
            }
            i = j;
        }
    }
    assert(line@.skip(i as int) =~= Seq::<char>::empty());
    assert(spelled(r@) + Seq::<Seq<char>>::empty() =~= spelled(r@));
    r
}

/// The number that `token` is a numeral of.
pub fn parse_number(token: &Vec<char>) -> (r: Option<u32>)
    ensures
        r == number(token@),
{
    let start: usize = if token.len() > 0 && token[0] == '+' {
        1
    } else {
        0
    };
    let ghost digits = unsigned(token@);
    assert(digits =~= token@.skip(start as int));
    if start == token.len() {
        return None;
    }
    let mut value: u64 = 0;
    let mut i: usize = start;
    assert(digits.take(0) =~= Seq::<char>::empty());
    while i < token.len()
        invariant
            start <= i <= token.len(),
            digits == token@.skip(start as int),
            digits == unsigned(token@),
            all_digits(digits.take(i - start)),
            value == value_of(digits.take(i - start)),
            value <= u32::MAX,
        decreases token.len() - i,
    {
        let u = token[i] as u32;
        let ghost seen = digits.take(i - start);
        let ghost more = digits.take(i - start + 1);
        proof {
            assert(more.drop_last() =~= seen);
            assert(more.last() == token@[i as int]);
            assert(digits[i - start] == token@[i as int]);
            assert(u == token@[i as int] as u32);
        }
        if !(0x30 <= u && u <= 0x39) {
            assert(digit_value(digits[i - start]) is None);
            assert(!all_digits(digits));
            return None;
        }
        assert(digit_value(more.last()) == Some((u - 0x30) as nat));
        value = value * 10 + (u - 0x30) as u64;
        assert(value == value_of(more));
        if value > u32::MAX as u64 {
            proof {
                lemma_value_grows(digits, i - start + 1);
            }
            return None;
        }
        assert forall|k: int| 0 <= k < more.len() implies digit_value(#[trigger] more[k]) is Some by {
            if k < seen.len() {
                assert(more[k] == seen[k]);
            }
        }
        i += 1;
    }
    assert(digits.take(i - start) =~= digits);
    Some(value as u32)
}

} // verus!
