//! Writing and reading agree: the text of a solved board, behind a line
//! with its base, reads back as that board.

use crate::input::{
    all_digits, digit_value, filled, given, has_token, is_break, is_space, lemma_span, lines,
    number, overflows, parse, tokens, unsigned, value_of, without_return, ParseError,
};
use crate::model::board::{
    board_text, lemma_base_bound, lemma_cell_position, lemma_group_cells, row_text, row_texts,
    BoardView, MAX_BASE,
};
use crate::model::cell::{cell_text, CellView};
use crate::text::{decimal, digit, joined};
use vstd::prelude::*;

verus! {

/// No character of `s` is a line break or a carriage return.
pub open spec fn no_breaks(s: Seq<char>) -> bool {
    forall|j: int| 0 <= j < s.len() ==> (#[trigger] s[j]) != '\n' && s[j] != '\r'
}

/// No character of `s` is white space.
pub open spec fn no_spaces(s: Seq<char>) -> bool {
    forall|j: int| 0 <= j < s.len() ==> !is_space(#[trigger] s[j])
}

/// A numeral is made of digits and has the value it was written for.
pub proof fn lemma_decimal_value(n: nat)
    ensures
        decimal(n).len() > 0,
        all_digits(decimal(n)),
        value_of(decimal(n)) == n,
    decreases n,
{
    let s = decimal(n);
    if n < 10 {
        assert(s.drop_last() =~= Seq::<char>::empty());
        assert(digit_value(digit(n)) == Some(n));
        assert(value_of(s.drop_last()) == 0);
    } else {
        lemma_decimal_value(n / 10);
        let front = decimal(n / 10);
        assert(s.drop_last() =~= front);
        assert(digit_value(digit(n % 10)) == Some(n % 10));
        assert forall|i: int| 0 <= i < s.len() implies digit_value(#[trigger] s[i]) is Some by {
            if i < front.len() {
                assert(s[i] == front[i]);
            }
        }
    }
}

/// A numeral reads back as its value.
pub proof fn lemma_number_of_decimal(v: u32)
    ensures
        number(decimal(v as nat)) == Some(v),
        no_spaces(decimal(v as nat)),
        no_breaks(decimal(v as nat)),
        decimal(v as nat).len() > 0,
{
    let s = decimal(v as nat);
    lemma_decimal_value(v as nat);
    assert(digit_value(s[0]) is Some);
    assert(unsigned(s) == s);
    assert forall|j: int| 0 <= j < s.len() implies !is_space(#[trigger] s[j]) && s[j] != '\n'
        && s[j] != '\r' by {
        assert(digit_value(s[j]) is Some);
    }
}

/// Joined parts without breaks, joined by a separator without breaks, have
/// no breaks.
pub proof fn lemma_joined_no_breaks(parts: Seq<Seq<char>>, sep: Seq<char>)
    requires
        forall|i: int| 0 <= i < parts.len() ==> no_breaks(#[trigger] parts[i]),
        no_breaks(sep),
    ensures
        no_breaks(joined(parts, sep)),
    decreases parts.len(),
{
    if parts.len() >= 2 {
        let rest = parts.drop_first();
        assert forall|i: int| 0 <= i < rest.len() implies no_breaks(#[trigger] rest[i]) by {
            assert(rest[i] == parts[i + 1]);
        }
        lemma_joined_no_breaks(rest, sep);
        let tail = joined(rest, sep);
        let whole = parts[0] + sep + tail;
        assert(no_breaks(parts[0]));
        assert forall|j: int| 0 <= j < whole.len() implies (#[trigger] whole[j]) != '\n'
            && whole[j] != '\r' by {
            if j < parts[0].len() {
                assert(whole[j] == parts[0][j]);
            } else if j < parts[0].len() + sep.len() {
                assert(whole[j] == sep[j - parts[0].len()]);
            } else {
                assert(whole[j] == tail[j - parts[0].len() - sep.len()]);
            }
        }
    } else if parts.len() == 1 {
        assert(no_breaks(parts[0]));
    }
}

/// Joined parts start with the first part.
pub proof fn lemma_joined_starts(parts: Seq<Seq<char>>, sep: Seq<char>)
    requires
        parts.len() > 0,
    ensures
        joined(parts, sep).len() >= parts[0].len(),
{
}

/// Tokens joined by a space are read back as those tokens.
pub proof fn lemma_tokens_of_joined(parts: Seq<Seq<char>>)
    requires
        forall|i: int|
            0 <= i < parts.len() ==> (#[trigger] parts[i]).len() > 0 && no_spaces(parts[i]),
    ensures
        tokens(joined(parts, seq![' '])) == parts,
    decreases parts.len(),
{
    let sep = seq![' '];
    let s = joined(parts, sep);
    if parts.len() == 0 {
        assert(tokens(s) =~= parts);
    } else {
        let first = parts[0];
        assert(first.len() > 0 && no_spaces(first));
        let k = first.len() as int;
        if parts.len() == 1 {
            assert forall|j: int| 0 <= j < k implies !(|c: char| is_space(c))(#[trigger] s[j]) by {
                assert(!is_space(first[j]));
            }
            lemma_span(s, |c: char| is_space(c), k);
            assert(s.take(k) =~= s);
            assert(s.skip(k) =~= Seq::<char>::empty());
            assert(tokens(s.skip(k)) =~= Seq::<Seq<char>>::empty());
            assert(!is_space(s[0]));
            assert(tokens(s) =~= seq![s]);
            assert(seq![s] =~= parts);
        } else {
            let rest = parts.drop_first();
            assert forall|i: int| 0 <= i < rest.len() implies (#[trigger] rest[i]).len() > 0
                && no_spaces(rest[i]) by {
                assert(rest[i] == parts[i + 1]);
            }
            lemma_tokens_of_joined(rest);
            let tail = joined(rest, sep);
            assert(s == first + sep + tail);
            assert forall|j: int| 0 <= j < k implies !(|c: char| is_space(c))(#[trigger] s[j]) by {
                assert(s[j] == first[j]);
                assert(!is_space(first[j]));
            }
            assert(s[k] == ' ');
            assert(is_space(' '));
            lemma_span(s, |c: char| is_space(c), k);
            assert(s[0] == first[0]);
            assert(!is_space(s[0]));
            assert(s.take(k) =~= first);
            let after = s.skip(k);
            assert(after =~= sep + tail);
            assert(after.len() > 0 && is_space(after[0]));
            assert(after.drop_first() =~= tail);
            assert(tokens(after) == tokens(tail));
            assert(tokens(s) == seq![first] + tokens(after));
            assert(seq![first] + rest =~= parts);
        }
    }
}

/// Lines joined by a line break are read back as those lines.
pub proof fn lemma_lines_of_joined(parts: Seq<Seq<char>>)
    requires
        parts.len() > 0,
        forall|i: int|
            0 <= i < parts.len() ==> (#[trigger] parts[i]).len() > 0 && no_breaks(parts[i]),
    ensures
        lines(joined(parts, seq!['\n'])) == parts,
    decreases parts.len(),
{
    let sep = seq!['\n'];
    let s = joined(parts, sep);
    let first = parts[0];
    assert(first.len() > 0 && no_breaks(first));
    let k = first.len() as int;
    if parts.len() == 1 {
        assert forall|j: int| 0 <= j < k implies !(|c: char| is_break(c))(#[trigger] s[j]) by {
            assert(first[j] != '\n');
        }
        lemma_span(s, |c: char| is_break(c), k);
        assert(lines(s) =~= seq![s]);
        assert(seq![s] =~= parts);
    } else {
        let rest = parts.drop_first();
        assert forall|i: int| 0 <= i < rest.len() implies (#[trigger] rest[i]).len() > 0
            && no_breaks(rest[i]) by {
            assert(rest[i] == parts[i + 1]);
        }
        lemma_lines_of_joined(rest);
        let tail = joined(rest, sep);
        assert(s == first + sep + tail);
        assert forall|j: int| 0 <= j < k implies !(|c: char| is_break(c))(#[trigger] s[j]) by {
            assert(s[j] == first[j]);
            assert(first[j] != '\n');
        }
        assert(s[k] == '\n');
        lemma_span(s, |c: char| is_break(c), k);
        assert(s.take(k) =~= first);
        assert(first[k - 1] != '\r');
        assert(without_return(first) == first);
        assert(s.skip(k + 1) =~= tail);
        assert(lines(s) == seq![first] + lines(tail));
        assert(seq![first] + rest =~= parts);
    }
}

/// Every cell of `board` is fixed to one of the values 1..=N.
pub open spec fn filled_in_range(board: BoardView) -> bool {
    forall|i: int|
        0 <= i < board.cells.len() ==> (#[trigger] board.cells[i]) is Number && 1
            <= board.cells[i]->Number_0 <= board.side()
}

/// The text that `board` is read back from: a line with its base, and below
/// it the board as it is written.
pub open spec fn board_file(board: BoardView) -> Seq<char> {
    decimal(board.base) + seq!['\n'] + board_text(board)
}

/// The cells of a row of a filled board, written, are its numerals.
proof fn lemma_row_written(board: BoardView, row: int)
    requires
        board.wf(),
        filled_in_range(board),
        0 <= row < board.side(),
    ensures
        row_text(board.row(row)).len() > 0,
        no_breaks(row_text(board.row(row))),
        tokens(row_text(board.row(row))) == board.row(row).map_values(|c: CellView| cell_text(c)),
        tokens(row_text(board.row(row))).len() == board.side(),
{
    let cells = board.row(row);
    let written = cells.map_values(|c: CellView| cell_text(c));
    assert forall|k: int| 0 <= k < written.len() implies (#[trigger] written[k]).len() > 0
        && no_spaces(written[k]) && no_breaks(written[k]) by {
        lemma_group_cells(board, row, 0, k);
        let cell = board.cells[board.row_index(row, k)];
        assert(cell is Number);
        lemma_number_of_decimal(cell->Number_0);
    }
    lemma_tokens_of_joined(written);
    lemma_joined_no_breaks(written, seq![' ']);
    lemma_joined_starts(written, seq![' ']);
    assert(written[0].len() > 0);
}

/// Reading undoes writing. The text of a board whose cells are all fixed to
/// values of 1..=N, behind a line with the board's base, is read as that
/// board.
pub proof fn lemma_round_trip(board: BoardView)
    requires
        board.wf(),
        board.base <= MAX_BASE,
        filled_in_range(board),
    ensures
        parse(board_file(board)) == Ok::<BoardView, ParseError>(board),
{
    let side = board.side();
    let head = decimal(board.base);
    let rows = row_texts(board);
    let text = board_file(board);
    lemma_base_bound(board.base);
    lemma_number_of_decimal(board.base as u32);
    assert(number(head) == Some(board.base as u32));
    if side == 0 {
        assert(board_text(board) =~= Seq::<char>::empty());
        assert(text =~= head + seq!['\n']);
        let k = head.len() as int;
        assert forall|j: int| 0 <= j < k implies !(|c: char| is_break(c))(#[trigger] text[j]) by {
            assert(text[j] == head[j]);
            assert(head[j] != '\n');
        }
        assert(text[k] == '\n');
        lemma_span(text, |c: char| is_break(c), k);
        assert(text.take(k) =~= head);
        assert(head[k - 1] != '\r');
        assert(text.skip(k + 1) =~= Seq::<char>::empty());
        assert(lines(text.skip(k + 1)) =~= Seq::<Seq<char>>::empty());
        assert(lines(text) =~= seq![head]);
        let below = lines(text).drop_first();
        assert(below.len() == 0);
        assert(!overflows(below, side));
        assert(board.base == 0) by (nonlinear_arith)
            requires
                board.base * board.base == 0,
        {
        }
        assert(filled(board.base, below).cells =~= board.cells);
    } else {
        let all = seq![head] + rows;
        assert(all.drop_first() =~= rows);
        assert(all[0] == head);
        assert(text =~= joined(all, seq!['\n']));
        assert forall|i: int| 0 <= i < all.len() implies (#[trigger] all[i]).len() > 0
            && no_breaks(all[i]) by {
            if i > 0 {
                assert(all[i] == rows[i - 1]);
                lemma_row_written(board, i - 1);
            }
        }
        lemma_lines_of_joined(all);
        assert(lines(text) == all);
        assert forall|r: int, c: int| #[trigger] has_token(rows, r, c) implies r < side && c
            < side by {
            lemma_row_written(board, r);
        }
        assert(!overflows(rows, side));
        assert forall|i: int| 0 <= i < board.cells.len() implies filled(board.base, rows).cells[i]
            == board.cells[i] by {
            lemma_cell_position(board, i);
            let (r, c) = (i / (side as int), i % (side as int));
            lemma_row_written(board, r);
            lemma_group_cells(board, r, c, c);
            let cell = board.cells[i];
            assert(cell is Number);
            assert(board.row(r)[c] == cell);
            assert(tokens(rows[r])[c] == cell_text(cell));
            lemma_number_of_decimal(cell->Number_0);
            assert(given(rows, side, r, c) == Some(cell->Number_0));
        }
        assert(filled(board.base, rows).cells =~= board.cells);
    }
}

} // verus!
