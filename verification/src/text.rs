//! Text: decimal numerals, and strings joined by a separator.

use itertools::Itertools;
use vstd::prelude::*;
use vstd::string::StringExecFns;

verus! {

/// The character of the decimal digit `d`.
pub open spec fn digit(d: nat) -> char {
    if d == 0 {
        '0'
    } else if d == 1 {
        '1'
    } else if d == 2 {
        '2'
    } else if d == 3 {
        '3'
    } else if d == 4 {
        '4'
    } else if d == 5 {
        '5'
    } else if d == 6 {
        '6'
    } else if d == 7 {
        '7'
    } else if d == 8 {
        '8'
    } else {
        '9'
    }
}

/// The decimal numeral of `n`, without leading zeros.
pub open spec fn decimal(n: nat) -> Seq<char>
    decreases n,
{
    if n < 10 {
        seq![digit(n)]
    } else {
        decimal(n / 10).push(digit(n % 10))
    }
}

/// The digits of a numeral before its last: none for a number below ten.
pub open spec fn leading(n: nat) -> Seq<char> {
    if n == 0 {
        Seq::empty()
    } else {
        decimal(n)
    }
}

/// A numeral is its leading digits and its last.
pub proof fn lemma_decimal_last(n: nat)
    ensures
        decimal(n) == leading(n / 10).push(digit(n % 10)),
{
    if n < 10 {
        assert(decimal(n) =~= Seq::<char>::empty().push(digit(n)));
    }
}

/// `parts` in order, with `sep` between each two neighbours.
pub open spec fn joined(parts: Seq<Seq<char>>, sep: Seq<char>) -> Seq<char>
    decreases parts.len(),
{
    if parts.len() == 0 {
        Seq::empty()
    } else if parts.len() == 1 {
        parts[0]
    } else {
        parts[0] + sep + joined(parts.drop_first(), sep)
    }
}

/// The character sequences of `parts`, in order.
pub open spec fn texts(parts: Seq<String>) -> Seq<Seq<char>> {
    parts.map_values(|p: String| p@)
}

/// Joins `parts` with `sep` between them.
///
/// Trusted: the body calls `itertools::Itertools::join` on the iterator over
/// `parts`. The contract claims what that function documents and its source
/// shows: the result is empty for no element, and else the first element as
/// `Display` writes it (for a `String`, its characters), followed for each
/// further element by `sep` and that element.
#[verifier::external_body]
pub(crate) fn join(parts: &Vec<String>, sep: &str) -> (s: String)
    ensures
        s@ == joined(texts(parts@), sep@),
{
    parts.iter().join(sep)
}

/// The one-character string of the digit `d`.
pub fn digit_text(d: u32) -> (s: &'static str)
    requires
        d < 10,
    ensures
        s@ == seq![digit(d as nat)],
{
    proof {
        reveal_strlit("0");
        reveal_strlit("1");
        reveal_strlit("2");
        reveal_strlit("3");
        reveal_strlit("4");
        reveal_strlit("5");
        reveal_strlit("6");
        reveal_strlit("7");
        reveal_strlit("8");
        reveal_strlit("9");
    }
    let s = if d == 0 {
        "0"
    } else if d == 1 {
        "1"
    } else if d == 2 {
        "2"
    } else if d == 3 {
        "3"
    } else if d == 4 {
        "4"
    } else if d == 5 {
        "5"
    } else if d == 6 {
        "6"
    } else if d == 7 {
        "7"
    } else if d == 8 {
        "8"
    } else {
        "9"
    };
    assert(s@ =~= seq![digit(d as nat)]);
    s
}

/// The decimal numeral of `n`.
pub fn number_text(n: u32) -> (s: String)
    ensures
        s@ == decimal(n as nat),
{
    let mut rest: u32 = n / 10;
    let mut s = String::from_str(digit_text(n % 10));
    proof {
        lemma_decimal_last(n as nat);
        assert(decimal(n as nat) =~= leading(rest as nat) + s@);
    }
    while rest > 0
        invariant
            decimal(n as nat) == leading(rest as nat) + s@,
        decreases rest,
    {
        let mut t = String::from_str(digit_text(rest % 10));
        t.append(s.as_str());
        proof {
            lemma_decimal_last(rest as nat);
            assert(leading(rest as nat) + s@ =~= leading((rest / 10) as nat) + t@);
        }
        s = t;
        rest = rest / 10;
    }
    assert(decimal(n as nat) =~= s@);
    s
}

} // verus!
