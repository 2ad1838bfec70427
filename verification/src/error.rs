//! The error that a check of a table gives.

use vstd::prelude::*;

verus! {

/// Says in words what is wrong with a table.
#[derive(PartialEq, Eq, Debug)]
pub struct Error(pub String);

/// The character for a decimal digit.
pub open spec fn digit(d: nat) -> char {
    ('0' as u32 + d) as char
}

/// `n` in decimal notation.
pub open spec fn decimal(n: nat) -> Seq<char>
    decreases n,
{
    if n < 10 {
        seq![digit(n)]
    } else {
        decimal(n / 10).push(digit(n % 10))
    }
}

/// In decimal notation, a number below ten is one digit, and appending a digit to any
/// other number but zero multiplies it by ten and adds the digit.
pub proof fn law_decimal(n: nat, d: nat)
    requires
        d < 10,
    ensures
        decimal(d) == seq![(48 + d) as char],
        n > 0 ==> decimal(10 * n + d) == decimal(n).push((48 + d) as char),
{
    assert('0' as u32 == 48);
    if n > 0 {
        assert((10 * n + d) / 10 == n);
        assert((10 * n + d) % 10 == d);
    }
}

/// Different numbers have different decimal notations.
pub proof fn law_decimal_is_unique(a: nat, b: nat)
    requires
        decimal(a) == decimal(b),
    ensures
        a == b,
    decreases a,
{
    assert('0' as u32 == 48);
    lemma_decimal_nonempty(a);
    lemma_decimal_nonempty(b);
    assert(decimal(a).last() == digit(a % 10)) by {
        assert(a < 10 ==> a % 10 == a);
    }
    assert(decimal(b).last() == digit(b % 10)) by {
        assert(b < 10 ==> b % 10 == b);
    }
    assert(a % 10 == b % 10);
    if a >= 10 {
        lemma_decimal_nonempty(a / 10);
        if b >= 10 {
            assert(decimal(a).drop_last() =~= decimal(a / 10));
            assert(decimal(b).drop_last() =~= decimal(b / 10));
            law_decimal_is_unique(a / 10, b / 10);
        }
    } else if b >= 10 {
        lemma_decimal_nonempty(b / 10);
    }
}

proof fn lemma_decimal_nonempty(n: nat)
    ensures
        decimal(n).len() >= 1,
    decreases n,
{
    if n >= 10 {
        lemma_decimal_nonempty(n / 10);
    }
}

/// A decimal digit as a string.
fn digit_str(d: usize) -> (r: &'static str)
    requires
        d < 10,
    ensures
        r@ == seq![digit(d as nat)],
{
    proof {
        reveal_strlit("0");
        reveal_strlit("1");
        reveal_strlit("2");
        reveal_strlit("3");
        reveal_strlit("4");
        reveal_strlit("5");
        reveal_strlit("6");
        reveal_strlit("7");
        reveal_strlit("8");
        reveal_strlit("9");
    }
    let r = match d {
        0 => "0",
        1 => "1",
        2 => "2",
        3 => "3",
        4 => "4",
        5 => "5",
        6 => "6",
        7 => "7",
        8 => "8",
        _ => "9",
    };
    assert(r@ =~= seq![digit(d as nat)]);
    r
}

/// Appends `n` in decimal notation to `text`.
fn append_decimal(text: &mut String, n: usize)
    ensures
        final(text)@ == old(text)@ + decimal(n as nat),
    decreases n,
{
    if n >= 10 {
        append_decimal(text, n / 10);
    }
    text.append(digit_str(n % 10));
    assert(text@ =~= old(text)@ + decimal(n as nat));
}

/// Says that slot `i` is empty but holds something else than zeros.
pub open spec fn nonzero_text(i: nat) -> Seq<char> {
    "Found empty entry with non-zero contents at "@ + decimal(i)
}

/// Says that slot `i` has the control byte `found`, where the hash value of its key
/// asks for `expected`.
pub open spec fn mismatch_text(i: nat, expected: u8, found: u8) -> Seq<char> {
    "Control byte does not match hash value for entry "@ + decimal(i) + ". Expected "@ + decimal(
        expected as nat,
    ) + ", found "@ + decimal(found as nat) + "."@
}

impl Error {
    /// The error for an empty slot that holds something else than zeros.
    pub(crate) fn nonzero_contents(i: usize) -> (r: Error)
        ensures
            r.0@ == nonzero_text(i as nat),
    {
        let mut text = String::new();
        text.append("Found empty entry with non-zero contents at ");
        append_decimal(&mut text, i);
        assert(text@ =~= nonzero_text(i as nat));
        Error(text)
    }

    /// The error for a control byte that is not the one of the key in its slot.
    pub(crate) fn hash_mismatch(i: usize, expected: u8, found: u8) -> (r: Error)
        ensures
            r.0@ == mismatch_text(i as nat, expected, found),
    {
        let mut text = String::new();
        text.append("Control byte does not match hash value for entry ");
        append_decimal(&mut text, i);
        text.append(". Expected ");
        append_decimal(&mut text, expected as usize);
        text.append(", found ");
        append_decimal(&mut text, found as usize);
        text.append(".");
        assert(text@ =~= mismatch_text(i as nat, expected, found));
        Error(text)
    }
}

} // verus!
