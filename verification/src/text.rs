//! Names built from numbers and suffixes.

use vstd::prelude::*;

verus! {

/// The character of a decimal digit.
pub open spec fn digit_char(d: nat) -> char {
    (48 + d) as char
}

/// The decimal digits of `n`, most significant first, with no leading zero.
pub open spec fn decimal(n: nat) -> Seq<char>
    decreases n,
{
    if n < 10 {
        seq![digit_char(n)]
    } else {
        decimal(n / 10).push(digit_char(n % 10))
    }
}

/// The text of the decimal digit `d`.
fn digit_text(d: usize) -> (s: &'static str)
    requires
        d < 10,
    ensures
        s@ == seq![digit_char(d as nat)],
{
    proof {
        reveal_strlit("0");
        reveal_strlit("1");
        reveal_strlit("2");
        reveal_strlit("3");
        reveal_strlit("4");
        reveal_strlit("5");
        reveal_strlit("6");
        reveal_strlit("7");
        reveal_strlit("8");
        reveal_strlit("9");
    }
    match d {
        0 => "0",
        1 => "1",
        2 => "2",
        3 => "3",
        4 => "4",
        5 => "5",
        6 => "6",
        7 => "7",
        8 => "8",
        9 => "9",
        _ => "9",
    }
}

/// Appends the decimal digits of `n` to `s`.
fn append_decimal(s: &mut String, n: usize)
    ensures
        final(s)@ == old(s)@ + decimal(n as nat),
    decreases n,
{
    if n >= 10 {
        append_decimal(s, n / 10);
    }
    s.append(digit_text(n % 10));
}

/// `prefix` followed by the decimal digits of `index`.
pub(crate) fn numbered(prefix: &str, index: usize) -> (s: String)
    ensures
        s@ == prefix@ + decimal(index as nat),
{
    let mut s = String::from_str(prefix);
    append_decimal(&mut s, index);
    s
}

/// `name` followed by `suffix`.
pub(crate) fn suffixed(name: &str, suffix: &str) -> (s: String)
    ensures
        s@ == name@ + suffix@,
{
    let mut s = String::from_str(name);
    s.append(suffix);
    s
}

/// The string made of the single character `c`.
///
/// Calls `ToString::to_string` on the `char`, which writes the character itself.
#[verifier::external_body]
pub(crate) fn char_text(c: char) -> (s: String)
    ensures
        s@ == seq![c],
{
    c.to_string()
}

/// The text of a pair of state indices, as `{:?}` writes a pair: `(a, b)`.
pub(crate) fn pair_text(p: (usize, usize)) -> (s: String)
    ensures
        s@ == "("@ + decimal(p.0 as nat) + ", "@ + decimal(p.1 as nat) + ")"@,
{
    let mut s = String::from_str("(");
    append_decimal(&mut s, p.0);
    s.append(", ");
    append_decimal(&mut s, p.1);
    s.append(")");
    s
}

/// The name of the intersection of two automata: `(a ∩ b)`.
pub(crate) fn intersection_name(a: &str, b: &str) -> (s: String)
    ensures
        s@ == "("@ + a@ + " ∩ "@ + b@ + ")"@,
{
    let mut s = String::from_str("(");
    s.append(a);
    s.append(" ∩ ");
    s.append(b);
    s.append(")");
    s
}

} // verus!
