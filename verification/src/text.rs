//! Building of messages out of pieces of text.
use vstd::prelude::*;

verus! {

/// `String::push`: the string grows by one character at its end.
pub assume_specification[ String::push ](string: &mut String, ch: char)
    ensures
        final(string)@ == old(string)@.push(ch),
;

/// Whether two texts hold the same characters.
pub fn same_text(left: &str, right: &str) -> (same: bool)
    ensures
        same == (left@ == right@),
{
    left.to_owned() == right.to_owned()
}

/// Two pieces of text in a row.
pub fn join2(first: &str, second: &str) -> (joined: String)
    ensures
        joined@ == first@ + second@,
{
    let mut joined = String::new();
    joined.append(first);
    joined.append(second);
    joined
}

/// Three pieces of text in a row.
pub fn join3(first: &str, second: &str, third: &str) -> (joined: String)
    ensures
        joined@ == first@ + second@ + third@,
{
    let mut joined = join2(first, second);
    joined.append(third);
    joined
}

/// Five pieces of text in a row.
pub fn join5(first: &str, second: &str, third: &str, fourth: &str, fifth: &str) -> (joined: String)
    ensures
        joined@ == first@ + second@ + third@ + fourth@ + fifth@,
{
    let mut joined = join3(first, second, third);
    joined.append(fourth);
    joined.append(fifth);
    joined
}

/// The character of a decimal digit.
pub open spec fn digit(n: nat) -> char
    recommends
        n < 10,
{
    ('0' as nat + n) as char
}

/// A number in decimal notation.
pub open spec fn decimal(n: nat) -> Seq<char>
    decreases n,
{
    if n < 10 {
        seq![digit(n)]
    } else {
        decimal(n / 10).push(digit(n % 10))
    }
}

fn digit_char(n: usize) -> (ch: char)
    requires
        n < 10,
    ensures
        ch == digit(n as nat),
{
    match n {
        0 => '0',
        1 => '1',
        2 => '2',
        3 => '3',
        4 => '4',
        5 => '5',
        6 => '6',
        7 => '7',
        8 => '8',
        _ => '9',
    }
}

/// Writes a number in decimal notation.
pub fn decimal_text(n: usize) -> (text: String)
    ensures
        text@ == decimal(n as nat),
    decreases n,
{
    let mut text = if n < 10 {
        String::new()
    } else {
        decimal_text(n / 10)
    };
    text.push(digit_char(n % 10));
    text
}

} // verus!
