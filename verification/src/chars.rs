//! Text helpers shared by the library: characters of a string, building a
//! string from characters, decimal numerals.

use vstd::prelude::*;
use vstd::string::*;

verus! {

/// The characters of `text`, in order.
pub fn chars_of(text: &str) -> (found: Vec<char>)
    ensures
        found@ == text@,
{
    let mut found: Vec<char> = Vec::new();
    for ch in it: text.chars()
        invariant
            found@ == it.seq().take(it.index() as int),
            it.seq() == text@,
    {
        found.push(ch);
    }
    found
}

/// `String::push` of std: appends one character.
#[verifier::external_body]
pub fn push_char(into: &mut String, ch: char)
    ensures
        final(into)@ == old(into)@.push(ch),
{
    into.push(ch);
}

/// Appends `tail` to `into`.
pub fn push_str(into: &mut String, tail: &str)
    ensures
        final(into)@ == old(into)@ + tail@,
{
    into.append(tail);
}

/// A string holding `text`.
pub fn owned(text: &str) -> (made: String)
    ensures
        made@ == text@,
{
    text.to_string()
}

/// Appends the characters `tail[from..to]` to `into`.
pub fn push_chars(into: &mut String, tail: &[char], from: usize, to: usize)
    requires
        from <= to <= tail@.len(),
    ensures
        final(into)@ == old(into)@ + tail@.subrange(from as int, to as int),
{
    let ghost start = into@;
    let mut at = from;
    while at < to
        invariant
            from <= at <= to <= tail@.len(),
            into@ == start + tail@.subrange(from as int, at as int),
        decreases to - at,
    {
        push_char(into, tail[at]);
        assert(tail@.subrange(from as int, at + 1) == tail@.subrange(from as int, at as int).push(
            tail@[at as int],
        ));
        at += 1;
    }
}

/// A string made of the characters `chars[from..to]`.
pub fn string_of(chars: &[char], from: usize, to: usize) -> (made: String)
    requires
        from <= to <= chars@.len(),
    ensures
        made@ == chars@.subrange(from as int, to as int),
{
    let mut made = String::new();
    push_chars(&mut made, chars, from, to);
    made
}

/// The digit character for `d < 10`.
pub open spec fn digit_char(d: int) -> char {
    if d == 0 {
        '0'
    } else if d == 1 {
        '1'
    } else if d == 2 {
        '2'
    } else if d == 3 {
        '3'
    } else if d == 4 {
        '4'
    } else if d == 5 {
        '5'
    } else if d == 6 {
        '6'
    } else if d == 7 {
        '7'
    } else if d == 8 {
        '8'
    } else {
        '9'
    }
}

/// The decimal numeral of `n`, most significant digit first, no leading zeros.
pub open spec fn decimal(n: nat) -> Seq<char>
    decreases n,
{
    if n < 10 {
        seq![digit_char(n as int)]
    } else {
        decimal(n / 10).push(digit_char((n % 10) as int))
    }
}

/// The decimal numeral of a signed integer: a minus sign before the magnitude.
pub open spec fn signed_decimal(n: int) -> Seq<char> {
    if n < 0 {
        seq!['-'] + decimal((-n) as nat)
    } else {
        decimal(n as nat)
    }
}

fn digit(d: u64) -> (ch: char)
    requires
        d < 10,
    ensures
        ch == digit_char(d as int),
{
    if d == 0 {
        '0'
    } else if d == 1 {
        '1'
    } else if d == 2 {
        '2'
    } else if d == 3 {
        '3'
    } else if d == 4 {
        '4'
    } else if d == 5 {
        '5'
    } else if d == 6 {
        '6'
    } else if d == 7 {
        '7'
    } else if d == 8 {
        '8'
    } else {
        '9'
    }
}

/// Appends the decimal numeral of `n`.
pub fn push_decimal(into: &mut String, n: u64)
    ensures
        final(into)@ == old(into)@ + decimal(n as nat),
    decreases n,
{
    if n < 10 {
        push_char(into, digit(n));
    } else {
        push_decimal(into, n / 10);
        push_char(into, digit(n % 10));
    }
}

/// Appends the decimal numeral of a signed `n`.
pub fn push_signed(into: &mut String, n: i64)
    ensures
        final(into)@ == old(into)@ + signed_decimal(n as int),
{
    if n < 0 {
        push_char(into, '-');
        let size = (0i128 - n as i128) as u64;
        push_decimal(into, size);
    } else {
        push_decimal(into, n as u64);
    }
}

} // verus!
verus! {

/// The characters of an optional string.
pub open spec fn view_opt(found: Option<String>) -> Option<Seq<char>> {
    match found {
        Some(text) => Some(text@),
        None => None,
    }
}

} // verus!
verus! {

/// Whether two texts hold the same characters.
pub fn same_text(left: &str, right: &str) -> (same: bool)
    ensures
        same == (left@ == right@),
{
    let a = chars_of(left);
    let b = chars_of(right);
    if a.len() != b.len() {
        return false;
    }
    let mut at: usize = 0;
    while at < a.len()
        invariant
            at <= a@.len(),
            a@.len() == b@.len(),
            a@ == left@,
            b@ == right@,
            forall|j: int| 0 <= j < at ==> a@[j] == b@[j],
        decreases a@.len() - at,
    {
        if a[at] != b[at] {
            return false;
        }
        at += 1;
    }
    assert(a@ =~= b@);
    true
}

} // verus!
