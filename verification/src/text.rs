//! Texts as compiled programs index them: by character, not by byte.

use vstd::prelude::*;

use crate::chars::chars_of;

verus! {

/// How many characters `text` has.
pub fn char_len(text: &str) -> (count: usize)
    ensures
        count == text@.len(),
{
    chars_of(text).len()
}

/// The character at `index` (from 0), if there is one.
pub fn char_at(text: &str, index: usize) -> (found: Option<char>)
    ensures
        found == if index < text@.len() {
            Some(text@[index as int])
        } else {
            None::<char>
        },
{
    let letters = chars_of(text);
    if index >= letters.len() {
        return None;
    }
    Some(letters[index])
}

} // verus!
verus! {

/// How many bytes the UTF-8 encoding of a character takes, by its first
/// byte.
pub open spec fn lead_width(lead: u8) -> nat {
    if lead <= 0x7f {
        1
    } else if 0xc0 <= lead <= 0xdf {
        2
    } else if 0xe0 <= lead <= 0xef {
        3
    } else {
        4
    }
}

pub fn width(lead: u8) -> (found: usize)
    ensures
        found == lead_width(lead),
{
    if lead <= 0x7f {
        1
    } else if 0xc0 <= lead && lead <= 0xdf {
        2
    } else if 0xe0 <= lead && lead <= 0xef {
        3
    } else {
        4
    }
}

/// `text` without the characters `ch` that end it.
pub open spec fn strip_end(text: Seq<char>, ch: char) -> Seq<char>
    decreases text.len(),
{
    if text.len() > 0 && text.last() == ch {
        strip_end(text.drop_last(), ch)
    } else {
        text
    }
}

/// A decimal numeral without the zeros that end its fraction, nor a point
/// left bare; a numeral without a point stays as it is.
pub open spec fn trimmed_numeral(shown: Seq<char>) -> Seq<char> {
    if shown.contains('.') {
        strip_end(strip_end(shown, '0'), '.')
    } else {
        shown
    }
}

fn strip_count(letters: &Vec<char>, end: usize, ch: char) -> (found: usize)
    requires
        end <= letters@.len(),
    ensures
        found <= end,
        letters@.take(found as int) == strip_end(letters@.take(end as int), ch),
{
    let mut at = end;
    while at > 0 && letters[at - 1] == ch
        invariant
            at <= end <= letters@.len(),
            strip_end(letters@.take(end as int), ch) == strip_end(letters@.take(at as int), ch),
        decreases at,
    {
        assert(letters@.take(at as int).drop_last() =~= letters@.take(at - 1));
        at -= 1;
    }
    assert(at > 0 ==> letters@.take(at as int).last() == letters@[at - 1]);
    at
}

pub fn trim(shown: &str) -> (out: String)
    ensures
        out@ == trimmed_numeral(shown@),
{
    let letters = chars_of(shown);
    let mut point = false;
    let mut at: usize = 0;
    while at < letters.len()
        invariant
            at <= letters@.len(),
            letters@ == shown@,
            point == exists|j: int| 0 <= j < at && letters@[j] == '.',
        decreases letters@.len() - at,
    {
        if letters[at] == '.' {
            point = true;
        }
        at += 1;
    }
    if !point {
        assert(!shown@.contains('.'));
        return crate::chars::owned(shown);
    }
    assert(letters@.take(letters@.len() as int) =~= letters@);
    let zeros = strip_count(&letters, letters.len(), '0');
    let points = strip_count(&letters, zeros, '.');
    crate::chars::string_of(letters.as_slice(), 0, points)
}

} // verus!
