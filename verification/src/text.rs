//! Character-level text helpers.
//!
//! All text manipulation in this library — excerpts, link scanning, search —
//! works on character sequences, never on raw byte offsets, so a window can
//! never cut a multi-byte character in half. Two tiny bridges to `std`'s
//! string machinery are trusted; everything built on them is verified.

use vstd::prelude::*;
use vstd::string::StringExecFns;

verus! {

/// Relies on `str::chars`: the characters of the string, in order.
#[verifier::external_body]
pub fn chars_of(s: &str) -> (r: Vec<char>)
    ensures
        r@ == s@,
{
    s.chars().collect()
}

/// Relies on `String::push`: appends one character to the string.
#[verifier::external_body]
pub fn push_char(s: &mut String, c: char)
    ensures
        final(s)@ == old(s)@.push(c),
{
    s.push(c)
}

/// Builds a string from a range of a character vector.
pub fn string_from_range(cs: &Vec<char>, from: usize, to: usize) -> (r: String)
    requires
        from <= to <= cs@.len(),
    ensures
        r@ == cs@.subrange(from as int, to as int),
{
    let mut r = String::new();
    let mut i = from;
    while i < to
        invariant
            from <= i <= to <= cs@.len(),
            r@ == cs@.subrange(from as int, i as int),
        decreases to - i,
    {
        push_char(&mut r, cs[i]);
        i = i + 1;
        proof {
            assert(cs@.subrange(from as int, i as int) =~= cs@.subrange(
                from as int,
                i - 1,
            ).push(cs@[i - 1]));
        }
    }
    r
}

/// Builds a string holding all characters of the vector.
pub fn string_from_chars(cs: &Vec<char>) -> (r: String)
    ensures
        r@ == cs@,
{
    let r = string_from_range(cs, 0, cs.len());
    proof {
        assert(cs@.subrange(0, cs@.len() as int) =~= cs@);
    }
    r
}

/// The first `limit` characters of a string, or all of it if shorter.
pub fn take_chars(s: &String, limit: usize) -> (r: String)
    ensures
        r@ == if s@.len() <= limit {
            s@
        } else {
            s@.subrange(0, limit as int)
        },
{
    let cs = chars_of(s.as_str());
    if cs.len() <= limit {
        let r = string_from_chars(&cs);
        r
    } else {
        string_from_range(&cs, 0, limit)
    }
}

/// Appends every character of `other` to `s`.
pub fn append_str(s: &mut String, other: &str)
    ensures
        final(s)@ == old(s)@ + other@,
{
    s.append(other);
}

} // verus!
