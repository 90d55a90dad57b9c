//! Identifier generation and the wall clock.
//!
//! Note identifiers are ULIDs: 26 characters of Crockford's base32 alphabet,
//! lexicographically sortable and time-ordered. The two functions that reach
//! outside — drawing a fresh identifier and reading the clock — are trusted;
//! everything that depends on their results is verified for every value they
//! could hand back.

use vstd::prelude::*;

verus! {

/// Length of a string-encoded identifier.
pub const ID_CHARS: usize = 26;

/// A character of Crockford's base32 alphabet: the digits and the upper-case
/// letters other than I, L, O and U.
pub open spec fn is_id_char(c: char) -> bool {
    ||| ('0' as u32) <= (c as u32) <= ('9' as u32)
    ||| (('A' as u32) <= (c as u32) <= ('Z' as u32) && c != 'I' && c != 'L' && c != 'O' && c
        != 'U')
}

/// A well-formed note or folder or tag identifier.
pub open spec fn valid_id(s: Seq<char>) -> bool {
    &&& s.len() == ID_CHARS
    &&& forall|i: int| 0 <= i < s.len() ==> is_id_char(#[trigger] s[i])
}

/// Relies on `ulid::Ulid::new` and `ulid::Ulid::to_string`: a fresh
/// identifier drawn from the clock and a random source always encodes as 26
/// characters of Crockford's base32 alphabet. Nothing more is promised: two
/// calls may or may not collide.
#[verifier::external_body]
pub fn new_ulid() -> (r: String)
    ensures
        valid_id(r@),
{
    ulid::Ulid::new().to_string()
}

/// Relies on `chrono::Utc::now` and `chrono::DateTime::timestamp_millis`:
/// the wall clock's reading in milliseconds since the Unix epoch. Nothing is
/// promised of the value; callers must hold for every reading.
#[verifier::external_body]
pub fn now_millis() -> i64 {
    chrono::Utc::now().timestamp_millis()
}

/// Decides `is_id_char` on a concrete character.
pub fn check_id_char(c: char) -> (r: bool)
    ensures
        r == is_id_char(c),
{
    let u = c as u32;
    (48 <= u && u <= 57) || (65 <= u && u <= 90 && u != 73 && u != 76 && u != 79 && u != 85)
}

/// Decides `valid_id` on a concrete string.
pub fn check_valid_id(s: &String) -> (r: bool)
    ensures
        r == valid_id(s@),
{
    let cs = crate::text::chars_of(s.as_str());
    if cs.len() != ID_CHARS {
        return false;
    }
    for i in 0..cs.len()
        invariant
            cs@ == s@,
            cs.len() == ID_CHARS,
            forall|j: int| 0 <= j < i ==> is_id_char(#[trigger] cs@[j]),
    {
        if !check_id_char(cs[i]) {
            return false;
        }
    }
    true
}

} // verus!
