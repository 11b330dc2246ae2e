//! Conversions between `String` and `Vec<char>`.  The library's automata and
//! serializers work over character vectors; these are the only places where
//! text crosses between the two representations.

use vstd::prelude::*;

verus! {

/// Relies on `core::iter::Iterator::collect` for `String` from characters:
/// the collected string holds exactly the characters of the vector, in
/// order.
#[verifier::external_body]
pub fn chars_to_string(v: &Vec<char>) -> (r: String)
    ensures
        r@ == v@,
{
    v.iter().collect()
}

/// Relies on `str::chars`: the iterator yields exactly the characters of the
/// string, in order.
#[verifier::external_body]
pub fn str_to_chars(s: &str) -> (r: Vec<char>)
    ensures
        r@ == s@,
{
    s.chars().collect()
}

/// Relies on `String::push`: the character is appended at the end.
#[verifier::external_body]
pub fn string_push_char(s: &mut String, c: char)
    ensures
        final(s)@ == old(s)@.push(c),
{
    s.push(c)
}

} // verus!
