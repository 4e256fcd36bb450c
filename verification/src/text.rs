//! What the library needs of std's strings and characters beyond the specified core.

use vstd::prelude::*;

verus! {

/// `char::from_u32`: the character of a Unicode scalar value; surrogates and values past the last
/// code point have none.
pub assume_specification[ char::from_u32 ](i: u32) -> (r: Option<char>)
    ensures
        r is Some <==> (i < 0xD800 || 0xE000 <= i <= 0x10FFFF),
        r matches Some(c) ==> c == i as char,
;

/// `String::push`: appends one character.
pub assume_specification[ std::string::String::push ](s: &mut std::string::String, c: char)
    ensures
        final(s)@ == old(s)@.push(c),
;

/// `==` on `str`: whether two texts hold the same characters in the same order.
#[verifier::external_body]
pub(crate) fn same_text(a: &str, b: &str) -> (r: bool)
    ensures
        r == (a@ == b@),
{
    a == b
}

/// The characters of an optional text.
pub open spec fn text_of(t: Option<&str>) -> Option<Seq<char>> {
    match t {
        Some(s) => Some(s@),
        None => None,
    }
}

/// Whether a text is present and equal to `b`.
pub(crate) fn is_text(a: Option<&str>, b: &str) -> (r: bool)
    ensures
        r == (text_of(a) == Some(b@)),
{
    match a {
        Some(s) => same_text(s, b),
        None => false,
    }
}

} // verus!
