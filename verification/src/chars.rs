//! Characters and strings of the standard library, where their functions
//! are called without a proof.
use vstd::prelude::*;

verus! {

/// The upper-case form of a character, as the Unicode tables of the standard
/// library give it: one character or more.
pub uninterp spec fn uppercase_of(c: char) -> Seq<char>;

/// Appends one character to a string.
///
/// Calls `String::push`, which appends the given `char` to the end of the
/// string and changes nothing else.
#[verifier::external_body]
pub(crate) fn push_char(s: &mut String, c: char)
    ensures
        final(s)@ == old(s)@.push(c),
{
    s.push(c)
}

/// The character with the given code.
///
/// Calls `char::from_u32`, which returns the `char` with that code where the
/// code is a Unicode scalar value, and `None` where it is not.
#[verifier::external_body]
pub(crate) fn char_from_u32(u: u32) -> (r: Option<char>)
    ensures
        r == if vstd::utf8::is_scalar(u) {
            Some(u as char)
        } else {
            None::<char>
        },
{
    char::from_u32(u)
}

/// The upper-case form of a character.
///
/// Calls `char::to_uppercase` and collects the characters that it yields,
/// which depend on the character alone.
#[verifier::external_body]
pub(crate) fn uppercase(c: char) -> (upper: String)
    ensures
        upper@ == uppercase_of(c),
{
    c.to_uppercase().collect()
}

/// The code of a character.
pub fn char_code(c: char) -> (u: u32)
    ensures
        u == c as u32,
        c == u as char,
{
    c as u32
}

} // verus!
