//! Character-level helpers shared by the key parser and the ciphers.
//!
//! Everything is stated over code points (`c as int`), so the contracts of
//! the ciphers can be read as plain arithmetic on the ASCII table.

use vstd::prelude::*;

verus! {

/// The whitespace characters of the ASCII range.
pub open spec fn wschar(c: char) -> bool {
    c == ' ' || c == '\t' || c == '\n' || c == '\r' || c == '\x0b' || c == '\x0c'
}

/// A character of the ASCII range.
pub open spec fn ascii_char(c: char) -> bool {
    c as int <= 127
}

/// An ASCII uppercase letter.
pub open spec fn uppercase(c: char) -> bool {
    65 <= c as int <= 90
}

/// An ASCII lowercase letter.
pub open spec fn lowercase(c: char) -> bool {
    97 <= c as int <= 122
}

/// An ASCII letter of either case.
pub open spec fn letter(c: char) -> bool {
    uppercase(c) || lowercase(c)
}

pub fn is_wschar(c: char) -> (r: bool)
    ensures
        r == wschar(c),
{
    c == ' ' || c == '\t' || c == '\n' || c == '\r' || c == '\x0b' || c == '\x0c'
}

pub fn is_ascii_char(c: char) -> (r: bool)
    ensures
        r == ascii_char(c),
{
    c as u32 <= 127
}

pub fn is_uppercase(c: char) -> (r: bool)
    ensures
        r == uppercase(c),
{
    let u = c as u32;
    65 <= u && u <= 90
}

pub fn is_lowercase(c: char) -> (r: bool)
    ensures
        r == lowercase(c),
{
    let u = c as u32;
    97 <= u && u <= 122
}

pub fn is_letter(c: char) -> (r: bool)
    ensures
        r == letter(c),
{
    is_uppercase(c) || is_lowercase(c)
}

/// Relies on std's `String::push`: appends the given character to the end of
/// the string.
#[verifier::external_body]
pub(crate) fn push_char(s: &mut String, c: char)
    ensures
        final(s)@ == old(s)@.push(c),
{
    s.push(c);
}

} // verus!
