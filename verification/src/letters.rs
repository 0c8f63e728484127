//! Letters and digits of all scripts.
use vstd::prelude::*;

verus! {

/// Whether a character is alphabetic, as `char::is_alphabetic` tells.
pub uninterp spec fn alphabetic(c: char) -> bool;

/// Whether a character is alphabetic or numeric, as `char::is_alphanumeric`
/// tells.
pub uninterp spec fn alphanumeric(c: char) -> bool;

/// Whether a character is an ASCII letter.
pub open spec fn ascii_letter(c: char) -> bool {
    ('a' as u32) <= (c as u32) <= ('z' as u32) || ('A' as u32) <= (c as u32) <= ('Z' as u32)
}

/// Whether a character is an ASCII digit.
pub open spec fn ascii_digit(c: char) -> bool {
    ('0' as u32) <= (c as u32) <= ('9' as u32)
}

/// `char::is_alphabetic`: whether a character has the Alphabetic property. Of
/// the ASCII characters these are the letters.
#[verifier::external_body]
pub(crate) fn char_is_alphabetic(c: char) -> (r: bool)
    ensures
        r == alphabetic(c),
        (c as u32) < 0x80 ==> r == ascii_letter(c),
{
    c.is_alphabetic()
}

/// `char::is_alphanumeric`: whether a character is alphabetic or numeric. Of
/// the ASCII characters these are the letters and the digits.
#[verifier::external_body]
pub(crate) fn char_is_alphanumeric(c: char) -> (r: bool)
    ensures
        r == alphanumeric(c),
        (c as u32) < 0x80 ==> r == (ascii_letter(c) || ascii_digit(c)),
{
    c.is_alphanumeric()
}

} // verus!
