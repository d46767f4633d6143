use vstd::prelude::*;

verus! {

/// What `char::is_alphabetic` answers for a character: membership in the
/// Unicode `Alphabetic` property.
pub uninterp spec fn alphabetic(c: char) -> bool;

/// Relies on `char::is_alphabetic`: its answer depends on the character alone.
#[verifier::external_body]
fn char_is_alphabetic(c: char) -> (r: bool)
    ensures
        r == alphabetic(c),
{
    c.is_alphabetic()
}

/// An ASCII letter.
pub open spec fn spec_is_ascii_letter(c: char) -> bool {
    ('a' <= c && c <= 'z') || ('A' <= c && c <= 'Z')
}

/// A character that may begin an identifier: within ASCII a letter, `_` or `$`;
/// beyond it, an alphabetic character.
pub open spec fn spec_is_alpha(c: char) -> bool {
    if (c as u32) < 128 {
        spec_is_ascii_letter(c) || c == '_' || c == '$'
    } else {
        alphabetic(c)
    }
}

/// A decimal digit.
pub open spec fn spec_is_digit(c: char) -> bool {
    '0' <= c && c <= '9'
}

/// A character that may continue an identifier.
pub open spec fn spec_is_alphanumeric(c: char) -> bool {
    spec_is_alpha(c) || spec_is_digit(c)
}

/// A character that may begin an identifier: alphabetic, `_` or `$`.
pub fn is_alpha(c: char) -> (r: bool)
    ensures
        r == spec_is_alpha(c),
{
    if (c as u32) < 128 {
        ('a' <= c && c <= 'z') || ('A' <= c && c <= 'Z') || c == '_' || c == '$'
    } else {
        char_is_alphabetic(c)
    }
}

/// A decimal digit `0`-`9`.
pub fn is_digit(c: char) -> (r: bool)
    ensures
        r == spec_is_digit(c),
{
    '0' <= c && c <= '9'
}

/// A character that may continue an identifier: `is_alpha` or `is_digit`.
pub fn is_alphanumeric(c: char) -> (r: bool)
    ensures
        r == spec_is_alphanumeric(c),
{
    is_alpha(c) || is_digit(c)
}

} // verus!
