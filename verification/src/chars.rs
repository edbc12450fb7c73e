//! Character classes used by the lexer.
//!
//! Inside ASCII the two classes are fixed here, so that the delimiters of a
//! commit header (`(`, `)`, `!`, `:` and the line feed) have a known class.
//! Beyond ASCII the Unicode tables of the standard library decide. No
//! character is in both classes: what is whitespace is never alphanumeric.

use vstd::prelude::*;

verus! {

/// What `char::is_whitespace` answers for `c`: whether `c` has the Unicode
/// property `White_Space`.
pub uninterp spec fn unicode_whitespace(c: char) -> bool;

/// What `char::is_alphanumeric` answers for `c`: whether `c` has the Unicode
/// property `Alphabetic` or is a number of the categories `Nd`, `Nl`, `No`.
pub uninterp spec fn unicode_alphanumeric(c: char) -> bool;

/// `char::is_whitespace` of the standard library. Not verified: the result is
/// only given its name, [`unicode_whitespace`].
#[verifier::external_body]
fn unicode_is_whitespace(c: char) -> (r: bool)
    ensures
        r == unicode_whitespace(c),
{
    c.is_whitespace()
}

/// `char::is_alphanumeric` of the standard library. Not verified: the result
/// is only given its name, [`unicode_alphanumeric`].
#[verifier::external_body]
fn unicode_is_alphanumeric(c: char) -> (r: bool)
    ensures
        r == unicode_alphanumeric(c),
{
    c.is_alphanumeric()
}

/// `c` is one of the 128 ASCII characters.
pub open spec fn is_ascii(c: char) -> bool {
    c <= '\x7f'
}

/// Whitespace: in ASCII the space and the controls from tab to carriage
/// return (tab, line feed, vertical tab, form feed, carriage return).
pub open spec fn is_whitespace(c: char) -> bool {
    if is_ascii(c) {
        c == ' ' || ('\t' <= c && c <= '\r')
    } else {
        unicode_whitespace(c)
    }
}

/// Alphanumeric: in ASCII the letters and the decimal digits; beyond ASCII
/// what Unicode calls alphabetic or numeric, unless it is whitespace.
pub open spec fn is_alphanumeric(c: char) -> bool {
    if is_ascii(c) {
        ('a' <= c && c <= 'z') || ('A' <= c && c <= 'Z') || ('0' <= c && c <= '9')
    } else {
        unicode_alphanumeric(c) && !unicode_whitespace(c)
    }
}

/// No character is both alphanumeric and whitespace.
pub proof fn lemma_alphanumeric_is_no_whitespace(c: char)
    ensures
        is_alphanumeric(c) ==> !is_whitespace(c),
{
}

/// Decides [`is_whitespace`].
pub fn char_is_whitespace(c: char) -> (r: bool)
    ensures
        r == is_whitespace(c),
{
    if c <= '\x7f' {
        c == ' ' || ('\t' <= c && c <= '\r')
    } else {
        unicode_is_whitespace(c)
    }
}

/// Decides [`is_alphanumeric`].
pub fn char_is_alphanumeric(c: char) -> (r: bool)
    ensures
        r == is_alphanumeric(c),
{
    if c <= '\x7f' {
        ('a' <= c && c <= 'z') || ('A' <= c && c <= 'Z') || ('0' <= c && c <= '9')
    } else {
        unicode_is_alphanumeric(c) && !unicode_is_whitespace(c)
    }
}

} // verus!
