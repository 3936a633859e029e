//! Character classification and text building.
//!
//! The lexer classifies characters the way the standard library does:
//! Unicode-aware alphabetic, alphanumeric and whitespace tests. Within the
//! ASCII range those classes are fixed and stated outright; beyond it each
//! class is a named, opaque predicate whose value only the standard library
//! computes.

use vstd::prelude::*;
use vstd::string::StrSliceExecFns;

verus! {

/// Whether a character beyond ASCII has the Unicode `Alphabetic` property,
/// as `char::is_alphabetic` decides it.
pub uninterp spec fn unicode_alphabetic(c: char) -> bool;

/// Whether a character beyond ASCII is numeric, as `char::is_numeric`
/// decides it.
pub uninterp spec fn unicode_numeric(c: char) -> bool;

/// Whether a character beyond ASCII has the Unicode `White_Space` property,
/// as `char::is_whitespace` decides it.
pub uninterp spec fn unicode_whitespace(c: char) -> bool;

/// An ASCII decimal digit.
pub open spec fn is_ascii_digit(c: char) -> bool {
    ('0' as u32) <= c as u32 && c as u32 <= ('9' as u32)
}

/// What `char::is_alphabetic` returns: within ASCII, exactly the letters.
pub open spec fn is_alphabetic(c: char) -> bool {
    if (c as u32) < 128 {
        (('a' as u32) <= c as u32 && c as u32 <= ('z' as u32)) || (('A' as u32) <= c as u32 && c as u32 <= ('Z' as u32))
    } else {
        unicode_alphabetic(c)
    }
}

/// What `char::is_alphanumeric` returns: a character satisfying either the
/// alphabetic or the numeric test; within ASCII the numeric characters are
/// the decimal digits.
pub open spec fn is_alphanumeric(c: char) -> bool {
    is_alphabetic(c) || (if (c as u32) < 128 {
        ('0' as u32) <= c as u32 && c as u32 <= ('9' as u32)
    } else {
        unicode_numeric(c)
    })
}

/// What `char::is_whitespace` returns: within ASCII, the space character and
/// the five control characters U+0009..U+000D.
pub open spec fn is_whitespace(c: char) -> bool {
    if (c as u32) < 128 {
        c == ' ' || (9 <= c as u32 && c as u32 <= 13)
    } else {
        unicode_whitespace(c)
    }
}

/// Relies on `char::is_alphabetic`: within ASCII the `Alphabetic` property
/// holds of exactly `a`-`z` and `A`-`Z`; beyond ASCII the result is named
/// `unicode_alphabetic`.
#[verifier::external_body]
pub fn char_is_alphabetic(c: char) -> (r: bool)
    ensures
        r == is_alphabetic(c),
        c as u32 >= 128 ==> r == unicode_alphabetic(c),
{
    c.is_alphabetic()
}

/// Relies on `char::is_alphanumeric`: it holds of a character satisfying
/// either `char::is_alphabetic` or `char::is_numeric`, as its documentation
/// states; within ASCII the numeric characters are the decimal digits, and
/// beyond ASCII the numeric test is named `unicode_numeric`.
#[verifier::external_body]
pub fn char_is_alphanumeric(c: char) -> (r: bool)
    ensures
        r == is_alphanumeric(c),
        c as u32 >= 128 ==> r == (unicode_alphabetic(c) || unicode_numeric(c)),
{
    c.is_alphanumeric()
}

/// Relies on `char::is_whitespace`: within ASCII the `White_Space` property
/// holds of exactly space and U+0009..U+000D; beyond ASCII the result is
/// named `unicode_whitespace`.
#[verifier::external_body]
pub fn char_is_whitespace(c: char) -> (r: bool)
    ensures
        r == is_whitespace(c),
        c as u32 >= 128 ==> r == unicode_whitespace(c),
{
    c.is_whitespace()
}

/// An executable ASCII digit test; no library call is needed.
pub fn char_is_ascii_digit(c: char) -> (r: bool)
    ensures
        r == is_ascii_digit(c),
{
    ('0' as u32) <= c as u32 && c as u32 <= ('9' as u32)
}

/// Relies on `String::from_iter` over `char`: collecting characters yields
/// the string of exactly those characters in order.
#[verifier::external_body]
pub fn chars_to_string(v: &Vec<char>) -> (s: String)
    ensures
        s@ == v@,
{
    v.iter().collect()
}

/// The text formed by the characters `v[start..end]`.
pub fn slice_to_string(v: &Vec<char>, start: usize, end: usize) -> (s: String)
    requires
        start <= end <= v@.len(),
    ensures
        s@ == v@.subrange(start as int, end as int),
{
    let mut out: Vec<char> = Vec::new();
    let mut i: usize = start;
    while i < end
        invariant
            start <= i <= end <= v@.len(),
            out@ == v@.subrange(start as int, i as int),
        decreases end - i,
    {
        out.push(v[i]);
        i = i + 1;
        proof {
            assert(out@ =~= v@.subrange(start as int, i as int));
        }
    }
    chars_to_string(&out)
}

/// The characters of `input`, in order.
pub fn str_to_chars(input: &str) -> (v: Vec<char>)
    ensures
        v@ == input@,
{
    let n = input.unicode_len();
    let mut v: Vec<char> = Vec::new();
    let mut i: usize = 0;
    while i < n
        invariant
            n == input@.len(),
            i <= n,
            v@ == input@.subrange(0, i as int),
        decreases n - i,
    {
        v.push(input.get_char(i));
        i = i + 1;
        proof {
            assert(v@ =~= input@.subrange(0, i as int));
        }
    }
    proof {
        assert(v@ =~= input@);
    }
    v
}

} // verus!
