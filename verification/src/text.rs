use vstd::prelude::*;

verus! {

/// What `char::is_alphanumeric` gives for `c`: whether `c` is alphabetic or numeric in the
/// Unicode tables of the standard library.
pub uninterp spec fn char_is_alphanumeric(c: char) -> bool;

/// What `char::is_numeric` gives for `c`: whether `c` has one of the Unicode general
/// categories for numbers (`Nd`, `Nl`, `No`).
pub uninterp spec fn char_is_numeric(c: char) -> bool;

/// Whether `c` is an ASCII letter or digit.
pub open spec fn is_ascii_alphanumeric(c: char) -> bool {
    ('a' <= c <= 'z') || ('A' <= c <= 'Z') || ('0' <= c <= '9')
}

/// Calls `char::is_alphanumeric`. The contract claims that the answer is
/// [`char_is_alphanumeric`] of `c`, a function of `c` alone, and, as the standard library
/// documents, that among ASCII characters exactly the letters and digits are alphanumeric.
/// Which characters beyond ASCII are alphanumeric is left to the standard library's Unicode
/// tables and is not stated here.
#[verifier::external_body]
pub(crate) fn is_alphanumeric(c: char) -> (b: bool)
    ensures
        b == char_is_alphanumeric(c),
        (c as u32) < 128 ==> (b <==> is_ascii_alphanumeric(c)),
{
    c.is_alphanumeric()
}

/// Calls `char::is_numeric`. The contract claims that the answer is [`char_is_numeric`] of
/// `c`, a function of `c` alone, and, as the standard library documents, that among ASCII
/// characters exactly the digits `0` to `9` are numeric. Which characters beyond ASCII are
/// numeric is left to the standard library's Unicode tables and is not stated here.
#[verifier::external_body]
pub(crate) fn is_numeric(c: char) -> (b: bool)
    ensures
        b == char_is_numeric(c),
        (c as u32) < 128 ==> (b <==> ('0' <= c <= '9')),
{
    c.is_numeric()
}

/// Calls `String::push`. The contract claims that the characters of `text` afterwards are
/// those before with `c` appended.
#[verifier::external_body]
pub(crate) fn push_char(text: &mut String, c: char)
    ensures
        final(text)@ == old(text)@.push(c),
{
    text.push(c);
}

} // verus!
