use vstd::prelude::*;

verus! {

/// Whether Unicode classes `c` as whitespace, as `char::is_whitespace` decides it.
pub uninterp spec fn is_whitespace_char(c: char) -> bool;

/// Whether Unicode classes `c` as alphabetic or numeric, as `char::is_alphanumeric`
/// decides it.
pub uninterp spec fn is_alphanumeric_char(c: char) -> bool;

/// The lowercase form of a character sequence, as `str::to_lowercase` computes it.
pub uninterp spec fn lower_of(s: Seq<char>) -> Seq<char>;

/// The length in bytes of the UTF-8 encoding of a character sequence.
pub uninterp spec fn byte_len_of(s: Seq<char>) -> nat;

/// The character sequences of a sequence of strings, element for element.
pub open spec fn views_of(s: Seq<String>) -> Seq<Seq<char>> {
    s.map_values(|x: String| x@)
}

/// Relies on `str::chars`: yields the characters of the slice in order.
#[verifier::external_body]
pub fn chars_of(s: &str) -> (r: Vec<char>)
    ensures
        r@ == s@,
{
    s.chars().collect()
}

/// Relies on `String as FromIterator<char>`: collects exactly the given
/// characters, in order, into a string.
#[verifier::external_body]
pub fn string_from_chars(v: &Vec<char>) -> (r: String)
    ensures
        r@ == v@,
{
    v.iter().collect()
}

/// Relies on `str`'s `PartialEq`: two slices are equal exactly when they hold
/// the same character sequence.
#[verifier::external_body]
pub fn str_eq(a: &str, b: &str) -> (r: bool)
    ensures
        r == (a@ == b@),
{
    a == b
}

/// Relies on `char::is_whitespace`: tests the Unicode whitespace property.
#[verifier::external_body]
pub fn is_ws(c: char) -> (r: bool)
    ensures
        r == is_whitespace_char(c),
{
    c.is_whitespace()
}

/// Relies on `char::is_alphanumeric`: tests whether the character is Unicode
/// alphabetic or numeric.
#[verifier::external_body]
pub fn is_alnum(c: char) -> (r: bool)
    ensures
        r == is_alphanumeric_char(c),
{
    c.is_alphanumeric()
}

/// Relies on `str::to_lowercase`: the result depends on the characters alone,
/// and every character lowercases to at least one character, so the result is
/// empty exactly when the input is.
#[verifier::external_body]
pub fn lowercase(s: &str) -> (r: String)
    ensures
        r@ == lower_of(s@),
        s@.len() > 0 ==> r@.len() > 0,
        s@.len() == 0 ==> r@.len() == 0,
{
    s.to_lowercase()
}

/// Relies on `str::len`: the length of the slice in UTF-8 bytes, a function of
/// its characters alone.
#[verifier::external_body]
pub fn byte_len(s: &str) -> (r: usize)
    ensures
        r == byte_len_of(s@),
{
    s.len()
}

} // verus!
