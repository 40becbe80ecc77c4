//! Character classification and the small trusted layer over std's Unicode
//! queries and string conversions.
//!
//! The ASCII digit classes are stated and implemented directly; the Unicode
//! classes (alphabetic, numeric) and the lowercase mapping are functions of
//! the character data alone whose full definitions fill Unicode tables, so
//! they are given names and the std calls are trusted to return them.

use vstd::prelude::*;

verus! {

/// `c` is an ASCII decimal digit, exactly the class `char::is_digit(10)` accepts.
pub open spec fn is_dec_digit(c: char) -> bool {
    '0' <= c && c <= '9'
}

/// `c` is an ASCII hexadecimal digit, exactly the class `char::is_digit(16)` accepts.
pub open spec fn is_hex_digit(c: char) -> bool {
    is_dec_digit(c) || ('a' <= c && c <= 'f') || ('A' <= c && c <= 'F')
}

/// Whether `c` has the Unicode `Alphabetic` property, as `char::is_alphabetic`
/// reports it.
pub uninterp spec fn unicode_alphabetic(c: char) -> bool;

/// Whether `c` has a Unicode numeric property, as `char::is_numeric` reports it.
pub uninterp spec fn unicode_numeric(c: char) -> bool;

/// `c` may continue an identifier lexeme: the class `char::is_alphanumeric`
/// accepts, which std documents as alphabetic or numeric.
pub open spec fn is_alnum(c: char) -> bool {
    unicode_alphabetic(c) || unicode_numeric(c)
}

/// The lowercase mapping of a character sequence, as `str::to_lowercase`
/// computes it; it depends on the characters alone.
pub uninterp spec fn lower_of(s: Seq<char>) -> Seq<char>;

/// Relies on `char::is_alphabetic`: whether `c` has the Unicode `Alphabetic`
/// property, a function of the character alone.
#[verifier::external_body]
pub fn char_alphabetic(c: char) -> (r: bool)
    ensures
        r == unicode_alphabetic(c),
{
    c.is_alphabetic()
}

/// Relies on `char::is_alphanumeric`, which std documents as returning
/// `c.is_alphabetic() || c.is_numeric()`.
#[verifier::external_body]
pub fn char_alphanumeric(c: char) -> (r: bool)
    ensures
        r == (unicode_alphabetic(c) || unicode_numeric(c)),
{
    c.is_alphanumeric()
}

/// Relies on `str::to_lowercase`: the lowercase mapping of the characters,
/// which depends on the characters alone.
#[verifier::external_body]
pub fn to_lowercase_str(s: &str) -> (r: String)
    ensures
        r@ == lower_of(s@),
{
    s.to_lowercase()
}

/// Relies on `String`'s `FromIterator<char>`: collecting characters yields a
/// string of exactly those characters.
#[verifier::external_body]
pub fn string_from_chars(v: &Vec<char>) -> (r: String)
    ensures
        r@ == v@,
{
    v.iter().collect()
}

/// Decides `is_dec_digit`.
pub fn dec_digit(c: char) -> (r: bool)
    ensures
        r == is_dec_digit(c),
{
    let u = c as u32;
    48 <= u && u <= 57
}

/// Decides `is_hex_digit`.
pub fn hex_digit(c: char) -> (r: bool)
    ensures
        r == is_hex_digit(c),
{
    let u = c as u32;
    (48 <= u && u <= 57) || (97 <= u && u <= 102) || (65 <= u && u <= 70)
}

/// The numeric value of a digit character: `0`–`9` count in any radix, and the
/// hexadecimal letters count from ten.
pub open spec fn digit_val(c: char) -> int {
    if is_dec_digit(c) {
        c as int - '0' as int
    } else if 'a' <= c && c <= 'f' {
        c as int - 'a' as int + 10
    } else if 'A' <= c && c <= 'F' {
        c as int - 'A' as int + 10
    } else {
        0
    }
}

/// Computes `digit_val` for digit characters.
pub fn digit_value(c: char) -> (d: u32)
    requires
        is_hex_digit(c),
    ensures
        d as int == digit_val(c),
        d < 16,
{
    let u = c as u32;
    if u <= 57 {
        u - 48
    } else if u >= 97 {
        u - 87
    } else {
        u - 55
    }
}

} // verus!
