//! The 37-symbol alphabet of canonical keys and its digit mapping.

use vstd::prelude::*;

verus! {

/// The sentinel digit: `'='` and every character outside `0-9` and `a-z`.
pub const SENTINEL: u32 = 36;

/// The digit that a character stands for: `0`-`9` give 0-9, `a`-`z` give
/// 10-35, and `'='` as well as any other character gives the sentinel 36.
pub open spec fn digit_of(c: char) -> nat {
    if '0' <= c && c <= '9' {
        (c as u32 - '0' as u32) as nat
    } else if 'a' <= c && c <= 'z' {
        (c as u32 - 'a' as u32 + 10) as nat
    } else {
        36
    }
}

/// The character that a digit in `[0, 36]` stands for.
pub open spec fn symbol_of(d: nat) -> char
    recommends
        d <= 36,
{
    if d < 10 {
        (('0' as u32) + d) as char
    } else if d < 36 {
        (('a' as u32) + (d - 10)) as char
    } else {
        '='
    }
}

/// Whether `c` is an ASCII character.
pub open spec fn is_ascii_char(c: char) -> bool {
    (c as u32) < 128
}

/// The lower case of an ASCII character: capitals become small letters,
/// every other ASCII character stays as it is.
pub open spec fn ascii_lower(c: char) -> char {
    if 'A' <= c && c <= 'Z' {
        ((c as u32) + 32) as char
    } else {
        c
    }
}

/// The lower case of a non-ASCII character under Unicode's case mapping:
/// one or more characters, which depend on the character alone.
pub uninterp spec fn lowercase_of(c: char) -> Seq<char>;

/// The characters that lower-casing `c` gives.
pub open spec fn lowered_char(c: char) -> Seq<char> {
    if is_ascii_char(c) {
        seq![ascii_lower(c)]
    } else {
        lowercase_of(c)
    }
}

/// Whether a character is one of the 36 symbols `0-9` and `a-z`.
pub open spec fn is_symbol(c: char) -> bool {
    ('0' <= c && c <= '9') || ('a' <= c && c <= 'z')
}

/// Every digit of the alphabet maps to a character that maps back to it.
pub proof fn lemma_digit_round_trip(d: nat)
    requires
        d <= 36,
    ensures
        digit_of(symbol_of(d)) == d,
{
}

/// Relies on `char::to_lowercase`: the Unicode lower case of `c`, which for
/// an ASCII character is that character with `A`-`Z` folded to `a`-`z`.
#[verifier::external_body]
pub(crate) fn lowercase_char(c: char) -> (r: Vec<char>)
    ensures
        is_ascii_char(c) ==> r@ == seq![ascii_lower(c)],
        !is_ascii_char(c) ==> r@ == lowercase_of(c),
{
    c.to_lowercase().collect()
}

/// Maps a character to its digit; total, and lossy on the sentinel.
pub fn convert_char(c: char) -> (d: u32)
    ensures
        d == digit_of(c),
        d <= 36,
{
    if c >= '0' && c <= '9' {
        return c as u32 - '0' as u32;
    }
    if c >= 'a' && c <= 'z' {
        return c as u32 - 'a' as u32 + 10;
    }
    if c == '=' {
        return SENTINEL;
    }
    SENTINEL
}

/// Maps a digit back to its character.
pub fn deconvert_char(n: u32) -> (c: char)
    requires
        n <= 36,
    ensures
        c == symbol_of(n as nat),
{
    if n < 10 {
        return (n as u8 + '0' as u8) as char;
    }
    if n < 36 {
        return ((n - 10) as u8 + 'a' as u8) as char;
    }
    '='
}

} // verus!
