//! Character classes used by the scanner: horizontal whitespace, ASCII
//! letters and digits, identifier characters, and ASCII case folding.

use vstd::prelude::*;

verus! {

/// Horizontal whitespace: space or tab. Newlines are significant to the
/// scanner and are never part of this class.
pub open spec fn is_space_char(c: char) -> bool {
    c == ' ' || c == '\t'
}

/// An ASCII decimal digit.
pub open spec fn is_digit_char(c: char) -> bool {
    48 <= c as u32 <= 57
}

/// The numeric value of an ASCII decimal digit.
pub open spec fn digit_val(c: char) -> nat {
    (c as u32 - 48) as nat
}

/// An ASCII letter.
pub open spec fn is_letter_char(c: char) -> bool {
    (97 <= c as u32 <= 122) || (65 <= c as u32 <= 90)
}

/// A character that may start an identifier: a letter or an underscore.
pub open spec fn is_ident_start_char(c: char) -> bool {
    is_letter_char(c) || c == '_'
}

/// A character that may appear anywhere in an identifier.
pub open spec fn is_ident_char(c: char) -> bool {
    is_letter_char(c) || is_digit_char(c) || c == '_'
}

/// ASCII lower-casing of a single character; other characters are unchanged.
pub open spec fn lower_char(c: char) -> char {
    if 65 <= c as u32 <= 90 {
        (c as u32 + 32) as char
    } else {
        c
    }
}

pub fn digit_check(c: char) -> (b: bool)
    ensures
        b == is_digit_char(c),
{
    c as u32 >= 48 && c as u32 <= 57
}

pub fn digit_value(c: char) -> (d: u32)
    requires
        is_digit_char(c),
    ensures
        d == digit_val(c),
{
    c as u32 - 48
}

pub fn letter_check(c: char) -> (b: bool)
    ensures
        b == is_letter_char(c),
{
    (c as u32 >= 97 && c as u32 <= 122) || (c as u32 >= 65 && c as u32 <= 90)
}

pub fn ident_start_check(c: char) -> (b: bool)
    ensures
        b == is_ident_start_char(c),
{
    letter_check(c) || c == '_'
}

pub fn ident_char_check(c: char) -> (b: bool)
    ensures
        b == is_ident_char(c),
{
    letter_check(c) || digit_check(c) || c == '_'
}

pub fn lower(c: char) -> (l: char)
    ensures
        l == lower_char(c),
{
    if c as u32 >= 65 && c as u32 <= 90 {
        ((c as u32 + 32) as u8) as char
    } else {
        c
    }
}

} // verus!
