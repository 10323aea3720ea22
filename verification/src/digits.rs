//! Hexadecimal digits as characters.

use vstd::prelude::*;

verus! {

/// Whether `c` is one of `0-9`, `a-f`, `A-F`.
pub open spec fn is_hex_digit(c: char) -> bool {
    ||| '0' <= c <= '9'
    ||| 'a' <= c <= 'f'
    ||| 'A' <= c <= 'F'
}

/// The number from 0 to 15 that the hex digit `c` stands for, in either case.
pub open spec fn hex_digit_value(c: char) -> int
    recommends
        is_hex_digit(c),
{
    if '0' <= c <= '9' {
        c as int - '0' as int
    } else if 'a' <= c <= 'f' {
        c as int - 'a' as int + 10
    } else {
        c as int - 'A' as int + 10
    }
}

/// The digit for `value`, with the letters in upper case.
pub open spec fn upper_hex_digit(value: int) -> char
    recommends
        0 <= value < 16,
{
    if value < 10 {
        ('0' as int + value) as char
    } else {
        ('A' as int + value - 10) as char
    }
}

/// The two upper-case digits of one byte, high digit first.
pub open spec fn byte_digits(byte: u8) -> Seq<char> {
    seq![upper_hex_digit(byte as int / 16), upper_hex_digit(byte as int % 16)]
}

/// The byte that the digits `high` and `low` spell.
pub open spec fn byte_of_digits(high: char, low: char) -> u8
    recommends
        is_hex_digit(high),
        is_hex_digit(low),
{
    (hex_digit_value(high) * 16 + hex_digit_value(low)) as u8
}

/// An upper-case digit is a hex digit and stands for the value it was made
/// from.
pub proof fn lemma_upper_hex_digit(value: int)
    requires
        0 <= value < 16,
    ensures
        is_hex_digit(upper_hex_digit(value)),
        hex_digit_value(upper_hex_digit(value)) == value,
        !('a' <= upper_hex_digit(value) <= 'f'),
{
}

/// The digits of a byte spell that byte.
pub proof fn lemma_byte_digits(byte: u8)
    ensures
        byte_digits(byte).len() == 2,
        is_hex_digit(byte_digits(byte)[0]),
        is_hex_digit(byte_digits(byte)[1]),
        byte_of_digits(byte_digits(byte)[0], byte_digits(byte)[1]) == byte,
{
    lemma_upper_hex_digit(byte as int / 16);
    lemma_upper_hex_digit(byte as int % 16);
}

/// Tells whether `c` is a hex digit.
pub fn is_hex_digit_char(c: char) -> (b: bool)
    ensures
        b == is_hex_digit(c),
{
    ('0' <= c && c <= '9') || ('a' <= c && c <= 'f') || ('A' <= c && c <= 'F')
}

/// The value of a hex digit, or `None` for any other character.
pub fn hex_value(c: char) -> (value: Option<u8>)
    ensures
        is_hex_digit(c) ==> value == Some(hex_digit_value(c) as u8),
        !is_hex_digit(c) ==> value is None,
        value matches Some(v) ==> v < 16,
{
    let code = c as u32;
    if '0' <= c && c <= '9' {
        Some((code - 48) as u8)
    } else if 'a' <= c && c <= 'f' {
        Some((code - 87) as u8)
    } else if 'A' <= c && c <= 'F' {
        Some((code - 55) as u8)
    } else {
        None
    }
}

/// The upper-case digit for a value below 16.
pub fn upper_digit(value: u8) -> (c: char)
    requires
        value < 16,
    ensures
        c == upper_hex_digit(value as int),
{
    if value < 10 {
        (48u8 + value) as char
    } else {
        (55u8 + value) as char
    }
}

} // verus!
