//! Writing numbers as text, in decimal and in hexadecimal.

use crate::codec::string_from_chars;
use vstd::prelude::*;

verus! {

/// The character of a decimal digit.
pub open spec fn decimal_digit(value: int) -> char {
    ('0' as u8 + value) as u8 as char
}

/// The character of a hexadecimal digit, in upper case.
pub open spec fn hex_digit_upper(value: int) -> char {
    if value < 10 {
        ('0' as u8 + value) as u8 as char
    } else {
        ('A' as u8 + (value - 10)) as u8 as char
    }
}

/// The character of a hexadecimal digit, in lower case.
pub open spec fn hex_digit_lower(value: int) -> char {
    if value < 10 {
        ('0' as u8 + value) as u8 as char
    } else {
        ('a' as u8 + (value - 10)) as u8 as char
    }
}

/// The digits that write a natural number in decimal, without leading
/// zeros.
pub open spec fn decimal_digits(n: nat) -> Seq<char>
    decreases n,
{
    if n < 10 {
        seq![decimal_digit(n as int)]
    } else {
        decimal_digits(n / 10).push(decimal_digit((n % 10) as int))
    }
}

/// The digits that write a natural number in hexadecimal, in upper case and
/// without leading zeros.
pub open spec fn hex_digits_upper(n: nat) -> Seq<char>
    decreases n,
{
    if n < 16 {
        seq![hex_digit_upper(n as int)]
    } else {
        hex_digits_upper(n / 16).push(hex_digit_upper((n % 16) as int))
    }
}

/// The text that writes an integer in decimal.
pub open spec fn decimal_text(n: int) -> Seq<char> {
    if n < 0 {
        seq!['-'] + decimal_digits((-n) as nat)
    } else {
        decimal_digits(n as nat)
    }
}

/// Two lower-case hexadecimal digits for each byte.
pub open spec fn hex_lower(bytes: Seq<u8>) -> Seq<char> {
    Seq::new(
        2 * bytes.len(),
        |k: int|
            if k % 2 == 0 {
                hex_digit_lower(bytes[k / 2] as int / 16)
            } else {
                hex_digit_lower(bytes[k / 2] as int % 16)
            },
    )
}

/// Appends the decimal digits of a natural number.
pub fn push_decimal_digits(out: &mut Vec<char>, n: u64)
    ensures
        final(out)@ == old(out)@ + decimal_digits(n as nat),
    decreases n,
{
    let ghost before = out@;
    if n >= 10 {
        push_decimal_digits(out, n / 10);
    }
    let digit = (48u8 + (n % 10) as u8) as char;
    out.push(digit);
    assert(out@ =~= before + decimal_digits(n as nat));
}

/// Appends the upper-case hexadecimal digits of a natural number.
pub fn push_hex_digits_upper(out: &mut Vec<char>, n: u64)
    ensures
        final(out)@ == old(out)@ + hex_digits_upper(n as nat),
    decreases n,
{
    let ghost before = out@;
    if n >= 16 {
        push_hex_digits_upper(out, n / 16);
    }
    let value = (n % 16) as u8;
    let digit = if value < 10 {
        (48u8 + value) as char
    } else {
        (65u8 + (value - 10)) as char
    };
    out.push(digit);
    assert(out@ =~= before + hex_digits_upper(n as nat));
}

/// Appends the decimal text of a 32-bit integer.
pub fn push_decimal(out: &mut Vec<char>, n: i32)
    ensures
        final(out)@ == old(out)@ + decimal_text(n as int),
{
    let ghost before = out@;
    if n < 0 {
        out.push('-');
        push_decimal_digits(out, (-(n as i64)) as u64);
        assert(out@ =~= before + decimal_text(n as int));
    } else {
        push_decimal_digits(out, n as u64);
    }
}

/// The decimal text of a natural number.
pub fn decimal_string(n: u64) -> (text: String)
    ensures
        text@ == decimal_digits(n as nat),
{
    let mut chars: Vec<char> = Vec::new();
    push_decimal_digits(&mut chars, n);
    assert(chars@ =~= decimal_digits(n as nat));
    string_from_chars(&chars)
}

} // verus!
