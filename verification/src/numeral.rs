//! Numbers written as digits.

use vstd::prelude::*;
use vstd::string::*;

use crate::text::chars_of;

verus! {

pub open spec fn is_digit(c: char) -> bool {
    '0' <= c <= '9'
}

/// The value of a decimal digit.
pub open spec fn digit_value(c: char) -> int {
    c as int - '0' as int
}

/// The decimal digit of a value below ten.
pub open spec fn digit_char(value: int) -> char {
    ('0' as int + value) as char
}

/// Whether every character is a decimal digit.
pub open spec fn all_digits(text: Seq<char>) -> bool {
    forall|i: int| 0 <= i < text.len() ==> is_digit(#[trigger] text[i])
}

/// The number that a run of decimal digits stands for.
pub open spec fn number_of(digits: Seq<char>) -> int
    decreases digits.len(),
{
    if digits.len() == 0 {
        0
    } else {
        10 * number_of(digits.drop_last()) + digit_value(digits.last())
    }
}

/// The decimal digits of a number.
pub open spec fn decimal(number: nat) -> Seq<char>
    decreases number,
{
    if number < 10 {
        seq![digit_char(number as int)]
    } else {
        decimal(number / 10).push(digit_char((number % 10) as int))
    }
}

/// The decimal digits of an integer, with a minus sign before a negative one.
pub open spec fn signed_decimal(number: int) -> Seq<char> {
    if number < 0 {
        seq!['-'] + decimal((-number) as nat)
    } else {
        decimal(number as nat)
    }
}

/// The sixteen lower-case hexadecimal digits; `width` says how many of the
/// lowest are meant.
pub open spec fn hex_digits(number: nat, width: nat) -> Seq<char>
    decreases width,
{
    if width == 0 {
        seq![]
    } else {
        hex_digits(number / 16, (width - 1) as nat).push(hex_char(number % 16))
    }
}

pub open spec fn hex_char(value: nat) -> char {
    if value < 10 {
        ('0' as int + value) as char
    } else {
        ('a' as int + value - 10) as char
    }
}

/// The decimal digits of a number.
pub fn decimal_u128(number: u128) -> (text: String)
    ensures
        text@ == decimal(number as nat),
    decreases number,
{
    if number < 10 {
        let mut text = String::new();
        text.push((48 + number as u8) as char);
        assert(text@ =~= decimal(number as nat));
        text
    } else {
        let mut text = decimal_u128(number / 10);
        text.push((48 + (number % 10) as u8) as char);
        text
    }
}

pub fn decimal_u64(number: u64) -> (text: String)
    ensures
        text@ == decimal(number as nat),
{
    decimal_u128(number as u128)
}

pub fn decimal_usize(number: usize) -> (text: String)
    ensures
        text@ == decimal(number as nat),
{
    decimal_u64(number as u64)
}

pub fn decimal_i64(number: i64) -> (text: String)
    ensures
        text@ == signed_decimal(number as int),
{
    if number < 0 {
        let mut text = String::new();
        text.push('-');
        let size: i128 = -(number as i128);
        text.append(decimal_u64(size as u64).as_str());
        assert(text@ =~= signed_decimal(number as int));
        text
    } else {
        decimal_u64(number as u64)
    }
}

/// The sixteen hexadecimal digits of a number, in lower case.
pub fn hex_u64(number: u64) -> (text: String)
    ensures
        text@ == hex_digits(number as nat, 16),
{
    hex_width(number, 16)
}

fn hex_width(number: u64, width: u64) -> (text: String)
    ensures
        text@ == hex_digits(number as nat, width as nat),
    decreases width,
{
    if width == 0 {
        String::new()
    } else {
        let mut text = hex_width(number / 16, width - 1);
        let value: u8 = (number % 16) as u8;
        if value < 10 {
            text.push((48 + value) as char);
        } else {
            text.push((97 + (value - 10)) as char);
        }
        text
    }
}

/// What `text` stands for as an integer: an optional sign and at least one
/// decimal digit.
pub open spec fn integer_of(text: Seq<char>) -> Option<int> {
    if text.len() > 1 && (text[0] == '+' || text[0] == '-') && all_digits(text.skip(1)) {
        if text[0] == '-' {
            Some(-number_of(text.skip(1)))
        } else {
            Some(number_of(text.skip(1)))
        }
    } else if text.len() > 0 && all_digits(text) {
        Some(number_of(text))
    } else {
        None
    }
}

/// What `text` stands for as a signed 64-bit integer.
pub open spec fn i64_of(text: Seq<char>) -> Option<i64> {
    match integer_of(text) {
        Some(number) => if i64::MIN <= number <= i64::MAX {
            Some(number as i64)
        } else {
            None
        },
        None => None,
    }
}

pub proof fn lemma_number_of_bound(digits: Seq<char>, n: int)
    requires
        all_digits(digits),
        0 <= n <= digits.len(),
    ensures
        0 <= number_of(digits.take(n)) <= number_of(digits),
    decreases digits.len(),
{
    if n == digits.len() {
        assert(digits.take(n) =~= digits);
        if digits.len() > 0 {
            lemma_number_of_bound(digits.drop_last(), digits.len() - 1);
            assert(digits.drop_last().take(digits.len() - 1) =~= digits.drop_last());
        }
    } else {
        lemma_number_of_bound(digits.drop_last(), n);
        assert(digits.drop_last().take(n) =~= digits.take(n));
    }
}

/// Whether every character from `start` on is a decimal digit.
pub fn digits_from(chars: &Vec<char>, start: usize) -> (digits: bool)
    requires
        start <= chars.len(),
    ensures
        digits == all_digits(chars@.skip(start as int)),
{
    let mut i: usize = start;
    let ghost rest = chars@.skip(start as int);
    while i < chars.len()
        invariant
            start <= i <= chars.len(),
            rest == chars@.skip(start as int),
            forall|k: int| 0 <= k < i - start ==> is_digit(#[trigger] rest[k]),
        decreases chars.len() - i,
    {
        if !('0' <= chars[i] && chars[i] <= '9') {
            assert(!is_digit(rest[i - start]));
            return false;
        }
        assert(rest[i - start] == chars@[i as int]);
        i = i + 1;
    }
    true
}

/// The number of a run of digits, capped: `None` where it exceeds `limit`.
fn bounded_number(chars: &Vec<char>, start: usize, limit: u128) -> (number: Option<u128>)
    requires
        start <= chars.len(),
        all_digits(chars@.skip(start as int)),
        limit <= 0xFFFF_FFFF_FFFF_FFFF_FFFF,
    ensures
        number matches Some(value) ==> value == number_of(chars@.skip(start as int)) && value
            <= limit,
        number is None ==> number_of(chars@.skip(start as int)) > limit,
{
    let ghost digits = chars@.skip(start as int);
    let mut value: u128 = 0;
    let mut i: usize = start;
    assert(digits.take(0) =~= seq![]);
    while i < chars.len()
        invariant
            start <= i <= chars.len(),
            digits == chars@.skip(start as int),
            all_digits(digits),
            limit <= 0xFFFF_FFFF_FFFF_FFFF_FFFF,
            value == number_of(digits.take(i - start)),
            value <= limit,
        decreases chars.len() - i,
    {
        assert(digits[i - start] == chars@[i as int]);
        assert(is_digit(digits[i - start]));
        let digit: u128 = (chars[i] as u32 - '0' as u32) as u128;
        assert(digits.take(i + 1 - start).drop_last() =~= digits.take(i - start));
        value = value * 10 + digit;
        if value > limit {
            proof {
                lemma_number_of_bound(digits, i + 1 - start);
            }
            return None;
        }
        i = i + 1;
    }
    assert(digits.take(digits.len() as int) =~= digits);
    Some(value)
}

/// Reads a signed 64-bit integer.
pub fn parse_i64(text: &str) -> (number: Option<i64>)
    ensures
        number == i64_of(text@),
{
    let chars = chars_of(text);
    let signed = chars.len() > 1 && (chars[0] == '+' || chars[0] == '-') && digits_from(&chars, 1);
    if signed {
        let negative = chars[0] == '-';
        let limit: u128 = if negative {
            9_223_372_036_854_775_808
        } else {
            9_223_372_036_854_775_807
        };
        match bounded_number(&chars, 1, limit) {
            Some(value) => {
                if negative {
                    let size: i128 = value as i128;
                    Some((-size) as i64)
                } else {
                    Some(value as i64)
                }
            },
            None => None,
        }
    } else {
        assert(text@.skip(0) =~= text@);
        if chars.len() > 0 && digits_from(&chars, 0) {
            match bounded_number(&chars, 0, 9_223_372_036_854_775_807) {
                Some(value) => Some(value as i64),
                None => None,
            }
        } else {
            None
        }
    }
}

/// The digits of a number stand for that number.
pub proof fn decimal_reads_back(number: nat)
    ensures
        all_digits(decimal(number)),
        decimal(number).len() > 0,
        number_of(decimal(number)) == number,
    decreases number,
{
    reveal_with_fuel(number_of, 2);
    if number >= 10 {
        decimal_reads_back(number / 10);
        assert(decimal(number).drop_last() =~= decimal(number / 10));
    } else {
        assert(decimal(number).drop_last() =~= seq![]);
    }
}

/// A 64-bit integer is read back from its decimal digits.
pub proof fn signed_decimal_reads_back(number: i64)
    ensures
        i64_of(signed_decimal(number as int)) == Some(number),
{
    if number < 0 {
        decimal_reads_back((-number) as nat);
        assert(signed_decimal(number as int).skip(1) =~= decimal((-number) as nat));
    } else {
        decimal_reads_back(number as nat);
        let digits = decimal(number as nat);
        assert(is_digit(digits[0]));
    }
}

} // verus!
