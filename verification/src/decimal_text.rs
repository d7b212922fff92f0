//! Decimal numerals: reading one with the standard parser of `u16`, and
//! writing one.
use vstd::prelude::*;

use crate::text::push_char;

verus! {

/// The error of the standard integer parsers.
#[verifier::external_type_specification]
#[verifier::external_body]
pub struct ExParseIntError(core::num::ParseIntError);

/// `c` is one of the ASCII digits `0` to `9`.
pub open spec fn is_digit(c: char) -> bool {
    '0' <= c <= '9'
}

/// The value of the ASCII digit `c`.
pub open spec fn digit_value(c: char) -> int {
    c as int - '0' as int
}

/// The ASCII digit whose value is `d` (for `0 <= d <= 9`).
pub open spec fn digit_char(d: int) -> char {
    (d + '0' as int) as char
}

/// `s` is made of ASCII digits only.
pub open spec fn all_digits(s: Seq<char>) -> bool {
    forall|k: int| 0 <= k < s.len() ==> is_digit(#[trigger] s[k])
}

/// The value of the digit string `s`, read in base ten.
pub open spec fn digits_value(s: Seq<char>) -> nat
    decreases s.len(),
{
    if s.len() == 0 {
        0
    } else {
        (digits_value(s.drop_last()) * 10 + digit_value(s.last())) as nat
    }
}

/// What the standard `u16` parser reads from `s`: an optional leading `+`,
/// then one or more ASCII digits whose value fits in a `u16`.
pub open spec fn parsed_u16(s: Seq<char>) -> Option<u16> {
    let body = if s.len() > 0 && s[0] == '+' {
        s.drop_first()
    } else {
        s
    };
    if body.len() > 0 && all_digits(body) && digits_value(body) <= u16::MAX {
        Some(digits_value(body) as u16)
    } else {
        None
    }
}

/// The error that the standard `u16` parser gives on the text `s`, where it
/// gives one. Parsing depends on the text alone, so equal texts give equal
/// errors.
pub uninterp spec fn u16_parse_error(s: Seq<char>) -> core::num::ParseIntError;

/// Parses `s` as a `u16` with the standard parser (`str::parse::<u16>`).
///
/// Its documentation: the string is an optional `+` sign followed by digits
/// only; anything else (an empty string, a lone sign, another character, a
/// value above `u16::MAX`) is an error. The contract states that the result
/// is `Ok` exactly on those strings, with their value, and that the error is
/// the one the parser gives on that text (`u16_parse_error`); it states
/// nothing of that error's kind, whose value the contract cannot look into.
#[verifier::external_body]
pub fn parse_u16(s: &str) -> (result: Result<u16, core::num::ParseIntError>)
    ensures
        match result {
            Ok(n) => parsed_u16(s@) == Some(n),
            Err(e) => parsed_u16(s@) is None && e == u16_parse_error(s@),
        },
{
    s.parse::<u16>()
}

/// The decimal numeral of `n`, without leading zeros (`0` for zero).
pub open spec fn decimal_digits(n: nat) -> Seq<char>
    decreases n,
{
    if n < 10 {
        seq![digit_char(n as int)]
    } else {
        decimal_digits(n / 10).push(digit_char((n % 10) as int))
    }
}

/// Returns the ASCII digit whose value is `d`.
pub fn digit_to_char(d: u16) -> (c: char)
    requires
        d < 10,
    ensures
        c == digit_char(d as int),
        is_digit(c),
        digit_value(c) == d,
{
    let c = (48u8 + d as u8) as char;
    c
}

/// Writes `n` in decimal, without leading zeros.
pub fn decimal_string(n: u16) -> (s: String)
    ensures
        s@ == decimal_digits(n as nat),
    decreases n,
{
    if n < 10 {
        let mut s = String::new();
        push_char(&mut s, digit_to_char(n));
        assert(s@ =~= seq![digit_char(n as int)]);
        s
    } else {
        let mut s = decimal_string(n / 10);
        push_char(&mut s, digit_to_char(n % 10));
        s
    }
}

/// A decimal numeral is made of digits, and reads back as the number that it
/// was written from.
pub proof fn lemma_decimal_digits(n: nat)
    ensures
        decimal_digits(n).len() > 0,
        all_digits(decimal_digits(n)),
        digits_value(decimal_digits(n)) == n,
    decreases n,
{
    if n >= 10 {
        lemma_decimal_digits(n / 10);
        let s = decimal_digits(n);
        assert(s.drop_last() == decimal_digits(n / 10));
        assert(digit_value(digit_char((n % 10) as int)) == n % 10);
        assert((n / 10) * 10 + n % 10 == n);
        assert(s.last() == digit_char((n % 10) as int));
        assert(digits_value(s) == digits_value(s.drop_last()) * 10 + digit_value(s.last()));
        assert forall|k: int| 0 <= k < s.len() implies is_digit(#[trigger] s[k]) by {
            if k < s.len() - 1 {
                assert(s[k] == decimal_digits(n / 10)[k]);
            }
        }
    } else {
        let s = decimal_digits(n);
        assert(s.drop_last() =~= Seq::<char>::empty());
        assert(digit_value(digit_char(n as int)) == n);
        assert(digits_value(s.drop_last()) == 0);
        assert(s.last() == digit_char(n as int));
    }
}

} // verus!
