//! The two number types, `Roman` and `Decimal`, and the conversions between
//! them and from text.
use std::borrow::Cow;
use vstd::prelude::*;

use crate::decimal_text::{parse_u16, parsed_u16, u16_parse_error};
use crate::numeral::{roman_value, sum_values, token_indices, tokens};
use crate::symbols::{lemma_greedy_index, next_symbol, symbol_value, to_roman};
use crate::text::{chars_of, cow_text};

verus! {

/// A Roman numeral, held as its text (borrowed or owned).
pub struct Roman<'a>(pub Cow<'a, str>);

/// A decimal number; the numbers that Roman numerals write are `1..=3999`.
#[derive(Debug, PartialEq)]
pub struct Decimal(pub u16);

/// `c` is one of the seven Roman symbol letters `I V X L C D M`.
pub open spec fn is_symbol_char(c: char) -> bool {
    c == 'I' || c == 'V' || c == 'X' || c == 'L' || c == 'C' || c == 'D' || c == 'M'
}

/// Every character of `s` is a Roman symbol letter.
pub open spec fn all_symbol_chars(s: Seq<char>) -> bool {
    forall|k: int| 0 <= k < s.len() ==> is_symbol_char(#[trigger] s[k])
}

/// The value that `Decimal::from` gives a Roman numeral `s`: the sum of its
/// symbols, taken modulo `2^16` as a `u16` sum wraps.
pub open spec fn wrapped_roman_value(s: Seq<char>) -> u16 {
    (roman_value(s) % 0x1_0000) as u16
}

/// `Roman::try_from` accepts `s`: it is non-empty, made of symbol letters
/// only, its value lies in `1..=3999`, and written back from its value it
/// gives `s` again.
pub open spec fn is_well_formed_roman(s: Seq<char>) -> bool {
    &&& s.len() > 0
    &&& all_symbol_chars(s)
    &&& 1 <= wrapped_roman_value(s) <= 3999
    &&& to_roman(wrapped_roman_value(s) as nat) == s
}

/// Writes a decimal number as a Roman numeral: the largest symbol that fits
/// what is left, again and again.
impl<'a> From<Decimal> for Roman<'a> {
    fn from(decimal: Decimal) -> (roman: Self)
        ensures
            roman.0@ == to_roman(decimal.0 as nat),
    {
        let mut buf = String::new();
        let mut remaining = decimal.0;
        while remaining > 0
            invariant
                buf@ + to_roman(remaining as nat) == to_roman(decimal.0 as nat),
            decreases remaining,
        {
            let ghost before = buf@;
            proof {
                lemma_greedy_index(remaining as int);
            }
            let (amount, symbol) = next_symbol(remaining);
            remaining = remaining - amount;
            buf.append(symbol);
            assert(buf@ + to_roman(remaining as nat) == before + to_roman(
                (remaining + amount) as nat,
            ));
        }
        assert(buf@ + Seq::<char>::empty() == buf@);
        Roman(Cow::Owned(buf))
    }
}

impl<'a> vstd::std_specs::convert::FromSpecImpl<Decimal> for Roman<'a> {
    open spec fn obeys_from_spec() -> bool {
        false
    }

    open spec fn from_spec(v: Decimal) -> Self {
        arbitrary()
    }
}

/// Reads a Roman numeral as the sum of the values of its symbols, read from
/// the front (see `tokens`). The sum is a `u16` sum that wraps on overflow.
impl<'a> From<Roman<'a>> for Decimal {
    fn from(roman: Roman<'a>) -> (decimal: Self)
        ensures
            decimal.0 == wrapped_roman_value(roman.0@),
    {
        let symbols = tokens(cow_text(&roman.0));
        let ghost ts = token_indices(roman.0@);
        let mut total: u16 = 0;
        let mut k: usize = 0;
        while k < symbols.len()
            invariant
                ts == token_indices(roman.0@),
                symbols.len() == ts.len(),
                forall|j: int|
                    #![trigger symbols[j]]
                    0 <= j < symbols.len() ==> symbols[j].0 == symbol_value(ts[j]),
                0 <= k <= symbols.len(),
                total == sum_values(ts.take(k as int)) % 0x1_0000,
            decreases symbols.len() - k,
        {
            assert(ts.take(k + 1).drop_last() == ts.take(k as int));
            assert(sum_values(ts.take(k + 1)) == sum_values(ts.take(k as int)) + symbol_value(ts[k as int]));
            total = total.wrapping_add(symbols[k].0);
            k = k + 1;
        }
        assert(ts.take(k as int) == ts);
        Decimal(total)
    }
}

impl<'a> vstd::std_specs::convert::FromSpecImpl<Roman<'a>> for Decimal {
    open spec fn obeys_from_spec() -> bool {
        true
    }

    open spec fn from_spec(v: Roman<'a>) -> Self {
        Decimal(wrapped_roman_value(v.0@))
    }
}

/// Why `Roman::try_from` refused a text. Each variant holds the text.
#[derive(Debug, PartialEq)]
pub enum ParseRomanError {
    /// Made of symbol letters, but not the numeral that its value is written
    /// as (`IIII`, `VIM`, `IVIV`), or worth more than 3999 (`MMMM`).
    Malformed(String),
    /// Empty, or holding a character that is no symbol letter.
    Parse(String),
}

/// Whether `c` is one of the Roman symbol letters.
pub fn is_symbol_letter(c: char) -> (b: bool)
    ensures
        b == is_symbol_char(c),
{
    c == 'I' || c == 'V' || c == 'X' || c == 'L' || c == 'C' || c == 'D' || c == 'M'
}

/// Reads a text as a Roman numeral. The text is accepted when its value lies
/// in `1..=3999` and it is written exactly as the numeral of that value
/// (checked by writing the value back).
impl<'a> TryFrom<&'a str> for Roman<'a> {
    type Error = ParseRomanError;

    fn try_from(value: &'a str) -> (result: Result<Self, Self::Error>)
        ensures
            match result {
                Ok(roman) => roman.0@ == value@ && is_well_formed_roman(value@),
                Err(ParseRomanError::Parse(text)) => {
                    &&& text@ == value@
                    &&& (value@.len() == 0 || !all_symbol_chars(value@))
                },
                Err(ParseRomanError::Malformed(text)) => {
                    &&& text@ == value@
                    &&& value@.len() > 0
                    &&& all_symbol_chars(value@)
                    &&& !is_well_formed_roman(value@)
                },
            },
    {
        if value.is_empty() {
            return Err(ParseRomanError::Parse(value.to_owned()));
        }
        let chars = chars_of(value);
        let mut k: usize = 0;
        while k < chars.len()
            invariant
                chars@ == value@,
                0 <= k <= chars.len(),
                forall|j: int| 0 <= j < k ==> is_symbol_char(#[trigger] chars@[j]),
            decreases chars.len() - k,
        {
            if !is_symbol_letter(chars[k]) {
                return Err(ParseRomanError::Parse(value.to_owned()));
            }
            k = k + 1;
        }
        let decimal = Decimal::from(Roman(Cow::Borrowed(value)));
        if !(1 <= decimal.0 && decimal.0 <= 3999) {
            return Err(ParseRomanError::Malformed(value.to_owned()));
        }
        let roman = Roman::from(decimal);
        let written = cow_text(&roman.0).to_owned();
        let original = value.to_owned();
        if !(written == original) {
            return Err(ParseRomanError::Malformed(original));
        }
        Ok(roman)
    }
}

impl<'a> vstd::std_specs::convert::TryFromSpecImpl<&'a str> for Roman<'a> {
    open spec fn obeys_try_from_spec() -> bool {
        false
    }

    open spec fn try_from_spec(v: &'a str) -> Result<Self, Self::Error> {
        arbitrary()
    }
}

/// Why `Decimal::try_from` refused a text.
#[derive(Debug, PartialEq)]
pub enum ParseDecimalError {
    /// A `u16` outside `1..=3999`, which no Roman numeral writes.
    OutOfRange(u16),
    /// No `u16` at all: the error of the standard parser.
    Parse(core::num::ParseIntError),
}

/// Wraps the error of the standard integer parser.
impl From<core::num::ParseIntError> for ParseDecimalError {
    fn from(value: core::num::ParseIntError) -> (error: Self) {
        ParseDecimalError::Parse(value)
    }
}

impl vstd::std_specs::convert::FromSpecImpl<core::num::ParseIntError> for ParseDecimalError {
    open spec fn obeys_from_spec() -> bool {
        true
    }

    open spec fn from_spec(v: core::num::ParseIntError) -> Self {
        ParseDecimalError::Parse(v)
    }
}

/// Reads a text as a decimal number in `1..=3999`, with the standard `u16`
/// parser (an optional `+`, then digits).
impl<'a> TryFrom<&'a str> for Decimal {
    type Error = ParseDecimalError;

    fn try_from(value: &'a str) -> (result: Result<Decimal, Self::Error>)
        ensures
            match result {
                Ok(decimal) => {
                    &&& parsed_u16(value@) == Some(decimal.0)
                    &&& 1 <= decimal.0 <= 3999
                },
                Err(ParseDecimalError::OutOfRange(n)) => {
                    &&& parsed_u16(value@) == Some(n)
                    &&& !(1 <= n <= 3999)
                },
                Err(ParseDecimalError::Parse(e)) => {
                    &&& parsed_u16(value@) is None
                    &&& e == u16_parse_error(value@)
                },
            },
    {
        match parse_u16(value) {
            Ok(n) => {
                if !(1 <= n && n <= 3999) {
                    return Err(ParseDecimalError::OutOfRange(n));
                }
                Ok(Decimal(n))
            },
            Err(e) => Err(ParseDecimalError::from(e)),
        }
    }
}

impl<'a> vstd::std_specs::convert::TryFromSpecImpl<&'a str> for Decimal {
    open spec fn obeys_try_from_spec() -> bool {
        false
    }

    open spec fn try_from_spec(v: &'a str) -> Result<Self, Self::Error> {
        arbitrary()
    }
}

} // verus!
