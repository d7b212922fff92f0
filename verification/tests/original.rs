use std::borrow::Cow;

use icfp2006_rust_roman::{tokenize, Decimal, ParseDecimalError, ParseRomanError, Roman};

#[test]
fn splits_by_whitespace() {
    assert_eq!(tokenize("V REM"), vec!["V", "REM"]);
    assert_eq!(tokenize(" V REM "), vec!["V", "REM"]);
}

#[test]
fn splits_by_parenthesis() {
    assert_eq!(tokenize("words(IV)"), vec!["words", "(", "IV", ")"]);
}

#[test]
fn converts_valid_roman_string() {
    assert_eq!(Roman::try_from("I").unwrap().0, "I");
    assert_eq!(Roman::try_from("III").unwrap().0, "III");
    assert_eq!(Roman::try_from("XIV").unwrap().0, "XIV");
    assert_eq!(Roman::try_from("MMMCMXCIX").unwrap().0, "MMMCMXCIX");
}

#[test]
fn rejects_malformed_input() {
    assert!(matches!(
        Roman::try_from("IIII"),
        Err(ParseRomanError::Malformed(_))
    ));
    assert!(matches!(
        Roman::try_from("VIM"),
        Err(ParseRomanError::Malformed(_))
    ));
    assert!(matches!(
        Roman::try_from("XIVI"),
        Err(ParseRomanError::Malformed(_))
    ));
    assert!(matches!(
        Roman::try_from("IVIV"),
        Err(ParseRomanError::Malformed(_))
    ));
}

#[test]
fn rejects_empty_input() {
    assert!(matches!(
        Roman::try_from(""),
        Err(ParseRomanError::Parse(_))
    ));
}

#[test]
fn rejects_not_symbols() {
    assert!(matches!(
        Roman::try_from("1"),
        Err(ParseRomanError::Parse(_))
    ));
}

#[test]
fn converts_valid_decimal_string() {
    assert_eq!(Decimal::try_from("1").unwrap().0, 1);
    assert_eq!(Decimal::try_from("42").unwrap().0, 42);
    assert_eq!(Decimal::try_from("3999").unwrap().0, 3999);
}

#[test]
fn rejects_out_of_range() {
    assert_eq!(
        Decimal::try_from("0"),
        Err(ParseDecimalError::OutOfRange(0))
    );
    assert_eq!(
        Decimal::try_from("4000"),
        Err(ParseDecimalError::OutOfRange(4000))
    );
}

#[test]
fn rejects_unparseable_input() {
    assert!(matches!(
        Decimal::try_from("XIV"),
        Err(ParseDecimalError::Parse(_))
    ));
    assert!(matches!(
        Decimal::try_from(""),
        Err(ParseDecimalError::Parse(_))
    ));
}

#[test]
fn converts_basic_symbols() {
    assert_eq!(Roman::from(Decimal(1)).0, "I");
    assert_eq!(Roman::from(Decimal(5)).0, "V");
    assert_eq!(Roman::from(Decimal(10)).0, "X");
    assert_eq!(Roman::from(Decimal(50)).0, "L");
    assert_eq!(Roman::from(Decimal(100)).0, "C");
    assert_eq!(Roman::from(Decimal(500)).0, "D");
    assert_eq!(Roman::from(Decimal(1000)).0, "M");
}

#[test]
fn converts_additive_combinations() {
    assert_eq!(Roman::from(Decimal(2)).0, "II");
    assert_eq!(Roman::from(Decimal(3)).0, "III");
    assert_eq!(Roman::from(Decimal(6)).0, "VI");
    assert_eq!(Roman::from(Decimal(7)).0, "VII");
    assert_eq!(Roman::from(Decimal(8)).0, "VIII");
}

#[test]
fn converts_subtractive_notation() {
    assert_eq!(Roman::from(Decimal(4)).0, "IV");
    assert_eq!(Roman::from(Decimal(9)).0, "IX");
    assert_eq!(Roman::from(Decimal(40)).0, "XL");
    assert_eq!(Roman::from(Decimal(90)).0, "XC");
    assert_eq!(Roman::from(Decimal(400)).0, "CD");
    assert_eq!(Roman::from(Decimal(900)).0, "CM");
}

#[test]
fn converts_composite_numbers() {
    assert_eq!(Roman::from(Decimal(14)).0, "XIV");
    assert_eq!(Roman::from(Decimal(42)).0, "XLII");
    assert_eq!(Roman::from(Decimal(99)).0, "XCIX");
    assert_eq!(Roman::from(Decimal(1984)).0, "MCMLXXXIV");
}

#[test]
fn converts_boundary_values() {
    assert_eq!(Roman::from(Decimal(1)).0, "I");
    assert_eq!(Roman::from(Decimal(3999)).0, "MMMCMXCIX");
}

#[test]
fn converts_decimal_basic_symbols() {
    assert_eq!(Decimal::from(Roman(Cow::from("I"))).0, 1);
    assert_eq!(Decimal::from(Roman(Cow::from("V"))).0, 5);
    assert_eq!(Decimal::from(Roman(Cow::from("X"))).0, 10);
    assert_eq!(Decimal::from(Roman(Cow::from("L"))).0, 50);
    assert_eq!(Decimal::from(Roman(Cow::from("C"))).0, 100);
    assert_eq!(Decimal::from(Roman(Cow::from("D"))).0, 500);
    assert_eq!(Decimal::from(Roman(Cow::from("M"))).0, 1000);
}

#[test]
fn converts_decimal_additive_combinations() {
    assert_eq!(Decimal::from(Roman(Cow::from("II"))).0, 2);
    assert_eq!(Decimal::from(Roman(Cow::from("III"))).0, 3);
    assert_eq!(Decimal::from(Roman(Cow::from("VI"))).0, 6);
    assert_eq!(Decimal::from(Roman(Cow::from("VII"))).0, 7);
    assert_eq!(Decimal::from(Roman(Cow::from("VIII"))).0, 8);
}

#[test]
fn converts_decimal_subtractive_notation() {
    assert_eq!(Decimal::from(Roman(Cow::from("IV"))).0, 4);
    assert_eq!(Decimal::from(Roman(Cow::from("IX"))).0, 9);
    assert_eq!(Decimal::from(Roman(Cow::from("XL"))).0, 40);
    assert_eq!(Decimal::from(Roman(Cow::from("XC"))).0, 90);
    assert_eq!(Decimal::from(Roman(Cow::from("CD"))).0, 400);
    assert_eq!(Decimal::from(Roman(Cow::from("CM"))).0, 900);
}

#[test]
fn converts_decimal_composite_numbers() {
    assert_eq!(Decimal::from(Roman(Cow::from("XIV"))).0, 14);
    assert_eq!(Decimal::from(Roman(Cow::from("XLII"))).0, 42);
    assert_eq!(Decimal::from(Roman(Cow::from("XCIX"))).0, 99);
    assert_eq!(Decimal::from(Roman(Cow::from("MCMLXXXIV"))).0, 1984);
}

#[test]
fn converts_decimal_boundary_values() {
    assert_eq!(Decimal::from(Roman(Cow::from("I"))).0, 1);
    assert_eq!(Decimal::from(Roman(Cow::from("MMMCMXCIX"))).0, 3999);
}
