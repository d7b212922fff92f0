use std::borrow::Cow;

use icfp2006_rust_roman::{
    convert, next_symbol, tokenize, tokens, ConvertMode, Decimal, ParseDecimalError,
    ParseRomanError, Roman,
};

#[test]
fn next_symbol_picks_largest_fitting() {
    assert_eq!(next_symbol(1), (1, "I"));
    assert_eq!(next_symbol(3), (1, "I"));
    assert_eq!(next_symbol(4), (4, "IV"));
    assert_eq!(next_symbol(8), (5, "V"));
    assert_eq!(next_symbol(9), (9, "IX"));
    assert_eq!(next_symbol(49), (40, "XL"));
    assert_eq!(next_symbol(99), (90, "XC"));
    assert_eq!(next_symbol(450), (400, "CD"));
    assert_eq!(next_symbol(999), (900, "CM"));
    assert_eq!(next_symbol(3999), (1000, "M"));
    assert_eq!(next_symbol(u16::MAX), (1000, "M"));
}

#[test]
fn tokens_reads_symbols_from_the_front() {
    assert_eq!(tokens("MCMLXXXIV"), vec![(1000, "M"), (900, "CM"), (50, "L"), (10, "X"), (10, "X"), (10, "X"), (4, "IV")]);
    assert_eq!(tokens("IVIV"), vec![(4, "IV"), (4, "IV")]);
    assert_eq!(tokens(""), vec![]);
    assert_eq!(tokens("XIIQX"), vec![(10, "X"), (1, "I"), (1, "I")]);
    assert_eq!(tokens("abc"), vec![]);
}

#[test]
fn roman_value_stops_at_foreign_character() {
    assert_eq!(Decimal::from(Roman(Cow::from("XIIQX"))).0, 12);
    assert_eq!(Decimal::from(Roman(Cow::from("hello"))).0, 0);
}

#[test]
fn roman_value_wraps_like_a_u16_sum() {
    let long = "M".repeat(66);
    assert_eq!(Decimal::from(Roman(Cow::from(long.clone()))).0, (66_000u32 % 65_536) as u16);
    assert!(matches!(Roman::try_from(long.as_str()), Err(ParseRomanError::Malformed(_))));
}

#[test]
fn roman_round_trip_over_the_documented_range() {
    for n in 1..=3999u16 {
        let roman = Roman::from(Decimal(n));
        let back = Roman::try_from(roman.0.as_ref()).unwrap();
        assert_eq!(Decimal::from(back), Decimal(n));
    }
}

#[test]
fn roman_of_zero_is_empty() {
    assert_eq!(Roman::from(Decimal(0)).0, "");
}

#[test]
fn roman_above_the_range_is_refused() {
    assert_eq!(Roman::from(Decimal(4000)).0, "MMMM");
    assert_eq!(Roman::try_from("MMMM").err(), Some(ParseRomanError::Malformed(String::from("MMMM"))));
    assert!(matches!(Roman::try_from("MMMMCM"), Err(ParseRomanError::Malformed(_))));
}

#[test]
fn roman_errors_hold_the_text() {
    assert_eq!(Roman::try_from("IIII").err(), Some(ParseRomanError::Malformed(String::from("IIII"))));
    assert_eq!(Roman::try_from("XIv").err(), Some(ParseRomanError::Parse(String::from("XIv"))));
    assert_eq!(Roman::try_from("").err(), Some(ParseRomanError::Parse(String::new())));
}

#[test]
fn decimal_parse_follows_the_standard_parser() {
    assert_eq!(Decimal::try_from("+5"), Ok(Decimal(5)));
    assert_eq!(Decimal::try_from("0042"), Ok(Decimal(42)));
    assert_eq!(Decimal::try_from("65535"), Err(ParseDecimalError::OutOfRange(65535)));
    assert!(matches!(Decimal::try_from("65536"), Err(ParseDecimalError::Parse(_))));
    assert!(matches!(Decimal::try_from("-5"), Err(ParseDecimalError::Parse(_))));
    assert!(matches!(Decimal::try_from("+"), Err(ParseDecimalError::Parse(_))));
    assert!(matches!(Decimal::try_from(" 5"), Err(ParseDecimalError::Parse(_))));
    assert_eq!(Decimal::try_from("x"), Err(ParseDecimalError::Parse("x".parse::<u16>().unwrap_err())));
    assert_eq!(Decimal::try_from(""), Err(ParseDecimalError::Parse("".parse::<u16>().unwrap_err())));
    assert_eq!(Decimal::try_from("70000"), Err(ParseDecimalError::Parse("70000".parse::<u16>().unwrap_err())));
}

#[test]
fn parse_int_error_converts() {
    let err = "x".parse::<u16>().unwrap_err();
    assert_eq!(ParseDecimalError::from(err.clone()), ParseDecimalError::Parse(err));
}

#[test]
fn tokenize_keeps_parentheses_and_drops_spaces() {
    assert_eq!(tokenize(""), Vec::<String>::new());
    assert_eq!(tokenize("   "), Vec::<String>::new());
    assert_eq!(tokenize("(()"), vec!["(", "(", ")"]);
    assert_eq!(tokenize("PRINT (X)+Y"), vec!["PRINT", "(", "X", ")", "+Y"]);
    assert_eq!(tokenize("a.b c"), vec!["a.b", "c"]);
}

#[test]
fn tokenize_law_on_a_line() {
    let line = "  IF (XX) THEN  GOTO V ";
    let words = tokenize(line);
    assert!(words.iter().all(|w| !w.is_empty()));
    assert_eq!(words.concat(), line.replace(' ', ""));
}

#[test]
fn convert_to_decimal_converts_numerals_only() {
    let text = String::from("V REM (c) 19100 IIII vIX.0 XIV\n(XL)IX");
    let expected = "5 REM (c) 19100 IIII vIX.0 14\n(40)9";
    assert_eq!(convert(text, ConvertMode::Decimal), expected);
}

#[test]
fn convert_to_roman_converts_numbers_only() {
    let text = String::from("5 REM 19100 (0) 42.\n3999 4000 IV +7 0042");
    let expected = "V REM 19100 (0) 42.\nMMMCMXCIX 4000 IV VII XLII";
    assert_eq!(convert(text, ConvertMode::Roman), expected);
}

#[test]
fn convert_keeps_columns_after_a_word() {
    assert_eq!(convert(String::from("XLV    REM"), ConvertMode::Decimal), "45     REM");
    assert_eq!(convert(String::from("X  REM"), ConvertMode::Decimal), "10 REM");
    assert_eq!(convert(String::from("M REM"), ConvertMode::Decimal), "1000 REM");
    assert_eq!(convert(String::from("1984 REM"), ConvertMode::Roman), "MCMLXXXIV REM");
    assert_eq!(convert(String::from("8    REM"), ConvertMode::Roman), "VIII REM");
    assert_eq!(convert(String::from("8      REM"), ConvertMode::Roman), "VIII   REM");
    assert_eq!(convert(String::from("XIV   \nX"), ConvertMode::Decimal), "14    \n10");
    assert_eq!(convert(String::from("  V"), ConvertMode::Decimal), "  5");
}

#[test]
fn convert_handles_line_breaks_and_parentheses() {
    assert_eq!(convert(String::from("(X)IV\r\nMMMM"), ConvertMode::Decimal), "(10)4\r\nMMMM");
    assert_eq!(convert(String::from("IIII vIX XIv"), ConvertMode::Decimal), "IIII vIX XIv");
    assert_eq!(convert(String::new(), ConvertMode::Roman), "");
}

#[test]
fn convert_word_round_trip() {
    for n in 1..=3999u16 {
        let roman = Roman::from(Decimal(n)).0.into_owned();
        let decimal = convert(roman.clone(), ConvertMode::Decimal);
        assert_eq!(decimal, n.to_string());
        assert_eq!(convert(decimal, ConvertMode::Roman), roman);
    }
}

#[test]
fn convert_splits_at_delimiter() {
    let a = "XL (V";
    let b = "IX 7";
    for d in ['(', ')', '\n'] {
        for mode in [ConvertMode::Decimal, ConvertMode::Roman] {
            let whole = convert(format!("{}{}{}", a, d, b), mode);
            let parts = format!("{}{}{}", convert(a.to_string(), mode), d, convert(b.to_string(), mode));
            assert_eq!(whole, parts);
        }
    }
}

#[test]
fn converts_the_documented_listing_to_decimal() {
    let listing = String::from("V        REM  +------------------------------------------------+\nX        REM  | HACK.BAS      (c) 19100   fr33 v4r14bl3z       |\nXV       REM  |                                                |\nXX       REM  | Brute-forces passwords on UM vIX.0 systems.    |\nXXV      REM  | Compile with Qvickbasic VII.0 or later:        |\nXXX      REM  |    /bin/qbasic hack.bas                        |\nXXXV     REM  | Then run:                                      |\nXL       REM  |   ./hack.exe username                          |\nXLV      REM  |                                                |\nL        REM  | This program is for educational purposes only! |\nLV       REM  +------------------------------------------------+\n");
    let expected = "5        REM  +------------------------------------------------+\n10       REM  | HACK.BAS      (c) 19100   fr33 v4r14bl3z       |\n15       REM  |                                                |\n20       REM  | Brute-forces passwords on UM vIX.0 systems.    |\n25       REM  | Compile with Qvickbasic VII.0 or later:        |\n30       REM  |    /bin/qbasic hack.bas                        |\n35       REM  | Then run:                                      |\n40       REM  |   ./hack.exe username                          |\n45       REM  |                                                |\n50       REM  | This program is for educational purposes only! |\n55       REM  +------------------------------------------------+\n";
    assert_eq!(convert(listing, ConvertMode::Decimal), expected);
}

#[test]
fn converts_the_documented_listing_back_to_roman() {
    let listing = String::from("5        REM  +------------------------------------------------+\n10       REM  | HACK.BAS      (c) 19100   fr33 v4r14bl3z       |\n15       REM  |                                                |\n20       REM  | Brute-forces passwords on UM vIX.0 systems.    |\n25       REM  | Compile with Qvickbasic VII.0 or later:        |\n30       REM  |    /bin/qbasic hack.bas                        |\n35       REM  | Then run:                                      |\n40       REM  |   ./hack.exe username                          |\n45       REM  |                                                |\n50       REM  | This program is for educational purposes only! |\n55       REM  +------------------------------------------------+\n");
    let expected = "V        REM  +------------------------------------------------+\nX        REM  | HACK.BAS      (c) 19100   fr33 v4r14bl3z       |\nXV       REM  |                                                |\nXX       REM  | Brute-forces passwords on UM vIX.0 systems.    |\nXXV      REM  | Compile with Qvickbasic VII.0 or later:        |\nXXX      REM  |    /bin/qbasic hack.bas                        |\nXXXV     REM  | Then run:                                      |\nXL       REM  |   ./hack.exe username                          |\nXLV      REM  |                                                |\nL        REM  | This program is for educational purposes only! |\nLV       REM  +------------------------------------------------+\n";
    assert_eq!(convert(listing, ConvertMode::Roman), expected);
}

#[test]
fn convert_keeps_plain_text() {
    let text = "hello, world\n(nothing   here)\r\n  to see; only letters and punctuation!";
    assert_eq!(convert(text.to_string(), ConvertMode::Roman), text);
    let text = "10 + 20 = 30 (bytes)\n  42\n";
    assert_eq!(convert(text.to_string(), ConvertMode::Decimal), text);
}
