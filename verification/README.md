# icfp2006_rust_roman

Converts the numbers written in a text between Roman numerals and decimal
numbers, verified with Verus.

- `src/symbols.rs`: the symbol table (`M`, `CM`, ..., `I`), `next_symbol`, and
  the greedy rule `to_roman` that writes a number as a numeral.
- `src/numeral.rs`: reading a numeral symbol by symbol (`tokens`) and the value
  that it spells (`roman_value`).
- `src/roman.rs`: the types `Roman` and `Decimal`, their conversions and the
  two parsing errors.
- `src/decimal_text.rs`: decimal numerals, read with the standard `u16` parser
  and written digit by digit.
- `src/tokenize.rs`: splitting a line into words and parentheses.
- `src/convert.rs`: converting every number of a text (`convert`).
- `src/laws.rs`: the round-trip laws between the two notations.
- `src/text.rs`: character helpers.
- `app/main.rs`: the command line program (`--roman` / `--decimal` and a file
  path).
