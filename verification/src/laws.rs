//! Laws that tie the conversions together.
use vstd::prelude::*;

use crate::numeral::{first_match, first_match_from, roman_value, sum_values, token_indices};
use crate::symbols::{greedy_index, lemma_greedy_index, symbol_chars, symbol_value, to_roman};
use crate::roman::{all_symbol_chars, is_symbol_char, is_well_formed_roman, wrapped_roman_value};
use crate::decimal_text::{decimal_digits, lemma_decimal_digits, parsed_u16};

verus! {

/// The sum over `seq![i] + ts` is the value of `i` plus the sum over `ts`.
pub proof fn lemma_sum_values_prepend(i: int, ts: Seq<int>)
    ensures
        sum_values(seq![i] + ts) == symbol_value(i) + sum_values(ts),
    decreases ts.len(),
{
    if ts.len() > 0 {
        lemma_sum_values_prepend(i, ts.drop_last());
        assert((seq![i] + ts).drop_last() == seq![i] + ts.drop_last());
        assert((seq![i] + ts).last() == ts.last());
    } else {
        assert(seq![i] + ts == seq![i]);
        assert(seq![i].drop_last() == Seq::<int>::empty());
        assert(sum_values(Seq::<int>::empty()) == 0);
    }
}

/// What the numeral of a positive `m` begins with, bounded by `m`: a numeral
/// of a number under 1000 does not begin with `M`, and so on down the table.
pub proof fn lemma_to_roman_first_char(m: nat)
    requires
        m >= 1,
    ensures
        to_roman(m).len() >= 1,
        to_roman(m)[0] == symbol_chars(greedy_index(m as int))[0],
        m < 1000 ==> to_roman(m)[0] != 'M',
        m < 500 ==> to_roman(m)[0] != 'D',
        m < 100 ==> to_roman(m)[0] != 'C',
        m < 50 ==> to_roman(m)[0] != 'L',
        m < 10 ==> to_roman(m)[0] != 'X',
        m < 5 ==> to_roman(m)[0] != 'V',
{
    lemma_greedy_index(m as int);
    let g = greedy_index(m as int);
    assert(symbol_value(0) == 1000 && symbol_value(2) == 500 && symbol_value(4) == 100);
    assert(symbol_value(6) == 50 && symbol_value(8) == 10 && symbol_value(10) == 5);
    let rest = to_roman((m - symbol_value(g)) as nat);
    assert(to_roman(m) == symbol_chars(g) + rest);
}

/// The symbols read from the front of the numeral of `n` add up to `n`: the
/// numeral written for a number reads back as that number.
pub proof fn lemma_roman_value_of_to_roman(n: nat)
    ensures
        roman_value(to_roman(n)) == n,
    decreases n,
{
    reveal_with_fuel(first_match_from, 14);
    if n == 0 {
        assert(first_match(to_roman(0)) is None);
    } else {
        lemma_greedy_index(n as int);
        let g = greedy_index(n as int);
        let r = (n - symbol_value(g)) as nat;
        let rest = to_roman(r);
        let s = to_roman(n);
        assert(s == symbol_chars(g) + rest);
        if r >= 1 {
            lemma_to_roman_first_char(r);
            assert(symbol_chars(g).len() == 1 ==> s[1] == rest[0]);
        }
        assert(g >= 1 ==> symbol_value(g - 1) > n);
        assert(s[0] == symbol_chars(g)[0]);
        assert(symbol_chars(g).len() == 2 ==> s[1] == symbol_chars(g)[1]);
        assert(first_match(s) == Some(g));
        assert(s.skip(symbol_chars(g).len() as int) == rest);
        assert(token_indices(s) == seq![g] + token_indices(rest));
        lemma_roman_value_of_to_roman(r);
        lemma_sum_values_prepend(g, token_indices(rest));
    }
}

/// A numeral is written with the seven symbol letters only.
pub proof fn lemma_to_roman_symbol_chars(n: nat)
    ensures
        all_symbol_chars(to_roman(n)),
    decreases n,
{
    if n >= 1 {
        lemma_greedy_index(n as int);
        let g = greedy_index(n as int);
        let r = (n - symbol_value(g)) as nat;
        lemma_to_roman_symbol_chars(r);
        let s = to_roman(n);
        assert(s == symbol_chars(g) + to_roman(r));
        assert forall|k: int| 0 <= k < s.len() implies is_symbol_char(#[trigger] s[k]) by {
            if k >= symbol_chars(g).len() {
                assert(s[k] == to_roman(r)[k - symbol_chars(g).len()]);
            }
        }
    }
}

/// Writing a `u16` as a Roman numeral and reading it back (as
/// `Decimal::from(Roman::from(Decimal(n)))` does) gives the same number.
pub proof fn law_roman_round_trip(n: u16)
    ensures
        wrapped_roman_value(to_roman(n as nat)) == n,
{
    lemma_roman_value_of_to_roman(n as nat);
}

/// The numeral written for any `n` in `1..=3999` is accepted by
/// `Roman::try_from`.
pub proof fn law_written_numeral_is_accepted(n: u16)
    requires
        1 <= n <= 3999,
    ensures
        is_well_formed_roman(to_roman(n as nat)),
{
    law_roman_round_trip(n);
    lemma_to_roman_symbol_chars(n as nat);
    lemma_to_roman_first_char(n as nat);
}

/// `Roman::try_from` accepts exactly the numerals written for the numbers
/// `1..=3999`.
pub proof fn law_accepted_iff_written(s: Seq<char>)
    ensures
        is_well_formed_roman(s) <==> exists|n: u16| 1 <= n <= 3999 && #[trigger] to_roman(n as nat) == s,
{
    if is_well_formed_roman(s) {
        let n = wrapped_roman_value(s);
        if n == 0 {
            assert(to_roman(0) == Seq::<char>::empty());
        }
        assert(n >= 1 && to_roman(n as nat) == s);
    }
    if exists|n: u16| 1 <= n <= 3999 && #[trigger] to_roman(n as nat) == s {
        let n = choose|n: u16| 1 <= n <= 3999 && #[trigger] to_roman(n as nat) == s;
        law_written_numeral_is_accepted(n);
    }
}

/// Writing a `u16` in decimal and reading it back with the standard parser
/// gives the same number.
pub proof fn law_decimal_round_trip(n: u16)
    ensures
        parsed_u16(decimal_digits(n as nat)) == Some(n),
{
    lemma_decimal_digits(n as nat);
    let s = decimal_digits(n as nat);
    assert(s[0] != '+');
}

/// The Roman digit `d` (`0..=9`) of one decimal place, written with the
/// letters `one`, `five` and `ten` of that place: `I V X` for units, `X L C`
/// for tens, `C D M` for hundreds.
pub open spec fn roman_digit(d: int, one: char, five: char, ten: char) -> Seq<char> {
    if d == 1 {
        seq![one]
    } else if d == 2 {
        seq![one, one]
    } else if d == 3 {
        seq![one, one, one]
    } else if d == 4 {
        seq![one, five]
    } else if d == 5 {
        seq![five]
    } else if d == 6 {
        seq![five, one]
    } else if d == 7 {
        seq![five, one, one]
    } else if d == 8 {
        seq![five, one, one, one]
    } else if d == 9 {
        seq![one, ten]
    } else {
        Seq::empty()
    }
}

/// `k` letters `M`.
pub open spec fn thousands(k: int) -> Seq<char> {
    Seq::new(k as nat, |i: int| 'M')
}

/// The Roman numeral of `n` in `1..=3999` as it is written place by place:
/// one `M` per thousand, then the hundreds, tens and units digits.
pub open spec fn roman_by_places(n: int) -> Seq<char> {
    thousands(n / 1000) + roman_digit((n / 100) % 10, 'C', 'D', 'M') + roman_digit(
        (n / 10) % 10,
        'X',
        'L',
        'C',
    ) + roman_digit(n % 10, 'I', 'V', 'X')
}

/// One step of the greedy rule, for a number whose largest fitting symbol is
/// known: `to_roman(m)` is that symbol then the numeral of what is left.
proof fn lemma_to_roman_step(m: nat, g: int)
    requires
        m >= 1,
        0 <= g < crate::symbols::SYMBOL_COUNT,
        symbol_value(g) <= m,
        forall|j: int| 0 <= j < g ==> symbol_value(j) > m,
    ensures
        to_roman(m) == symbol_chars(g) + to_roman((m - symbol_value(g)) as nat),
{
    lemma_greedy_index(m as int);
    let h = greedy_index(m as int);
    if h < g {
        assert(symbol_value(h) > m);
    } else if h > g {
        assert(symbol_value(g) > m);
    }
}

/// The digit `d` of a place worth `unit` (1, 10 or 100), followed by a rest
/// below `unit`: the greedy numeral writes the digit, then the rest.
proof fn lemma_place_digit(d: int, unit: int, r: nat)
    requires
        0 <= d <= 9,
        unit == 1 || unit == 10 || unit == 100,
        r < unit,
    ensures
        unit == 100 ==> to_roman((d * 100 + r) as nat) == roman_digit(d, 'C', 'D', 'M') + to_roman(r),
        unit == 10 ==> to_roman((d * 10 + r) as nat) == roman_digit(d, 'X', 'L', 'C') + to_roman(r),
        unit == 1 ==> to_roman((d + r) as nat) == roman_digit(d, 'I', 'V', 'X') + to_roman(r),
    decreases d,
{
    // Table indices of the one, four, five and nine symbols of the place.
    let (i_nine, i_five, i_four, i_one) = if unit == 100 {
        (1int, 2int, 3int, 4int)
    } else if unit == 10 {
        (5int, 6int, 7int, 8int)
    } else {
        (9int, 10int, 11int, 12int)
    };
    let m = (d * unit + r) as nat;
    assert(d * unit + r == if unit == 100 { d * 100 + r } else if unit == 10 { d * 10 + r } else {
        d + r
    }) by (nonlinear_arith)
        requires
            unit == 1 || unit == 10 || unit == 100,
    ;
    assert(symbol_value(i_nine) == 9 * unit && symbol_value(i_five) == 5 * unit);
    assert(symbol_value(i_four) == 4 * unit && symbol_value(i_one) == unit);
    assert(forall|j: int| 0 <= j < i_nine ==> symbol_value(j) >= 10 * unit);
    assert(d * unit <= 9 * unit && (d + 1) * unit == d * unit + unit) by (nonlinear_arith)
        requires
            0 <= d <= 9,
            unit >= 1,
    ;
    if d == 0 {
        assert(roman_digit(0, 'C', 'D', 'M') + to_roman(r) == to_roman(r));
        assert(roman_digit(0, 'X', 'L', 'C') + to_roman(r) == to_roman(r));
        assert(roman_digit(0, 'I', 'V', 'X') + to_roman(r) == to_roman(r));
        assert(0 * unit == 0);
    } else if d == 9 {
        assert(9 * unit == d * unit);
        lemma_to_roman_step(m, i_nine);
        assert((m - symbol_value(i_nine)) as nat == r);
    } else if d >= 5 {
        assert(d * unit == 5 * unit + (d - 5) * unit) by (nonlinear_arith);
        assert((d - 5) * unit <= 3 * unit) by (nonlinear_arith)
            requires
                d <= 8,
                unit >= 1,
        ;
        lemma_to_roman_step(m, i_five);
        lemma_place_digit(d - 5, unit, r);
        assert((m - symbol_value(i_five)) as nat == ((d - 5) * unit + r) as nat);
        assert((d - 5) * unit + r == if unit == 100 { (d - 5) * 100 + r } else if unit == 10 {
            (d - 5) * 10 + r
        } else {
            (d - 5) + r
        }) by (nonlinear_arith)
            requires
                unit == 1 || unit == 10 || unit == 100,
        ;
    } else if d == 4 {
        assert(4 * unit == d * unit);
        lemma_to_roman_step(m, i_four);
        assert((m - symbol_value(i_four)) as nat == r);
    } else {
        assert(d * unit == unit + (d - 1) * unit) by (nonlinear_arith);
        assert(d * unit <= 3 * unit) by (nonlinear_arith)
            requires
                d <= 3,
                unit >= 1,
        ;
        lemma_to_roman_step(m, i_one);
        lemma_place_digit(d - 1, unit, r);
        assert((m - symbol_value(i_one)) as nat == ((d - 1) * unit + r) as nat);
        assert((d - 1) * unit + r == if unit == 100 { (d - 1) * 100 + r } else if unit == 10 {
            (d - 1) * 10 + r
        } else {
            (d - 1) + r
        }) by (nonlinear_arith)
            requires
                unit == 1 || unit == 10 || unit == 100,
        ;
    }
}

/// `k` thousands followed by a rest below 1000: the greedy numeral writes
/// `k` letters `M`, then the rest.
proof fn lemma_thousands(k: int, r: nat)
    requires
        k >= 0,
        r < 1000,
    ensures
        to_roman((k * 1000 + r) as nat) == thousands(k) + to_roman(r),
    decreases k,
{
    if k == 0 {
        assert(thousands(0) + to_roman(r) == to_roman(r));
    } else {
        let m = (k * 1000 + r) as nat;
        lemma_to_roman_step(m, 0);
        lemma_thousands(k - 1, r);
        assert((m - symbol_value(0)) as nat == ((k - 1) * 1000 + r) as nat);
        assert(thousands(k) == seq!['M'] + thousands(k - 1));
    }
}

/// `Roman::from` writes every number place by place, as Roman numerals are
/// written: one `M` per thousand, then the hundreds digit with `C D M`, the
/// tens digit with `X L C` and the units digit with `I V X` (so `CD` for
/// 400, never `CCCC`).
pub proof fn law_roman_numeral_by_places(n: u16)
    ensures
        to_roman(n as nat) == roman_by_places(n as int),
{
    let k = n / 1000;
    let r1 = n % 1000;
    let h = r1 / 100;
    let r2 = r1 % 100;
    let t = r2 / 10;
    let u = r2 % 10;
    assert(n == k * 1000 + r1);
    assert(r1 == h * 100 + r2);
    assert(r2 == t * 10 + u);
    assert((n as int / 100) % 10 == h);
    assert((n as int / 10) % 10 == t);
    assert(n as int % 10 == u);
    lemma_thousands(k as int, r1 as nat);
    lemma_place_digit(h as int, 100, r2 as nat);
    lemma_place_digit(t as int, 10, u as nat);
    lemma_place_digit(u as int, 1, 0);
    assert(to_roman(0) == Seq::<char>::empty());
    assert(roman_digit(u as int, 'I', 'V', 'X') + Seq::<char>::empty() == roman_digit(
        u as int,
        'I',
        'V',
        'X',
    ));
}

} // verus!
