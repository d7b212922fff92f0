//! Converting every number written in a text, leaving the rest as it is.
use vstd::prelude::*;

use crate::decimal_text::{decimal_digits, decimal_string, is_digit, lemma_decimal_digits, parsed_u16};
use crate::roman::{
    Decimal, Roman, is_symbol_char, is_well_formed_roman, wrapped_roman_value,
};
use crate::symbols::to_roman;
use crate::laws::{
    law_accepted_iff_written, law_decimal_round_trip, law_roman_round_trip,
    law_written_numeral_is_accepted, lemma_to_roman_first_char, lemma_to_roman_symbol_chars,
};
use crate::text::{cow_text, push_char};
use vstd::string::{StringExecFns, StrSliceExecFns};

verus! {

/// Which way `convert` converts numbers.
#[derive(Clone, Copy, Debug, PartialEq, Eq)]
pub enum ConvertMode {
    /// Decimal numbers in `1..=3999` become Roman numerals.
    Roman,
    /// Roman numerals of `1..=3999` become decimal numbers.
    Decimal,
}

/// `c` ends a word and is kept as it is: a line break or a parenthesis.
/// (A space ends a word too, but the spaces after a word are re-counted.)
pub open spec fn is_hard_delimiter(c: char) -> bool {
    c == '\n' || c == '\r' || c == '(' || c == ')'
}

/// `c` ends a word.
pub open spec fn is_delimiter(c: char) -> bool {
    c == ' ' || is_hard_delimiter(c)
}

/// What `convert` makes of the word `w` (a run of characters between
/// delimiters): its number written the other way when it is a number that
/// the mode converts and lies in `1..=3999`; `w` itself otherwise.
pub open spec fn convert_word_spec(w: Seq<char>, mode: ConvertMode) -> Seq<char> {
    match mode {
        ConvertMode::Decimal => {
            if is_well_formed_roman(w) {
                decimal_digits(wrapped_roman_value(w) as nat)
            } else {
                w
            }
        },
        ConvertMode::Roman => {
            match parsed_u16(w) {
                Some(n) => if 1 <= n <= 3999 {
                    to_roman(n as nat)
                } else {
                    w
                },
                None => w,
            }
        },
    }
}

/// `n` spaces.
pub open spec fn spaces(n: int) -> Seq<char> {
    Seq::new(n as nat, |i: int| ' ')
}

/// How many spaces follow a converted word that had `k` spaces after it, so
/// that the text after them keeps its column: the width that the word lost
/// is added to them, the width that it gained is taken from them, but at
/// least one stays (none when there were none).
pub open spec fn gap_after(word_len: int, converted_len: int, k: int) -> int {
    if k == 0 {
        0
    } else if k + word_len - converted_len >= 1 {
        k + word_len - converted_len
    } else {
        1
    }
}

/// A word followed by `k` spaces, converted: the converted word, then the
/// spaces that keep the next text in its column.
pub open spec fn convert_unit(w: Seq<char>, k: int, mode: ConvertMode) -> Seq<char> {
    let c = convert_word_spec(w, mode);
    c + spaces(gap_after(w.len() as int, c.len() as int, k))
}

/// One step of reading a text from the left, from the state (text converted
/// so far, word being read, number of spaces read after it) and the next
/// character `c`. A line break or parenthesis ends the word and its spaces,
/// which are converted, and is kept; a space is counted; any other character
/// extends the word, or after spaces begins a new one.
pub open spec fn scan_step(
    state: (Seq<char>, Seq<char>, int),
    c: char,
    mode: ConvertMode,
) -> (Seq<char>, Seq<char>, int) {
    let (out, word, k) = state;
    if c == ' ' {
        (out, word, k + 1)
    } else if is_hard_delimiter(c) {
        (out + convert_unit(word, k, mode) + seq![c], Seq::empty(), 0)
    } else if k > 0 {
        (out + convert_unit(word, k, mode), seq![c], 0)
    } else {
        (out, word.push(c), 0)
    }
}

/// The state after reading all of `s`, one `scan_step` per character.
pub open spec fn convert_scan(s: Seq<char>, mode: ConvertMode) -> (Seq<char>, Seq<char>, int)
    decreases s.len(),
{
    if s.len() == 0 {
        (Seq::empty(), Seq::empty(), 0)
    } else {
        scan_step(convert_scan(s.drop_last(), mode), s.last(), mode)
    }
}

/// The text `s` with each of its words converted.
pub open spec fn convert_spec(s: Seq<char>, mode: ConvertMode) -> Seq<char> {
    let (out, word, k) = convert_scan(s, mode);
    out + convert_unit(word, k, mode)
}

/// Converts one word.
fn convert_word(word: &str, mode: ConvertMode) -> (converted: String)
    ensures
        converted@ == convert_word_spec(word@, mode),
{
    match mode {
        ConvertMode::Decimal => match Roman::try_from(word) {
            Ok(roman) => {
                let decimal = Decimal::from(roman);
                decimal_string(decimal.0)
            },
            Err(_) => word.to_owned(),
        },
        ConvertMode::Roman => match Decimal::try_from(word) {
            Ok(decimal) => cow_text(&Roman::from(decimal).0).to_owned(),
            Err(_) => word.to_owned(),
        },
    }
}

/// Appends `n` spaces to `out`.
fn push_spaces(out: &mut String, n: usize)
    ensures
        final(out)@ == old(out)@ + spaces(n as int),
{
    let mut i: usize = 0;
    while i < n
        invariant
            0 <= i <= n,
            out@ == old(out)@ + spaces(i as int),
        decreases n - i,
    {
        push_char(out, ' ');
        i = i + 1;
        assert(out@ =~= old(out)@ + spaces(i as int));
    }
}

/// Appends to `out` the conversion of `word` followed by the spaces `gap`.
fn push_unit(out: &mut String, word: &str, gap: &str, mode: ConvertMode)
    requires
        gap@ == spaces(gap@.len() as int),
    ensures
        final(out)@ == old(out)@ + convert_unit(word@, gap@.len() as int, mode),
{
    let piece = convert_word(word, mode);
    let word_len = word.unicode_len();
    let piece_len = piece.as_str().unicode_len();
    let k = gap.unicode_len();
    out.append(piece.as_str());
    let ghost middle = out@;
    if k == 0 {
    } else if piece_len <= word_len {
        push_spaces(out, k);
        push_spaces(out, word_len - piece_len);
        assert(spaces(k as int) + spaces((word_len - piece_len) as int) =~= spaces(
            gap_after(word@.len() as int, piece@.len() as int, k as int),
        ));
    } else if k > piece_len - word_len {
        push_spaces(out, k - (piece_len - word_len));
    } else {
        push_spaces(out, 1);
    }
    assert(out@ =~= old(out)@ + convert_unit(word@, gap@.len() as int, mode));
}

/// Converts the numbers of a text: each word (a run of characters between
/// line breaks, spaces and parentheses) that is a number the mode converts,
/// in `1..=3999`, is written the other way, and the spaces after it are
/// re-counted so that the text after them keeps its column; every other
/// character is kept as it is.
pub fn convert(code: String, mode: ConvertMode) -> (converted: String)
    ensures
        converted@ == convert_spec(code@, mode),
{
    let mut out = String::new();
    let mut word = String::new();
    let mut gap = String::new();
    for c in it: code.as_str().chars()
        invariant
            it.seq() == code@,
            0 <= it.index() <= code@.len(),
            convert_scan(code@.take(it.index()), mode).0 == out@,
            convert_scan(code@.take(it.index()), mode).1 == word@,
            convert_scan(code@.take(it.index()), mode).2 == gap@.len(),
            gap@ == spaces(gap@.len() as int),
    {
        let ghost next = code@.take(it.index() + 1);
        assert(next.drop_last() == code@.take(it.index()));
        assert(next.last() == c);
        if c == ' ' {
            push_char(&mut gap, ' ');
            assert(gap@ =~= spaces(gap@.len() as int));
        } else if c == '\n' || c == '\r' || c == '(' || c == ')' {
            push_unit(&mut out, word.as_str(), gap.as_str(), mode);
            push_char(&mut out, c);
            word = String::new();
            gap = String::new();
            assert(gap@ =~= spaces(0));
        } else if !gap.as_str().is_empty() {
            push_unit(&mut out, word.as_str(), gap.as_str(), mode);
            word = String::new();
            push_char(&mut word, c);
            gap = String::new();
            assert(gap@ =~= spaces(0));
            assert(word@ =~= seq![c]);
        } else {
            push_char(&mut word, c);
        }
    }
    assert(code@.take(code@.len() as int) == code@);
    push_unit(&mut out, word.as_str(), gap.as_str(), mode);
    out
}

/// A number of `1..=3999` written as a Roman numeral converts to its decimal
/// numeral, and that decimal numeral converts back to the Roman numeral.
pub proof fn law_convert_word_round_trip(n: u16)
    requires
        1 <= n <= 3999,
    ensures
        convert_word_spec(to_roman(n as nat), ConvertMode::Decimal) == decimal_digits(n as nat),
        convert_word_spec(decimal_digits(n as nat), ConvertMode::Roman) == to_roman(n as nat),
{
    law_written_numeral_is_accepted(n);
    law_roman_round_trip(n);
    law_decimal_round_trip(n);
}

/// `w` holds no delimiter.
pub open spec fn is_word(w: Seq<char>) -> bool {
    forall|k: int| 0 <= k < w.len() ==> !is_delimiter(#[trigger] w[k])
}

/// Reading a word leaves it all as the word being read.
proof fn lemma_scan_word(w: Seq<char>, mode: ConvertMode)
    requires
        is_word(w),
    ensures
        convert_scan(w, mode) == (Seq::<char>::empty(), w, 0int),
    decreases w.len(),
{
    if w.len() > 0 {
        let front = w.drop_last();
        assert forall|k: int| 0 <= k < front.len() implies !is_delimiter(#[trigger] front[k]) by {
            assert(front[k] == w[k]);
        }
        lemma_scan_word(front, mode);
        assert(!is_delimiter(w[w.len() - 1]));
        assert(front.push(w.last()) == w);
    } else {
        assert(w == Seq::<char>::empty());
    }
}

/// Reading a word and `j` spaces leaves the word, with `j` spaces counted.
proof fn lemma_scan_word_spaces(w: Seq<char>, j: int, mode: ConvertMode)
    requires
        is_word(w),
        j >= 0,
    ensures
        convert_scan(w + spaces(j), mode) == (Seq::<char>::empty(), w, j),
    decreases j,
{
    if j == 0 {
        assert(w + spaces(0) == w);
        lemma_scan_word(w, mode);
    } else {
        lemma_scan_word_spaces(w, j - 1, mode);
        assert((w + spaces(j)).drop_last() == w + spaces(j - 1));
        assert((w + spaces(j)).last() == ' ');
    }
}

/// Two texts read to the same word and space count, the converted text of
/// the first being `x` followed by that of the second, stay so whatever text
/// `r` follows them.
proof fn lemma_scan_shift(p: Seq<char>, q: Seq<char>, r: Seq<char>, x: Seq<char>, mode: ConvertMode)
    requires
        convert_scan(p, mode).0 == x + convert_scan(q, mode).0,
        convert_scan(p, mode).1 == convert_scan(q, mode).1,
        convert_scan(p, mode).2 == convert_scan(q, mode).2,
    ensures
        convert_scan(p + r, mode).0 == x + convert_scan(q + r, mode).0,
        convert_scan(p + r, mode).1 == convert_scan(q + r, mode).1,
        convert_scan(p + r, mode).2 == convert_scan(q + r, mode).2,
    decreases r.len(),
{
    if r.len() == 0 {
        assert(p + r == p);
        assert(q + r == q);
    } else {
        let front = r.drop_last();
        lemma_scan_shift(p, q, front, x, mode);
        assert((p + r).drop_last() == p + front);
        assert((q + r).drop_last() == q + front);
        assert((p + r).last() == r.last());
        assert((q + r).last() == r.last());
        lemma_scan_step_shift(convert_scan(q + front, mode), r.last(), x, mode);
    }
}

/// A step from a state whose converted text has `x` in front gives the
/// state that the step gives without it, with `x` in front.
proof fn lemma_scan_step_shift(
    state: (Seq<char>, Seq<char>, int),
    c: char,
    x: Seq<char>,
    mode: ConvertMode,
)
    ensures
        scan_step((x + state.0, state.1, state.2), c, mode) == (
            x + scan_step(state, c, mode).0,
            scan_step(state, c, mode).1,
            scan_step(state, c, mode).2,
        ),
{
    let (out, word, k) = state;
    let u = convert_unit(word, k, mode);
    assert(x + out + u + seq![c] == x + (out + u + seq![c]));
    assert(x + out + u == x + (out + u));
}

/// After a text `p` that reads to no pending word and no pending spaces,
/// the rest converts on its own.
proof fn lemma_convert_after_clean(p: Seq<char>, r: Seq<char>, mode: ConvertMode)
    requires
        convert_scan(p, mode).1 == Seq::<char>::empty(),
        convert_scan(p, mode).2 == 0,
    ensures
        convert_spec(p + r, mode) == convert_scan(p, mode).0 + convert_spec(r, mode),
{
    let x = convert_scan(p, mode).0;
    assert(convert_scan(Seq::<char>::empty(), mode).0 == Seq::<char>::empty());
    assert(x == x + convert_scan(Seq::<char>::empty(), mode).0);
    lemma_scan_shift(p, Seq::<char>::empty(), r, x, mode);
    assert(Seq::<char>::empty() + r == r);
    let (out, word, k) = convert_scan(r, mode);
    assert(x + out + convert_unit(word, k, mode) == x + (out + convert_unit(word, k, mode)));
}

/// A text without delimiters is one word, converted as such.
pub proof fn law_convert_single_word(w: Seq<char>, mode: ConvertMode)
    requires
        is_word(w),
    ensures
        convert_spec(w, mode) == convert_word_spec(w, mode),
{
    lemma_scan_word(w, mode);
    let c = convert_word_spec(w, mode);
    assert(spaces(0) == Seq::<char>::empty());
    assert(Seq::<char>::empty() + (c + spaces(0)) == c);
}

/// Conversion works piece by piece around line breaks and parentheses:
/// converting `a`, such a delimiter `d`, then `b` gives the conversion of
/// `a`, then `d`, then the conversion of `b`.
pub proof fn law_convert_splits_at_delimiter(
    a: Seq<char>,
    d: char,
    b: Seq<char>,
    mode: ConvertMode,
)
    requires
        is_hard_delimiter(d),
    ensures
        convert_spec(a.push(d) + b, mode) == convert_spec(a, mode).push(d) + convert_spec(b, mode),
{
    assert(a.push(d).drop_last() == a);
    let (out, word, k) = convert_scan(a, mode);
    assert(out + convert_unit(word, k, mode) + seq![d] == convert_spec(a, mode).push(d));
    lemma_convert_after_clean(a.push(d), b, mode);
}

/// A word followed by `k >= 1` spaces and then more text converts to the
/// converted word, the spaces that keep the next text in its column, then
/// the conversion of that text. When the converted word is shorter than the
/// word and its spaces, the two together keep their width.
pub proof fn law_convert_keeps_columns(
    w: Seq<char>,
    k: int,
    r: Seq<char>,
    mode: ConvertMode,
)
    requires
        is_word(w),
        k >= 1,
        r.len() > 0,
        r[0] != ' ',
    ensures
        convert_spec(w + spaces(k) + r, mode) == convert_unit(w, k, mode) + convert_spec(r, mode),
        convert_word_spec(w, mode).len() < w.len() + k ==> convert_unit(w, k, mode).len() == w.len() + k,
{
    let p = w + spaces(k);
    lemma_scan_word_spaces(w, k, mode);
    let c0 = r[0];
    let head = seq![c0];
    let rest = r.drop_first();
    assert(r == head + rest);
    assert(p + r == (p + head) + rest);
    assert((p + head).drop_last() == p);
    assert((p + head).last() == c0);
    assert(head.drop_last() == Seq::<char>::empty());
    assert(head.last() == c0);
    let u = convert_unit(w, k, mode);
    assert(convert_scan(Seq::<char>::empty(), mode) == (Seq::<char>::empty(), Seq::<char>::empty(), 0int));
    assert(convert_scan(p, mode) == (Seq::<char>::empty(), w, k));
    if is_hard_delimiter(c0) {
        assert(convert_unit(Seq::<char>::empty(), 0, mode) == Seq::<char>::empty()) by {
            assert(parsed_u16(Seq::<char>::empty()) is None);
            assert(spaces(0) == Seq::<char>::empty());
        }
        assert(convert_scan(head, mode).0 == seq![c0]);
        assert(convert_scan(p + head, mode).0 == u + seq![c0]);
    } else {
        assert(convert_scan(head, mode).0 == Seq::<char>::empty());
        assert(convert_scan(p + head, mode).0 == u);
        assert(u + Seq::<char>::empty() == u);
    }
    lemma_scan_shift(p + head, head, rest, u, mode);
    let (out, word, j) = convert_scan(r, mode);
    assert(u + out + convert_unit(word, j, mode) == u + (out + convert_unit(word, j, mode)));
}

/// `c` can be part of a number that `mode` converts: a Roman symbol letter
/// when converting to decimal, an ASCII digit when converting to Roman.
pub open spec fn is_numeral_char(c: char, mode: ConvertMode) -> bool {
    match mode {
        ConvertMode::Decimal => is_symbol_char(c),
        ConvertMode::Roman => is_digit(c),
    }
}

/// A word without numeral characters is no number: it converts to itself.
proof fn lemma_plain_word_unchanged(w: Seq<char>, mode: ConvertMode)
    requires
        forall|k: int| 0 <= k < w.len() ==> !is_numeral_char(#[trigger] w[k], mode),
    ensures
        convert_word_spec(w, mode) == w,
{
    if w.len() > 0 {
        assert(!is_numeral_char(w[0], mode));
        if w.len() > 1 {
            assert(!is_numeral_char(w[1], mode));
            assert(w.drop_first()[0] == w[1]);
        }
    }
}

/// Reading a text without numeral characters leaves, one after the other,
/// the text converted so far, the word being read and its spaces: the text
/// itself.
proof fn lemma_scan_plain(s: Seq<char>, mode: ConvertMode)
    requires
        forall|k: int| 0 <= k < s.len() ==> !is_numeral_char(#[trigger] s[k], mode),
    ensures
        convert_scan(s, mode).0 + convert_scan(s, mode).1 + spaces(convert_scan(s, mode).2) == s,
        convert_scan(s, mode).2 >= 0,
        forall|k: int|
            0 <= k < convert_scan(s, mode).1.len() ==> !is_numeral_char(
                #[trigger] convert_scan(s, mode).1[k],
                mode,
            ),
    decreases s.len(),
{
    if s.len() == 0 {
        assert(spaces(0) == Seq::<char>::empty());
    } else {
        let front = s.drop_last();
        assert forall|k: int| 0 <= k < front.len() implies !is_numeral_char(#[trigger] front[k], mode) by {
            assert(front[k] == s[k]);
        }
        lemma_scan_plain(front, mode);
        let (out, word, k) = convert_scan(front, mode);
        let c = s.last();
        assert(!is_numeral_char(s[s.len() - 1], mode));
        assert(front.push(c) == s);
        lemma_plain_word_unchanged(word, mode);
        assert(convert_unit(word, k, mode) == word + spaces(k)) by {
            assert(gap_after(word.len() as int, word.len() as int, k) == k);
        }
        if c == ' ' {
            assert(out + word + spaces(k + 1) == (out + word + spaces(k)).push(' '));
        } else if is_hard_delimiter(c) {
            assert(out + convert_unit(word, k, mode) + seq![c] + Seq::<char>::empty() + spaces(0)
                == (out + word + spaces(k)).push(c));
        } else if k > 0 {
            assert(out + convert_unit(word, k, mode) + seq![c] + spaces(0) == (out + word + spaces(
                k,
            )).push(c));
        } else {
            assert(spaces(0) == Seq::<char>::empty());
            assert(out + word.push(c) + spaces(0) == (out + word + spaces(k)).push(c));
            assert forall|j: int| 0 <= j < word.push(c).len() implies !is_numeral_char(
                #[trigger] word.push(c)[j],
                mode,
            ) by {
                if j < word.len() {
                    assert(word.push(c)[j] == word[j]);
                }
            }
        }
    }
}

/// A text holding no character that can be part of a number the mode
/// converts (no symbol letter to decimal, no digit to Roman) comes out of
/// `convert` as it went in.
pub proof fn law_convert_keeps_plain_text(s: Seq<char>, mode: ConvertMode)
    requires
        forall|k: int| 0 <= k < s.len() ==> !is_numeral_char(#[trigger] s[k], mode),
    ensures
        convert_spec(s, mode) == s,
{
    lemma_scan_plain(s, mode);
    let (out, word, k) = convert_scan(s, mode);
    lemma_plain_word_unchanged(word, mode);
    assert(gap_after(word.len() as int, word.len() as int, k) == k);
    assert(out + (word + spaces(k)) == out + word + spaces(k));
}

/// A decimal numeral is a word.
proof fn lemma_decimal_digits_word(n: nat)
    ensures
        is_word(decimal_digits(n)),
{
    lemma_decimal_digits(n);
    let s = decimal_digits(n);
    assert forall|k: int| 0 <= k < s.len() implies !is_delimiter(#[trigger] s[k]) by {
        assert(is_digit(s[k]));
    }
}

/// A Roman numeral is a word.
proof fn lemma_to_roman_word(n: nat)
    ensures
        is_word(to_roman(n)),
{
    lemma_to_roman_symbol_chars(n);
    let s = to_roman(n);
    assert forall|k: int| 0 <= k < s.len() implies !is_delimiter(#[trigger] s[k]) by {
        assert(is_symbol_char(s[k]));
    }
}

/// Converting to decimal changes a word only when it is the Roman numeral of
/// a number of `1..=3999`, and then gives that number's decimal numeral: a
/// word such as `DIM` or `IIII`, which is written with symbol letters but is
/// no numeral, is kept.
pub proof fn law_convert_to_decimal_changes_only_numerals(w: Seq<char>)
    requires
        is_word(w),
    ensures
        convert_spec(w, ConvertMode::Decimal) != w ==> exists|n: u16|
            1 <= n <= 3999 && #[trigger] to_roman(n as nat) == w && convert_spec(
                w,
                ConvertMode::Decimal,
            ) == decimal_digits(n as nat),
{
    law_convert_single_word(w, ConvertMode::Decimal);
    law_accepted_iff_written(w);
    if convert_spec(w, ConvertMode::Decimal) != w {
        let n = choose|n: u16| 1 <= n <= 3999 && #[trigger] to_roman(n as nat) == w;
        law_roman_round_trip(n);
        assert(to_roman(n as nat) == w && convert_spec(w, ConvertMode::Decimal) == decimal_digits(
            n as nat,
        ));
    }
}

/// Converting to decimal is undone by converting back: when a word is
/// changed by the conversion to decimal, converting the result to Roman gives
/// the word again.
pub proof fn law_convert_to_decimal_is_undone(w: Seq<char>)
    requires
        is_word(w),
        convert_spec(w, ConvertMode::Decimal) != w,
    ensures
        convert_spec(convert_spec(w, ConvertMode::Decimal), ConvertMode::Roman) == w,
{
    law_convert_to_decimal_changes_only_numerals(w);
    let n = choose|n: u16|
        1 <= n <= 3999 && #[trigger] to_roman(n as nat) == w && convert_spec(
            w,
            ConvertMode::Decimal,
        ) == decimal_digits(n as nat);
    lemma_decimal_digits_word(n as nat);
    law_convert_single_word(decimal_digits(n as nat), ConvertMode::Roman);
    law_convert_word_round_trip(n);
}

/// Converting to Roman is undone by converting back, up to how the number
/// was written: when a word is changed by the conversion to Roman, converting
/// the result to decimal gives a numeral of the same number (`+7` and `0042`
/// come back as `7` and `42`).
pub proof fn law_convert_to_roman_is_undone(w: Seq<char>)
    requires
        is_word(w),
        convert_spec(w, ConvertMode::Roman) != w,
    ensures
        parsed_u16(convert_spec(convert_spec(w, ConvertMode::Roman), ConvertMode::Decimal))
            == parsed_u16(w),
        convert_spec(convert_spec(w, ConvertMode::Roman), ConvertMode::Decimal) != convert_spec(
            w,
            ConvertMode::Roman,
        ),
{
    law_convert_single_word(w, ConvertMode::Roman);
    let n = parsed_u16(w).unwrap();
    lemma_to_roman_word(n as nat);
    law_convert_single_word(to_roman(n as nat), ConvertMode::Decimal);
    law_convert_word_round_trip(n);
    law_decimal_round_trip(n);
    lemma_decimal_digits(n as nat);
    assert(decimal_digits(n as nat) != to_roman(n as nat)) by {
        lemma_to_roman_symbol_chars(n as nat);
        lemma_to_roman_first_char(n as nat);
        assert(is_digit(decimal_digits(n as nat)[0]));
    }
}

} // verus!
