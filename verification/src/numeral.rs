//! Reading a Roman numeral symbol by symbol, and the value that it spells.
use vstd::prelude::*;

use crate::symbols::{SYMBOL_COUNT, symbol_at, symbol_chars, symbol_value};
use crate::text::{chars_of, is_prefix_of, occurs_at};
use vstd::string::StrSliceExecFns;

verus! {

/// Index of the first table entry, at or after `i`, whose symbol is a prefix
/// of `s`.
pub open spec fn first_match_from(s: Seq<char>, i: int) -> Option<int>
    decreases SYMBOL_COUNT - i,
{
    if i >= SYMBOL_COUNT {
        None
    } else if is_prefix_of(symbol_chars(i), s) {
        Some(i)
    } else {
        first_match_from(s, i + 1)
    }
}

/// Index of the first table entry whose symbol begins `s`.
pub open spec fn first_match(s: Seq<char>) -> Option<int> {
    first_match_from(s, 0)
}

/// Every symbol of the table has one or two characters.
pub proof fn lemma_symbol_len(i: int)
    ensures
        1 <= symbol_chars(i).len() <= 2,
{
}

/// A match names a table entry whose symbol is a prefix of `s`.
pub proof fn lemma_first_match_from(s: Seq<char>, i: int)
    ensures
        first_match_from(s, i) matches Some(k) ==> {
            &&& i <= k < SYMBOL_COUNT
            &&& is_prefix_of(symbol_chars(k), s)
        },
    decreases SYMBOL_COUNT - i,
{
    if i < SYMBOL_COUNT && !is_prefix_of(symbol_chars(i), s) {
        lemma_first_match_from(s, i + 1);
    }
}

/// The table indices of the symbols read from the front of `s`: at each step
/// the first table entry that begins what is left; reading stops where none
/// does.
pub open spec fn token_indices(s: Seq<char>) -> Seq<int>
    decreases s.len(),
{
    match first_match(s) {
        Some(i) => {
            proof {
                lemma_first_match_from(s, 0);
                lemma_symbol_len(i);
            }
            seq![i] + token_indices(s.skip(symbol_chars(i).len() as int))
        },
        None => Seq::empty(),
    }
}

/// Sum of the values of the table entries at the indices `ts`.
pub open spec fn sum_values(ts: Seq<int>) -> nat
    decreases ts.len(),
{
    if ts.len() == 0 {
        0
    } else {
        sum_values(ts.drop_last()) + symbol_value(ts.last())
    }
}

/// The value that the symbols read from the front of `s` add up to.
pub open spec fn roman_value(s: Seq<char>) -> nat {
    sum_values(token_indices(s))
}

/// Returns, in order, the value and the text of each symbol read from the
/// front of `roman`; reading stops at the first position where no symbol of
/// the table begins.
pub fn tokens(roman: &str) -> (result: Vec<(u16, &'static str)>)
    ensures
        result.len() == token_indices(roman@).len(),
        forall|k: int|
            #![trigger result[k]]
            0 <= k < result.len() ==> {
                &&& result[k].0 == symbol_value(token_indices(roman@)[k])
                &&& result[k].1@ == symbol_chars(token_indices(roman@)[k])
            },
{
    let text = chars_of(roman);
    let mut result: Vec<(u16, &'static str)> = Vec::new();
    let mut pos: usize = 0;
    let ghost done: Seq<int> = Seq::empty();
    assert(text@.skip(0) =~= text@);
    loop
        invariant
            text@ == roman@,
            pos <= text.len(),
            token_indices(roman@) == done + token_indices(text@.skip(pos as int)),
            result.len() == done.len(),
            forall|k: int|
                #![trigger result[k]]
                0 <= k < result.len() ==> {
                    &&& result[k].0 == symbol_value(done[k])
                    &&& result[k].1@ == symbol_chars(done[k])
                },
        decreases text.len() - pos,
    {
        let ghost rest = text@.skip(pos as int);
        let mut i: usize = 0;
        let mut found: Option<(u16, &'static str)> = None;
        while i < SYMBOL_COUNT
            invariant_except_break
                found is None,
                first_match(rest) == first_match_from(rest, i as int),
            invariant
                0 <= i <= SYMBOL_COUNT,
                pos <= text.len(),
                rest == text@.skip(pos as int),
            ensures
                found is None ==> first_match(rest) is None,
                found matches Some(entry) ==> {
                    &&& 1 <= i <= SYMBOL_COUNT
                    &&& first_match(rest) == Some((i - 1) as int)
                    &&& entry.0 == symbol_value(i - 1)
                    &&& entry.1@ == symbol_chars(i - 1)
                },
            decreases SYMBOL_COUNT - i,
        {
            let entry = symbol_at(i);
            i = i + 1;
            if occurs_at(&text, pos, entry.1) {
                found = Some(entry);
                break;
            }
        }
        match found {
            None => {
                assert(token_indices(rest) == Seq::<int>::empty());
                assert(done + token_indices(rest) == done);
                assert(token_indices(roman@) == done);
                return result;
            },
            Some(entry) => {
                let ghost k = (i - 1) as int;
                proof {
                    lemma_first_match_from(rest, 0);
                    lemma_symbol_len(k);
                    assert(rest.skip(symbol_chars(k).len() as int) == text@.skip(
                        pos + symbol_chars(k).len(),
                    ));
                    assert(done.push(k) + token_indices(rest.skip(symbol_chars(k).len() as int))
                        == done + token_indices(rest));
                    done = done.push(k);
                }
                let len = entry.1.unicode_len();
                result.push(entry);
                pos = pos + len;
            },
        }
    }
}

} // verus!
