//! Character-level helpers over `str` and `String`.
use std::borrow::Cow;
use vstd::prelude::*;

verus! {

/// `p` is a prefix of `s`.
pub open spec fn is_prefix_of(p: Seq<char>, s: Seq<char>) -> bool {
    &&& p.len() <= s.len()
    &&& forall|k: int| 0 <= k < p.len() ==> #[trigger] s[k] == p[k]
}

/// Returns the characters of `s`, in order.
pub fn chars_of(s: &str) -> (chars: Vec<char>)
    ensures
        chars@ == s@,
{
    let mut chars: Vec<char> = Vec::new();
    for c in it: s.chars()
        invariant
            it.seq() == s@,
            chars@ == it.seq().take(it.index()),
    {
        chars.push(c);
    }
    chars
}

/// Whether `pat` occurs in `text` starting at position `pos`.
pub fn occurs_at(text: &Vec<char>, pos: usize, pat: &str) -> (found: bool)
    requires
        pos <= text.len(),
    ensures
        found == is_prefix_of(pat@, text@.skip(pos as int)),
{
    let pat_chars = chars_of(pat);
    if pat_chars.len() > text.len() - pos {
        return false;
    }
    let mut k: usize = 0;
    while k < pat_chars.len()
        invariant
            pat_chars@ == pat@,
            pos + pat_chars.len() <= text.len(),
            0 <= k <= pat_chars.len(),
            forall|j: int| 0 <= j < k ==> text@[pos + j] == pat_chars@[j],
        decreases pat_chars.len() - k,
    {
        if text[pos + k] != pat_chars[k] {
            assert(text@.skip(pos as int)[k as int] == text@[pos + k]);
            return false;
        }
        k = k + 1;
    }
    assert forall|j: int| 0 <= j < pat@.len() implies #[trigger] text@.skip(pos as int)[j]
        == pat@[j] by {
        assert(text@.skip(pos as int)[j] == text@[pos + j]);
    }
    true
}

/// The text that `c` holds, borrowed or owned.
pub fn cow_text<'b>(c: &'b Cow<'_, str>) -> (text: &'b str)
    ensures
        text@ == c@,
{
    match c {
        Cow::Borrowed(borrowed) => borrowed,
        Cow::Owned(owned) => owned.as_str(),
    }
}

/// Appends the character `c` to `s` (the standard `String::push`).
#[verifier::external_body]
pub fn push_char(s: &mut String, c: char)
    ensures
        final(s)@ == old(s)@.push(c),
{
    s.push(c);
}

} // verus!
