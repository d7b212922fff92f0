//! Splitting a line of text into words and parentheses.
use vstd::prelude::*;

use crate::text::push_char;

verus! {

/// Reads `s` from the left, keeping the words finished so far (empty ones
/// included) and the word being read: a space ends the word, `(` and `)` end
/// it and stand as words of their own, any other character extends it.
pub open spec fn split_words(s: Seq<char>) -> (Seq<Seq<char>>, Seq<char>)
    decreases s.len(),
{
    if s.len() == 0 {
        (Seq::empty(), Seq::empty())
    } else {
        let (done, word) = split_words(s.drop_last());
        let c = s.last();
        if c == ' ' {
            (done.push(word), Seq::empty())
        } else if c == '(' || c == ')' {
            (done.push(word).push(seq![c]), Seq::empty())
        } else {
            (done, word.push(c))
        }
    }
}

/// `t` is not empty.
pub open spec fn is_nonempty(t: Seq<char>) -> bool {
    t.len() > 0
}

/// `ts` with its empty words left out.
pub open spec fn nonempty_words(ts: Seq<Seq<char>>) -> Seq<Seq<char>> {
    ts.filter(|t: Seq<char>| is_nonempty(t))
}

/// The words of `s` in order, with the empty ones left out.
pub open spec fn tokenize_spec(s: Seq<char>) -> Seq<Seq<char>> {
    let (done, word) = split_words(s);
    nonempty_words(done.push(word))
}

/// Splits `input` into words: spaces separate words and are dropped, `(` and
/// `)` separate words and are kept as words of their own, and no word is
/// empty.
pub fn tokenize(input: &str) -> (tokens: Vec<String>)
    ensures
        tokens.deep_view() == tokenize_spec(input@),
{
    let mut acc = String::new();
    let mut tokens: Vec<String> = Vec::new();
    for c in it: input.chars()
        invariant
            it.seq() == input@,
            0 <= it.index() <= input@.len(),
            split_words(input@.take(it.index())).0 == tokens.deep_view(),
            split_words(input@.take(it.index())).1 == acc@,
    {
        let ghost prefix = input@.take(it.index());
        let ghost next = input@.take(it.index() + 1);
        assert(next.drop_last() == prefix);
        assert(next.last() == c);
        let ghost before = tokens.deep_view();
        if c == ' ' {
            let ghost word = acc@;
            tokens.push(acc);
            assert(tokens.deep_view() == before.push(word));
            acc = String::new();
        } else if c == '(' {
            let ghost word = acc@;
            tokens.push(acc);
            assert(tokens.deep_view() == before.push(word));
            let ghost middle = tokens.deep_view();
            proof {
                reveal_strlit("(");
            }
            let paren = "(".to_owned();
            assert(paren@ =~= seq!['(']);
            tokens.push(paren);
            assert(tokens.deep_view() == middle.push(seq!['(']));
            acc = String::new();
        } else if c == ')' {
            let ghost word = acc@;
            tokens.push(acc);
            assert(tokens.deep_view() == before.push(word));
            let ghost middle = tokens.deep_view();
            proof {
                reveal_strlit(")");
            }
            let paren = ")".to_owned();
            assert(paren@ =~= seq![')']);
            tokens.push(paren);
            assert(tokens.deep_view() == middle.push(seq![')']));
            acc = String::new();
        } else {
            push_char(&mut acc, c);
        }
    }
    assert(input@.take(input@.len() as int) == input@);
    let ghost before = tokens.deep_view();
    let ghost word = acc@;
    tokens.push(acc);
    assert(tokens.deep_view() == before.push(word));
    let ghost all = tokens.deep_view();
    let mut kept: Vec<String> = Vec::new();
    let mut k: usize = 0;
    let n = tokens.len();
    let ghost pred = |t: Seq<char>| is_nonempty(t);
    while k < n
        invariant
            n == tokens.len(),
            all == tokens.deep_view(),
            0 <= k <= n,
            pred == (|t: Seq<char>| is_nonempty(t)),
            kept.deep_view() == all.take(k as int).filter(pred),
        decreases n - k,
    {
        assert(all.take(k + 1).drop_last() == all.take(k as int));
        reveal_with_fuel(Seq::<_>::filter, 1);
        let token = tokens[k].clone();
        if !token.as_str().is_empty() {
            let ghost old_kept = kept.deep_view();
            kept.push(token);
            assert(kept.deep_view() == old_kept.push(all[k as int]));
        }
        k = k + 1;
    }
    assert(all.take(n as int) == all);
    kept
}

/// The words of `ts` written one after the other.
pub open spec fn joined(ts: Seq<Seq<char>>) -> Seq<char>
    decreases ts.len(),
{
    if ts.len() == 0 {
        Seq::empty()
    } else {
        joined(ts.drop_last()) + ts.last()
    }
}

/// `s` with its spaces taken out.
pub open spec fn without_spaces(s: Seq<char>) -> Seq<char> {
    s.filter(|c: char| c != ' ')
}

/// The words read so far, then the word being read, are the text read so far
/// without its spaces.
proof fn lemma_split_words_joined(s: Seq<char>)
    ensures
        joined(split_words(s).0) + split_words(s).1 == without_spaces(s),
    decreases s.len(),
{
    reveal_with_fuel(Seq::<_>::filter, 1);
    if s.len() > 0 {
        lemma_split_words_joined(s.drop_last());
        let (done, word) = split_words(s.drop_last());
        let c = s.last();
        assert(joined(done.push(word)) == joined(done) + word) by {
            assert(done.push(word).drop_last() == done);
        }
        if c == '(' || c == ')' {
            let d2 = done.push(word);
            assert(d2.push(seq![c]).drop_last() == d2);
            assert(joined(d2.push(seq![c])) == joined(d2) + seq![c]);
            assert(joined(done) + word + seq![c] == (joined(done) + word).push(c));
        } else if c != ' ' {
            assert(joined(done) + word.push(c) == (joined(done) + word).push(c));
        } else {
            assert(joined(done.push(word)) + Seq::<char>::empty() == joined(done.push(word)));
        }
    } else {
        assert(joined(Seq::<Seq<char>>::empty()) + Seq::<char>::empty() == Seq::<char>::empty());
    }
}

/// Leaving the empty words out changes nothing of what the words spell.
proof fn lemma_joined_nonempty(ts: Seq<Seq<char>>)
    ensures
        joined(nonempty_words(ts)) == joined(ts),
    decreases ts.len(),
{
    reveal_with_fuel(Seq::<_>::filter, 1);
    if ts.len() > 0 {
        lemma_joined_nonempty(ts.drop_last());
        let kept = ts.drop_last().filter(|t: Seq<char>| is_nonempty(t));
        if is_nonempty(ts.last()) {
            assert(kept.push(ts.last()).drop_last() == kept);
        } else {
            assert(ts.last() == Seq::<char>::empty());
            assert(joined(ts.drop_last()) + ts.last() == joined(ts.drop_last()));
        }
    }
}

/// `tokenize` loses only spaces: its words, written one after the other,
/// give back the input without its spaces.
pub proof fn law_tokenize_drops_only_spaces(s: Seq<char>)
    ensures
        joined(tokenize_spec(s)) == without_spaces(s),
{
    lemma_split_words_joined(s);
    let (done, word) = split_words(s);
    lemma_joined_nonempty(done.push(word));
    assert(done.push(word).drop_last() == done);
}

/// No word of `tokenize` is empty.
pub proof fn law_tokenize_no_empty_word(s: Seq<char>, k: int)
    requires
        0 <= k < tokenize_spec(s).len(),
    ensures
        tokenize_spec(s)[k].len() > 0,
{
    let (done, word) = split_words(s);
    done.push(word).lemma_filter_pred(|t: Seq<char>| is_nonempty(t), k);
}

/// `c` separates words.
pub open spec fn is_separator(c: char) -> bool {
    c == ' ' || c == '(' || c == ')'
}

/// A word of `tokenize`: a lone parenthesis, or characters none of which
/// separates words.
pub open spec fn is_word_shape(t: Seq<char>) -> bool {
    ||| t == seq!['(']
    ||| t == seq![')']
    ||| forall|k: int| 0 <= k < t.len() ==> !is_separator(#[trigger] t[k])
}

/// Every finished word has the shape of a word, and the word being read
/// holds no separator.
proof fn lemma_split_words_shape(s: Seq<char>)
    ensures
        forall|i: int|
            0 <= i < split_words(s).0.len() ==> is_word_shape(#[trigger] split_words(s).0[i]),
        forall|k: int|
            0 <= k < split_words(s).1.len() ==> !is_separator(#[trigger] split_words(s).1[k]),
    decreases s.len(),
{
    if s.len() > 0 {
        lemma_split_words_shape(s.drop_last());
        let (done, word) = split_words(s.drop_last());
        let c = s.last();
        if !is_separator(c) {
            assert forall|k: int| 0 <= k < word.push(c).len() implies !is_separator(
                #[trigger] word.push(c)[k],
            ) by {
                if k < word.len() {
                    assert(word.push(c)[k] == word[k]);
                }
            }
        }
        assert(is_word_shape(word));
        assert(done.push(word)[done.len() as int] == word);
        assert forall|i: int| 0 <= i < done.push(word).len() implies is_word_shape(
            #[trigger] done.push(word)[i],
        ) by {
            if i < done.len() {
                assert(done.push(word)[i] == done[i]);
            }
        }
        if c == '(' || c == ')' {
            let d2 = done.push(word);
            assert(is_word_shape(seq![c]));
            assert forall|i: int| 0 <= i < d2.push(seq![c]).len() implies is_word_shape(
                #[trigger] d2.push(seq![c])[i],
            ) by {
                if i < d2.len() {
                    assert(d2.push(seq![c])[i] == d2[i]);
                }
            }
        }
    }
}

/// Leaving out empty words keeps only words of the input.
proof fn lemma_filter_keeps_shape(ts: Seq<Seq<char>>)
    requires
        forall|i: int| 0 <= i < ts.len() ==> is_word_shape(#[trigger] ts[i]),
    ensures
        forall|i: int|
            0 <= i < nonempty_words(ts).len() ==> is_word_shape(#[trigger] nonempty_words(ts)[i]),
    decreases ts.len(),
{
    reveal_with_fuel(Seq::<_>::filter, 1);
    if ts.len() > 0 {
        let front = ts.drop_last();
        assert forall|i: int| 0 <= i < front.len() implies is_word_shape(#[trigger] front[i]) by {
            assert(front[i] == ts[i]);
        }
        lemma_filter_keeps_shape(front);
        let kept = nonempty_words(front);
        assert(is_word_shape(ts.last()));
        if is_nonempty(ts.last()) {
            assert(nonempty_words(ts) == kept.push(ts.last()));
            assert forall|i: int| 0 <= i < kept.push(ts.last()).len() implies is_word_shape(
                #[trigger] kept.push(ts.last())[i],
            ) by {
                if i < kept.len() {
                    assert(kept.push(ts.last())[i] == kept[i]);
                }
            }
        } else {
            assert(nonempty_words(ts) == kept);
        }
    }
}

/// Each word of `tokenize` is a lone `(` or `)`, or holds none of the space
/// and the two parentheses.
pub proof fn law_tokenize_word_shape(s: Seq<char>, k: int)
    requires
        0 <= k < tokenize_spec(s).len(),
    ensures
        is_word_shape(tokenize_spec(s)[k]),
{
    lemma_split_words_shape(s);
    let (done, word) = split_words(s);
    assert forall|i: int| 0 <= i < done.push(word).len() implies is_word_shape(
        #[trigger] done.push(word)[i],
    ) by {
        if i < done.len() {
            assert(done.push(word)[i] == done[i]);
        }
    }
    lemma_filter_keeps_shape(done.push(word));
}

/// After a text that reads to no pending word, the rest is read on its own:
/// its words follow the finished ones.
proof fn lemma_split_words_shift(p: Seq<char>, r: Seq<char>)
    requires
        split_words(p).1 == Seq::<char>::empty(),
    ensures
        split_words(p + r).0 == split_words(p).0 + split_words(r).0,
        split_words(p + r).1 == split_words(r).1,
    decreases r.len(),
{
    if r.len() == 0 {
        assert(p + r == p);
        assert(split_words(r).0 == Seq::<Seq<char>>::empty());
        assert(split_words(p).0 + Seq::<Seq<char>>::empty() == split_words(p).0);
    } else {
        let front = r.drop_last();
        lemma_split_words_shift(p, front);
        assert((p + r).drop_last() == p + front);
        assert((p + r).last() == r.last());
        let d = split_words(p).0;
        let (done, word) = split_words(front);
        let c = r.last();
        if c == ' ' {
            assert(d + done.push(word) == (d + done).push(word));
        } else if c == '(' || c == ')' {
            assert(d + done.push(word).push(seq![c]) == (d + done).push(word).push(seq![c]));
        }
    }
}

/// A non-empty text with no separator is a single word.
pub proof fn law_tokenize_single_word(w: Seq<char>)
    requires
        w.len() > 0,
        forall|k: int| 0 <= k < w.len() ==> !is_separator(#[trigger] w[k]),
    ensures
        tokenize_spec(w) == seq![w],
{
    lemma_split_words_plain(w);
    reveal_with_fuel(Seq::<_>::filter, 2);
    let words = Seq::<Seq<char>>::empty().push(w);
    assert(words.drop_last() == Seq::<Seq<char>>::empty());
    assert(nonempty_words(words) == Seq::<Seq<char>>::empty().push(w));
    assert(Seq::<Seq<char>>::empty().push(w) == seq![w]);
}

/// Reading a text with no separator leaves all of it as the word being read.
proof fn lemma_split_words_plain(w: Seq<char>)
    requires
        forall|k: int| 0 <= k < w.len() ==> !is_separator(#[trigger] w[k]),
    ensures
        split_words(w) == (Seq::<Seq<char>>::empty(), w),
    decreases w.len(),
{
    if w.len() > 0 {
        let front = w.drop_last();
        assert forall|k: int| 0 <= k < front.len() implies !is_separator(#[trigger] front[k]) by {
            assert(front[k] == w[k]);
        }
        lemma_split_words_plain(front);
        assert(!is_separator(w[w.len() - 1]));
        assert(front.push(w.last()) == w);
    } else {
        assert(w == Seq::<char>::empty());
    }
}

/// Every space ends a word: the words of `a`, a space, then `b` are the
/// words of `a` followed by the words of `b`.
pub proof fn law_tokenize_splits_at_space(a: Seq<char>, b: Seq<char>)
    ensures
        tokenize_spec(a.push(' ') + b) == tokenize_spec(a) + tokenize_spec(b),
{
    broadcast use Seq::filter_distributes_over_add;

    let (done, word) = split_words(a);
    assert(a.push(' ').drop_last() == a);
    assert(a.push(' ').last() == ' ');
    lemma_split_words_shift(a.push(' '), b);
    let (done_b, word_b) = split_words(b);
    assert(done.push(word) + done_b.push(word_b) == (done.push(word) + done_b).push(word_b));
    assert(nonempty_words(done.push(word) + done_b.push(word_b)) == nonempty_words(done.push(word))
        + nonempty_words(done_b.push(word_b)));
}

/// Every parenthesis ends a word and stands as a word of its own: the words
/// of `a`, a parenthesis `p`, then `b` are the words of `a`, then `p`, then
/// the words of `b`.
pub proof fn law_tokenize_splits_at_parenthesis(a: Seq<char>, p: char, b: Seq<char>)
    requires
        p == '(' || p == ')',
    ensures
        tokenize_spec(a.push(p) + b) == tokenize_spec(a) + seq![seq![p]] + tokenize_spec(b),
{
    broadcast use Seq::filter_distributes_over_add;
    broadcast use Seq::lemma_filter_push;

    let (done, word) = split_words(a);
    assert(a.push(p).drop_last() == a);
    assert(a.push(p).last() == p);
    lemma_split_words_shift(a.push(p), b);
    let (done_b, word_b) = split_words(b);
    let d = done.push(word).push(seq![p]);
    assert(d + done_b.push(word_b) == (d + done_b).push(word_b));
    assert(nonempty_words(d + done_b.push(word_b)) == nonempty_words(d) + nonempty_words(
        done_b.push(word_b),
    ));
    assert(is_nonempty(seq![p]));
    assert(nonempty_words(d) == nonempty_words(done.push(word)).push(seq![p]));
    assert(nonempty_words(done.push(word)).push(seq![p]) == nonempty_words(done.push(word)) + seq![
        seq![p],
    ]);
}

} // verus!
