//! Segmentation: from a sentence to its raw words and punctuation marks.
//!
//! A sentence is lower-cased, stripped of every character outside ASCII, and
//! then read from left to right. A maximal run of word characters is one
//! token, a punctuation mark is a token by itself, and every other character
//! separates tokens and is dropped.
use vstd::prelude::*;
use crate::text::{chars_of, fold, folded, is_ascii_char, push_char, string_of};

verus! {

/// A letter, a digit, an apostrophe or a hyphen.
pub open spec fn is_word_char(c: char) -> bool {
    ('a' <= c <= 'z') || ('A' <= c <= 'Z') || ('0' <= c <= '9') || c == '\'' || c == '-'
}

/// One of `.` `,` `!` `?` `;`.
pub open spec fn is_punctuation(c: char) -> bool {
    c == '.' || c == ',' || c == '!' || c == '?' || c == ';'
}

/// `is_ascii_char` as a predicate to filter with.
pub open spec fn ascii_pred() -> spec_fn(char) -> bool {
    |c: char| is_ascii_char(c)
}

/// `s` without its characters outside ASCII.
pub open spec fn ascii_only(s: Seq<char>) -> Seq<char> {
    s.filter(ascii_pred())
}

/// The text that is segmented for the sentence `s`.
pub open spec fn normalized(s: Seq<char>) -> Seq<char> {
    ascii_only(folded(s))
}

/// The number of word characters at the front of `s`, up to the first
/// character that is none.
pub open spec fn run_length(s: Seq<char>) -> nat
    decreases s.len(),
{
    if s.len() > 0 && is_word_char(s[0]) {
        1 + run_length(s.drop_first())
    } else {
        0
    }
}

/// The tokens of `s`: its maximal runs of word characters and its
/// punctuation marks, in the order in which they stand in `s`.
pub open spec fn words(s: Seq<char>) -> Seq<Seq<char>>
    decreases s.len(),
{
    if s.len() == 0 {
        Seq::empty()
    } else if is_word_char(s[0]) {
        let n = run_length(s) as int;
        proof {
            lemma_run_bounds(s);
        }
        seq![s.take(n)] + words(s.skip(n))
    } else if is_punctuation(s[0]) {
        seq![s.take(1)] + words(s.skip(1))
    } else {
        words(s.skip(1))
    }
}

/// Whether `c` is a letter, a digit, an apostrophe or a hyphen.
pub fn check_word_char(c: char) -> (r: bool)
    ensures
        r == is_word_char(c),
{
    (c >= 'a' && c <= 'z') || (c >= 'A' && c <= 'Z') || (c >= '0' && c <= '9') || c == '\''
        || c == '-'
}

/// Whether `c` is a punctuation mark that makes a token.
pub fn check_punctuation(c: char) -> (r: bool)
    ensures
        r == is_punctuation(c),
{
    c == '.' || c == ',' || c == '!' || c == '?' || c == ';'
}

/// A run is as long as the stretch of word characters it starts with: it
/// ends at the end of the text or before a character that is no word
/// character.
pub proof fn lemma_run_length(s: Seq<char>, n: nat)
    requires
        n <= s.len(),
        forall|i: int| 0 <= i < n ==> is_word_char(#[trigger] s[i]),
        n == s.len() || !is_word_char(s[n as int]),
    ensures
        run_length(s) == n,
    decreases n,
{
    if n > 0 {
        let t = s.drop_first();
        assert forall|i: int| 0 <= i < n - 1 implies is_word_char(#[trigger] t[i]) by {
            assert(t[i] == s[i + 1]);
        }
        lemma_run_length(t, (n - 1) as nat);
    }
}

/// A run never reaches past the end of the text, and holds word characters
/// only.
pub proof fn lemma_run_bounds(s: Seq<char>)
    ensures
        run_length(s) <= s.len(),
        forall|i: int| 0 <= i < run_length(s) ==> is_word_char(#[trigger] s[i]),
        run_length(s) < s.len() ==> !is_word_char(s[run_length(s) as int]),
    decreases s.len(),
{
    if s.len() > 0 && is_word_char(s[0]) {
        let t = s.drop_first();
        lemma_run_bounds(t);
        assert forall|i: int| 0 <= i < run_length(s) implies is_word_char(#[trigger] s[i]) by {
            if i > 0 {
                assert(s[i] == t[i - 1]);
            }
        }
        if run_length(s) < s.len() {
            assert(s[run_length(s) as int] == t[run_length(t) as int]);
        }
    }
}

/// Whether `token` is a run of word characters.
pub open spec fn is_word(token: Seq<char>) -> bool {
    token.len() > 0 && forall|i: int| 0 <= i < token.len() ==> is_word_char(#[trigger] token[i])
}

/// Whether `token` is one punctuation mark.
pub open spec fn is_mark(token: Seq<char>) -> bool {
    token.len() == 1 && is_punctuation(token[0])
}

/// Whether `token` can come out of segmentation.
pub open spec fn is_token(token: Seq<char>) -> bool {
    is_word(token) || is_mark(token)
}

/// Every token is a run of word characters or one punctuation mark; none is
/// empty.
pub proof fn lemma_words_shape(s: Seq<char>)
    ensures
        forall|i: int| 0 <= i < words(s).len() ==> is_token(#[trigger] words(s)[i]),
    decreases s.len(),
{
    if s.len() > 0 {
        let all = words(s);
        if is_word_char(s[0]) {
            let n = run_length(s) as int;
            lemma_run_bounds(s);
            lemma_words_shape(s.skip(n));
            let head = s.take(n);
            assert(is_word(head)) by {
                assert forall|i: int| 0 <= i < head.len() implies is_word_char(
                    #[trigger] head[i],
                ) by {
                    assert(head[i] == s[i]);
                }
            }
            assert(all == seq![head] + words(s.skip(n)));
            assert forall|i: int| 0 <= i < all.len() implies is_token(#[trigger] all[i]) by {
                if i > 0 {
                    assert(all[i] == words(s.skip(n))[i - 1]);
                } else {
                    assert(all[0] == head);
                }
            }
        } else if is_punctuation(s[0]) {
            lemma_words_shape(s.skip(1));
            let head = s.take(1);
            assert(is_mark(head));
            assert(all == seq![head] + words(s.skip(1)));
            assert forall|i: int| 0 <= i < all.len() implies is_token(#[trigger] all[i]) by {
                if i > 0 {
                    assert(all[i] == words(s.skip(1))[i - 1]);
                } else {
                    assert(all[0] == head);
                }
            }
        } else {
            lemma_words_shape(s.skip(1));
            assert(all == words(s.skip(1)));
        }
    }
}

/// A text without word characters and punctuation marks has no tokens.
pub proof fn lemma_words_of_separators(s: Seq<char>)
    requires
        forall|i: int| 0 <= i < s.len() ==> !is_word_char(#[trigger] s[i]) && !is_punctuation(s[i]),
    ensures
        words(s).len() == 0,
    decreases s.len(),
{
    if s.len() > 0 {
        let t = s.skip(1);
        assert forall|i: int| 0 <= i < t.len() implies !is_word_char(#[trigger] t[i])
            && !is_punctuation(t[i]) by {
            assert(t[i] == s[i + 1]);
        }
        lemma_words_of_separators(t);
    }
}

/// A run of word characters is one token: itself.
pub proof fn lemma_words_of_word(s: Seq<char>)
    requires
        is_word(s),
    ensures
        words(s) == seq![s],
{
    lemma_run_length(s, s.len());
    assert(s.take(s.len() as int) =~= s);
    assert(s.skip(s.len() as int) =~= Seq::<char>::empty());
    assert(words(Seq::<char>::empty()) =~= Seq::<Seq<char>>::empty());
    assert(seq![s] + Seq::<Seq<char>>::empty() =~= seq![s]);
}

/// The ASCII characters of `text`, in order.
pub fn keep_ascii(text: &str) -> (r: String)
    ensures
        r@ == ascii_only(text@),
        forall|i: int| 0 <= i < r@.len() ==> is_ascii_char(#[trigger] r@[i]),
{
    let chars = chars_of(text);
    let mut out = String::new();
    let mut i: usize = 0;
    proof {
        reveal(Seq::filter);
        assert(chars@.take(0) =~= Seq::<char>::empty());
    }
    while i < chars.len()
        invariant
            i <= chars.len(),
            chars@ == text@,
            out@ == ascii_only(chars@.take(i as int)),
            forall|k: int| 0 <= k < out@.len() ==> is_ascii_char(#[trigger] out@[k]),
        decreases chars.len() - i,
    {
        let c = chars[i];
        proof {
            reveal(Seq::filter);
            let next = chars@.take(i + 1);
            assert(next.drop_last() =~= chars@.take(i as int));
            assert(next.last() == c);
        }
        if c <= '\u{7f}' {
            push_char(&mut out, c);
        }
        i += 1;
    }
    assert(chars@.take(i as int) =~= chars@);
    out
}

/// The text that is segmented for `sentence`: lower case, ASCII only.
pub fn normalize(sentence: &str) -> (r: String)
    ensures
        r@ == normalized(sentence@),
        forall|i: int| 0 <= i < r@.len() ==> is_ascii_char(#[trigger] r@[i]),
{
    let lower = fold(sentence);
    keep_ascii(lower.as_str())
}

/// The tokens of `text`, which is taken as it is.
pub fn split_words(text: &str) -> (r: Vec<String>)
    ensures
        r.deep_view() == words(text@),
{
    let chars = chars_of(text);
    let n = chars.len();
    let mut out: Vec<String> = Vec::new();
    let mut i: usize = 0;
    assert(out.deep_view() =~= Seq::<Seq<char>>::empty());
    assert(chars@.skip(0) =~= chars@);
    while i < n
        invariant
            i <= n,
            n == chars.len(),
            chars@ == text@,
            out.deep_view() + words(chars@.skip(i as int)) == words(chars@),
        decreases n - i,
    {
        let ghost rest = chars@.skip(i as int);
        let ghost before = out.deep_view();
        let c = chars[i];
        assert(rest[0] == c);
        if check_word_char(c) {
            let mut j: usize = i + 1;
            while j < n && check_word_char(chars[j])
                invariant
                    i < j <= n,
                    n == chars.len(),
                    forall|k: int| i <= k < j ==> is_word_char(#[trigger] chars@[k]),
                decreases n - j,
            {
                j += 1;
            }
            proof {
                assert forall|k: int| 0 <= k < j - i implies is_word_char(#[trigger] rest[k]) by {
                    assert(rest[k] == chars@[i + k]);
                }
                lemma_run_length(rest, (j - i) as nat);
                assert(rest.take(j - i) =~= chars@.subrange(i as int, j as int));
                assert(rest.skip(j - i) =~= chars@.skip(j as int));
            }
            let word = string_of(&chars, i, j);
            out.push(word);
            assert(out.deep_view() =~= before + seq![rest.take(j - i)]);
            assert(out.deep_view() + words(chars@.skip(j as int)) =~= before + words(rest));
            i = j;
        } else {
            proof {
                assert(rest.skip(1) =~= chars@.skip(i + 1));
                assert(rest.take(1) =~= chars@.subrange(i as int, i + 1));
            }
            if check_punctuation(c) {
                let mark = string_of(&chars, i, i + 1);
                out.push(mark);
                assert(out.deep_view() =~= before + seq![rest.take(1)]);
                assert(out.deep_view() + words(chars@.skip(i + 1)) =~= before + words(rest));
            }
            i += 1;
        }
    }
    assert(words(chars@.skip(n as int)) =~= Seq::<Seq<char>>::empty());
    assert(out.deep_view() =~= out.deep_view() + Seq::<Seq<char>>::empty());
    out
}

/// The raw words and punctuation marks of a text that is already in lower
/// case.
pub fn segment_lowercased(lower: &str) -> (r: Vec<String>)
    ensures
        r.deep_view() == words(ascii_only(lower@)),
{
    let text = keep_ascii(lower);
    split_words(text.as_str())
}

/// The raw words and punctuation marks of `sentence`.
pub fn segment(sentence: &str) -> (r: Vec<String>)
    ensures
        r.deep_view() == words(normalized(sentence@)),
{
    let lower = fold(sentence);
    segment_lowercased(lower.as_str())
}

} // verus!
