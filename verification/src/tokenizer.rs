//! Sub-word decomposition: from a word to the ids of its pieces.
//!
//! A word is consumed from the left. At each step the longest prefix of what
//! is left that the vocabulary knows is taken; from the second piece of a
//! word on, a prefix is looked up with the continuation marker in front. A
//! word that cannot be consumed to its end has no decomposition.
use vstd::prelude::*;
use crate::error::{EncodeError, EncodeErrorView};
use crate::segment::{ascii_only, segment_lowercased, words};
use crate::text::{chars_of, fold, folded, pop_char, push_char};
use crate::vocab::Vocabulary;

verus! {

/// The marker in front of a token that continues a word.
pub open spec fn marker() -> Seq<char> {
    seq!['#', '#']
}

/// The string that is looked up for the first `n` characters of `rest`.
pub open spec fn candidate(rest: Seq<char>, n: int, first: bool) -> Seq<char> {
    if first {
        rest.take(n)
    } else {
        marker() + rest.take(n)
    }
}

/// The greatest length from 1 to `n` whose candidate is in the vocabulary,
/// or 0 if there is none.
pub open spec fn longest_match(
    vocab: Map<Seq<char>, i32>,
    rest: Seq<char>,
    n: nat,
    first: bool,
) -> nat
    decreases n,
{
    if n == 0 {
        0
    } else if vocab.contains_key(candidate(rest, n as int, first)) {
        n
    } else {
        longest_match(vocab, rest, (n - 1) as nat, first)
    }
}

/// The ids of the pieces of `rest`, or `None` where `rest` cannot be
/// consumed to its end. `first` says that no piece of the word was taken yet.
pub open spec fn decompose(vocab: Map<Seq<char>, i32>, rest: Seq<char>, first: bool) -> Option<
    Seq<i32>,
>
    decreases rest.len(),
{
    if rest.len() == 0 {
        Some(Seq::empty())
    } else {
        let k = longest_match(vocab, rest, rest.len(), first) as int;
        if k == 0 {
            None
        } else {
            proof {
                lemma_longest_match_bound(vocab, rest, rest.len(), first);
            }
            match decompose(vocab, rest.skip(k), false) {
                Some(tail) => Some(seq![vocab[candidate(rest, k, first)]] + tail),
                None => None,
            }
        }
    }
}

/// The ids of the pieces of `word`.
pub open spec fn word_tokens(vocab: Map<Seq<char>, i32>, word: Seq<char>) -> Option<Seq<i32>> {
    decompose(vocab, word, true)
}

/// The ids of all pieces of `words`, word after word; or the first word that
/// has no decomposition.
pub open spec fn words_tokens(vocab: Map<Seq<char>, i32>, words: Seq<Seq<char>>) -> Result<
    Seq<i32>,
    Seq<char>,
>
    decreases words.len(),
{
    if words.len() == 0 {
        Ok(Seq::empty())
    } else {
        match words_tokens(vocab, words.drop_last()) {
            Err(word) => Err(word),
            Ok(ids) => match word_tokens(vocab, words.last()) {
                Some(more) => Ok(ids + more),
                None => Err(words.last()),
            },
        }
    }
}

/// The ids for a text that is already in lower case.
pub open spec fn lowercased_tokens(vocab: Map<Seq<char>, i32>, lower: Seq<char>) -> Result<
    Seq<i32>,
    Seq<char>,
> {
    words_tokens(vocab, words(ascii_only(lower)))
}

/// The ids for a sentence.
pub open spec fn sentence_tokens(vocab: Map<Seq<char>, i32>, sentence: Seq<char>) -> Result<
    Seq<i32>,
    Seq<char>,
> {
    lowercased_tokens(vocab, folded(sentence))
}

/// What a tokenizing function hands back, as sequences.
pub open spec fn tokens_view(r: Result<Vec<i32>, EncodeError>) -> Result<Seq<i32>, Seq<char>> {
    match r {
        Ok(ids) => Ok(ids@),
        Err(e) => match e@ {
            EncodeErrorView::UnknownToken(word) => Err(word),
            EncodeErrorView::DegenerateEmbedding => Err(Seq::empty()),
        },
    }
}

/// Whether `id` is one that `vocab` gives to some token.
pub open spec fn is_vocab_id(vocab: Map<Seq<char>, i32>, id: i32) -> bool {
    exists|k: Seq<char>| #[trigger] vocab.contains_key(k) && vocab[k] == id
}

/// Whether every id in `ids` is one that `vocab` gives to some token.
pub open spec fn ids_from(vocab: Map<Seq<char>, i32>, ids: Seq<i32>) -> bool {
    forall|i: int| 0 <= i < ids.len() ==> is_vocab_id(vocab, #[trigger] ids[i])
}

/// The longest match is no longer than the longest candidate; where it is
/// not 0 its candidate is in the vocabulary, and no candidate of a greater
/// length is.
pub proof fn lemma_longest_match_bound(
    vocab: Map<Seq<char>, i32>,
    rest: Seq<char>,
    n: nat,
    first: bool,
)
    ensures
        longest_match(vocab, rest, n, first) <= n,
        longest_match(vocab, rest, n, first) > 0 ==> vocab.contains_key(
            candidate(rest, longest_match(vocab, rest, n, first) as int, first),
        ),
        forall|m: int|
            longest_match(vocab, rest, n, first) < m <= n ==> !vocab.contains_key(
                #[trigger] candidate(rest, m, first),
            ),
    decreases n,
{
    if n > 0 && !vocab.contains_key(candidate(rest, n as int, first)) {
        lemma_longest_match_bound(vocab, rest, (n - 1) as nat, first);
    }
}

/// Lengths whose candidates are unknown do not count: the longest match
/// among the first `n` is the longest among the first `m`, if no length
/// above `m` has a known candidate.
pub proof fn lemma_longest_match_skip(
    vocab: Map<Seq<char>, i32>,
    rest: Seq<char>,
    n: nat,
    m: nat,
    first: bool,
)
    requires
        m <= n,
        forall|k: int| m < k <= n ==> !vocab.contains_key(#[trigger] candidate(rest, k, first)),
    ensures
        longest_match(vocab, rest, n, first) == longest_match(vocab, rest, m, first),
    decreases n - m,
{
    if m < n {
        assert(!vocab.contains_key(candidate(rest, n as int, first)));
        lemma_longest_match_skip(vocab, rest, (n - 1) as nat, m, first);
    }
}

/// Every id of a decomposition is an id of the vocabulary.
pub proof fn lemma_decompose_ids(vocab: Map<Seq<char>, i32>, rest: Seq<char>, first: bool)
    ensures
        decompose(vocab, rest, first) matches Some(ids) ==> ids_from(vocab, ids),
    decreases rest.len(),
{
    if rest.len() > 0 {
        let k = longest_match(vocab, rest, rest.len(), first) as int;
        if k > 0 {
            lemma_longest_match_bound(vocab, rest, rest.len(), first);
            lemma_decompose_ids(vocab, rest.skip(k), false);
            if let Some(tail) = decompose(vocab, rest.skip(k), false) {
                let key = candidate(rest, k, first);
                let ids = seq![vocab[key]] + tail;
                assert forall|i: int| 0 <= i < ids.len() implies is_vocab_id(
                    vocab,
                    #[trigger] ids[i],
                ) by {
                    if i == 0 {
                        assert(vocab.contains_key(key) && vocab[key] == ids[0]);
                    } else {
                        assert(ids[i] == tail[i - 1]);
                        assert(is_vocab_id(vocab, tail[i - 1]));
                    }
                }
            }
        }
    }
}

/// Every id that a list of words is given is an id of the vocabulary.
pub proof fn lemma_words_tokens_ids(vocab: Map<Seq<char>, i32>, words: Seq<Seq<char>>)
    ensures
        words_tokens(vocab, words) matches Ok(ids) ==> ids_from(vocab, ids),
    decreases words.len(),
{
    if words.len() > 0 {
        lemma_words_tokens_ids(vocab, words.drop_last());
        lemma_decompose_ids(vocab, words.last(), true);
        if let Ok(ids) = words_tokens(vocab, words) {
            let head = words_tokens(vocab, words.drop_last())->Ok_0;
            let more = word_tokens(vocab, words.last())->Some_0;
            assert forall|i: int| 0 <= i < ids.len() implies is_vocab_id(
                vocab,
                #[trigger] ids[i],
            ) by {
                if i < head.len() {
                    assert(ids[i] == head[i]);
                    assert(is_vocab_id(vocab, head[i]));
                } else {
                    assert(ids[i] == more[i - head.len()]);
                    assert(is_vocab_id(vocab, more[i - head.len()]));
                }
            }
            assert(ids_from(vocab, ids));
        }
    } else {
        assert(words_tokens(vocab, words) == Ok::<Seq<i32>, Seq<char>>(Seq::empty()));
    }
}

/// The tokens that are taken from `rest`, in their order, or `None` where
/// `rest` cannot be consumed to its end.
pub open spec fn pieces(vocab: Map<Seq<char>, i32>, rest: Seq<char>, first: bool) -> Option<
    Seq<Seq<char>>,
>
    decreases rest.len(),
{
    if rest.len() == 0 {
        Some(Seq::empty())
    } else {
        let k = longest_match(vocab, rest, rest.len(), first) as int;
        if k == 0 {
            None
        } else {
            proof {
                lemma_longest_match_bound(vocab, rest, rest.len(), first);
            }
            match pieces(vocab, rest.skip(k), false) {
                Some(tail) => Some(seq![candidate(rest, k, first)] + tail),
                None => None,
            }
        }
    }
}

/// What `tokens` spell: the characters of each, one after the other, without
/// the marker of those that continue a word. `first` says that the first of
/// them starts a word.
pub open spec fn spelled(tokens: Seq<Seq<char>>, first: bool) -> Seq<char>
    decreases tokens.len(),
{
    if tokens.len() == 0 {
        Seq::empty()
    } else if first {
        tokens[0] + spelled(tokens.drop_first(), false)
    } else {
        tokens[0].skip(2) + spelled(tokens.drop_first(), false)
    }
}

/// A decomposition is one: its ids are those of tokens of the vocabulary
/// that spell the word, the first as it is and every other with the marker
/// in front.
pub proof fn lemma_pieces_spell(vocab: Map<Seq<char>, i32>, rest: Seq<char>, first: bool)
    ensures
        decompose(vocab, rest, first) is Some <==> pieces(vocab, rest, first) is Some,
        pieces(vocab, rest, first) matches Some(tokens) ==> {
            let ids = decompose(vocab, rest, first)->Some_0;
            &&& ids.len() == tokens.len()
            &&& forall|i: int|
                0 <= i < tokens.len() ==> vocab.contains_key(#[trigger] tokens[i]) && ids[i]
                    == vocab[tokens[i]]
            &&& forall|i: int|
                0 <= i < tokens.len() && !(first && i == 0) ==> (#[trigger] tokens[i]).take(2)
                    == marker()
            &&& spelled(tokens, first) == rest
        },
    decreases rest.len(),
{
    if rest.len() > 0 {
        let k = longest_match(vocab, rest, rest.len(), first) as int;
        if k > 0 {
            lemma_longest_match_bound(vocab, rest, rest.len(), first);
            let tail_rest = rest.skip(k);
            lemma_pieces_spell(vocab, tail_rest, false);
            if let Some(tail) = pieces(vocab, tail_rest, false) {
                let head = candidate(rest, k, first);
                let tokens = seq![head] + tail;
                let tail_ids = decompose(vocab, tail_rest, false)->Some_0;
                let ids = seq![vocab[head]] + tail_ids;
                assert(tokens.drop_first() =~= tail);
                assert forall|i: int| 0 <= i < tokens.len() implies vocab.contains_key(
                    #[trigger] tokens[i],
                ) && ids[i] == vocab[tokens[i]] by {
                    if i > 0 {
                        assert(tokens[i] == tail[i - 1]);
                        assert(ids[i] == tail_ids[i - 1]);
                    }
                }
                assert forall|i: int| 0 <= i < tokens.len() && !(first && i == 0) implies (
                #[trigger] tokens[i]).take(2) == marker() by {
                    if i > 0 {
                        assert(tokens[i] == tail[i - 1]);
                    } else {
                        assert(head.take(2) =~= marker());
                    }
                }
                if first {
                    assert(head == rest.take(k));
                } else {
                    assert(head.skip(2) =~= rest.take(k));
                }
                assert(rest.take(k) + tail_rest =~= rest);
            }
        }
    }
}

/// A word that is itself a token is one piece: its own id.
pub proof fn lemma_whole_word(vocab: Map<Seq<char>, i32>, word: Seq<char>)
    requires
        word.len() > 0,
        vocab.contains_key(word),
    ensures
        word_tokens(vocab, word) == Some(seq![vocab[word]]),
{
    reveal_with_fuel(decompose, 2);
    assert(candidate(word, word.len() as int, true) =~= word);
    assert(longest_match(vocab, word, word.len(), true) == word.len());
    assert(word.skip(word.len() as int) =~= Seq::<char>::empty());
    assert(seq![vocab[word]] + Seq::<i32>::empty() =~= seq![vocab[word]]);
}

/// A word in two pieces: where the longest prefix of `word` that is a token
/// has `k` characters, and what follows it is a token with the marker in
/// front, the word has the ids of these two, in this order.
pub proof fn lemma_two_pieces(vocab: Map<Seq<char>, i32>, word: Seq<char>, k: int)
    requires
        0 < k < word.len(),
        vocab.contains_key(word.take(k)),
        forall|n: int| k < n <= word.len() ==> !vocab.contains_key(#[trigger] word.take(n)),
        vocab.contains_key(marker() + word.skip(k)),
    ensures
        word_tokens(vocab, word) == Some(
            seq![vocab[word.take(k)], vocab[marker() + word.skip(k)]],
        ),
{
    reveal_with_fuel(decompose, 3);
    let tail = word.skip(k);
    assert forall|n: int| k < n <= word.len() implies !vocab.contains_key(
        #[trigger] candidate(word, n, true),
    ) by {
        assert(candidate(word, n, true) == word.take(n));
    }
    lemma_longest_match_skip(vocab, word, word.len(), k as nat, true);
    assert(longest_match(vocab, word, k as nat, true) == k);
    assert(tail.take(tail.len() as int) =~= tail);
    assert(candidate(tail, tail.len() as int, false) == marker() + tail);
    assert(longest_match(vocab, tail, tail.len(), false) == tail.len());
    assert(tail.skip(tail.len() as int) =~= Seq::<char>::empty());
    assert(decompose(vocab, tail, false) == Some(seq![vocab[marker() + tail]] + Seq::<i32>::empty()));
    assert(seq![vocab[word.take(k)]] + (seq![vocab[marker() + tail]] + Seq::<i32>::empty())
        =~= seq![vocab[word.take(k)], vocab[marker() + tail]]);
}

/// A character that no token holds cannot be consumed: a word with such a
/// character has no decomposition, whatever else the vocabulary knows.
pub proof fn lemma_foreign_char(vocab: Map<Seq<char>, i32>, word: Seq<char>, c: char)
    requires
        word.contains(c),
        forall|t: Seq<char>| #[trigger] vocab.contains_key(t) ==> !t.contains(c),
    ensures
        word_tokens(vocab, word) is None,
{
    lemma_foreign_char_rest(vocab, word, true, c);
}

/// The same, from any point inside a word.
pub proof fn lemma_foreign_char_rest(
    vocab: Map<Seq<char>, i32>,
    rest: Seq<char>,
    first: bool,
    c: char,
)
    requires
        rest.contains(c),
        forall|t: Seq<char>| #[trigger] vocab.contains_key(t) ==> !t.contains(c),
    ensures
        decompose(vocab, rest, first) is None,
    decreases rest.len(),
{
    let at = choose|i: int| 0 <= i < rest.len() && rest[i] == c;
    let k = longest_match(vocab, rest, rest.len(), first) as int;
    if k > 0 {
        lemma_longest_match_bound(vocab, rest, rest.len(), first);
        let key = candidate(rest, k, first);
        if at < k {
            if first {
                assert(key[at] == c);
            } else {
                assert(key[at + 2] == c);
            }
            assert(key.contains(c));
        } else {
            let tail = rest.skip(k);
            assert(tail[at - k] == c);
            assert(tail.contains(c));
            lemma_foreign_char_rest(vocab, tail, false, c);
        }
    }
}

/// The string that is looked up for `chars[start..end]`.
fn make_candidate(chars: &Vec<char>, start: usize, end: usize, first: bool) -> (r: String)
    requires
        start <= end <= chars.len(),
    ensures
        r@ == candidate(chars@.skip(start as int), end - start, first),
{
    let mut out = String::new();
    if !first {
        push_char(&mut out, '#');
        push_char(&mut out, '#');
    }
    let ghost head = out@;
    assert(head =~= if first {
        Seq::<char>::empty()
    } else {
        marker()
    });
    let mut i: usize = start;
    while i < end
        invariant
            start <= i <= end <= chars.len(),
            out@ == head + chars@.subrange(start as int, i as int),
        decreases end - i,
    {
        push_char(&mut out, chars[i]);
        assert(out@ =~= head + chars@.subrange(start as int, i + 1));
        i += 1;
    }
    assert(chars@.skip(start as int).take(end - start) =~= chars@.subrange(
        start as int,
        end as int,
    ));
    assert(out@ =~= candidate(chars@.skip(start as int), end - start, first));
    out
}

/// The ids of the pieces of `word`, or `UnknownToken` with the word where it
/// has no decomposition.
pub fn word2tok(word: &str, vocab: &Vocabulary) -> (r: Result<Vec<i32>, EncodeError>)
    ensures
        match word_tokens(vocab@, word@) {
            Some(ids) => r matches Ok(v) && v@ == ids,
            None => r matches Err(e) && e@ == EncodeErrorView::UnknownToken(word@),
        },
        r matches Ok(v) ==> forall|i: int| 0 <= i < v.len() ==> 0 <= #[trigger] v[i] < vocab.id_bound(),
{
    let chars = chars_of(word);
    let n = chars.len();
    let mut tokens: Vec<i32> = Vec::new();
    let mut start: usize = 0;
    assert(chars@.skip(0) =~= chars@);
    assert(tokens@ + Seq::<i32>::empty() =~= tokens@);
    while start < n
        invariant
            start <= n,
            n == chars.len(),
            chars@ == word@,
            forall|i: int| 0 <= i < tokens.len() ==> 0 <= #[trigger] tokens[i] < vocab.id_bound(),
            match decompose(vocab@, chars@.skip(start as int), tokens.len() == 0) {
                Some(tail) => word_tokens(vocab@, chars@) == Some(tokens@ + tail),
                None => word_tokens(vocab@, chars@) is None,
            },
        decreases n - start,
    {
        let ghost rest = chars@.skip(start as int);
        let first = tokens.len() == 0;
        let mut end: usize = n;
        let mut found: Option<i32> = None;
        let mut target = make_candidate(&chars, start, n, first);
        while end > start
            invariant_except_break
                found is None,
            invariant
                start <= end <= n,
                start < n,
                n == chars.len(),
                rest == chars@.skip(start as int),
                target@ == candidate(rest, end - start, first),
                forall|k: int|
                    end - start < k <= n - start ==> !vocab@.contains_key(
                        #[trigger] candidate(rest, k, first),
                    ),
            ensures
                match found {
                    Some(id) => start < end <= n && vocab@.contains_key(
                        candidate(rest, end - start, first),
                    ) && id == vocab@[candidate(rest, end - start, first)] && 0 <= id
                        < vocab.id_bound(),
                    None => end == start,
                },
            decreases end - start,
        {
            match vocab.get(target.as_str()) {
                Some(id) => {
                    found = Some(id);
                    break ;
                },
                None => {
                    assert(candidate(rest, end - start, first).drop_last() =~= candidate(
                        rest,
                        end - start - 1,
                        first,
                    ));
                    pop_char(&mut target);
                    end -= 1;
                },
            }
        }
        proof {
            lemma_longest_match_skip(
                vocab@,
                rest,
                (n - start) as nat,
                (end - start) as nat,
                first,
            );
        }
        match found {
            Some(id) => {
                proof {
                    assert(rest.skip(end - start) =~= chars@.skip(end as int));
                    let tail = decompose(vocab@, chars@.skip(end as int), false);
                    if let Some(t) = tail {
                        assert(tokens@ + (seq![id] + t) =~= tokens@.push(id) + t);
                    }
                }
                tokens.push(id);
                start = end;
            },
            None => {
                return Err(EncodeError::UnknownToken(word.to_owned()));
            },
        }
    }
    assert(tokens@ + Seq::<i32>::empty() =~= tokens@);
    Ok(tokens)
}

/// The ids of all pieces of `words`, word after word. The first word without
/// a decomposition ends the work, and no id is handed out.
pub fn words2tok(words: &Vec<String>, vocab: &Vocabulary) -> (r: Result<Vec<i32>, EncodeError>)
    ensures
        tokens_view(r) == words_tokens(vocab@, words.deep_view()),
        r matches Err(e) ==> e is UnknownToken,
        r matches Ok(v) ==> forall|i: int| 0 <= i < v.len() ==> 0 <= #[trigger] v[i] < vocab.id_bound(),
{
    let mut all: Vec<i32> = Vec::new();
    let mut i: usize = 0;
    assert(words.deep_view().take(0) =~= Seq::<Seq<char>>::empty());
    while i < words.len()
        invariant
            i <= words.len(),
            words_tokens(vocab@, words.deep_view().take(i as int)) == Ok::<Seq<i32>, Seq<char>>(
                all@,
            ),
            forall|k: int| 0 <= k < all.len() ==> 0 <= #[trigger] all[k] < vocab.id_bound(),
        decreases words.len() - i,
    {
        let ghost done = words.deep_view().take(i as int);
        let ghost next = words.deep_view().take(i + 1);
        proof {
            assert(next.drop_last() =~= done);
            assert(next.last() == words[i as int]@);
        }
        match word2tok(words[i].as_str(), vocab) {
            Ok(mut ids) => {
                all.append(&mut ids);
            },
            Err(e) => {
                proof {
                    lemma_words_tokens_prefix(vocab@, words.deep_view(), i + 1);
                }
                return Err(e);
            },
        }
        i += 1;
    }
    assert(words.deep_view().take(i as int) =~= words.deep_view());
    Ok(all)
}

/// A failure among the first `n` words is the failure of the whole list.
pub proof fn lemma_words_tokens_prefix(vocab: Map<Seq<char>, i32>, words: Seq<Seq<char>>, n: int)
    requires
        0 <= n <= words.len(),
        words_tokens(vocab, words.take(n)) is Err,
    ensures
        words_tokens(vocab, words) == words_tokens(vocab, words.take(n)),
    decreases words.len() - n,
{
    if n < words.len() {
        let longer = words.take(n + 1);
        assert(longer.drop_last() =~= words.take(n));
        lemma_words_tokens_prefix(vocab, words, n + 1);
    } else {
        assert(words.take(n) =~= words);
    }
}

/// The ids for a text that is already in lower case.
pub fn lowercased2tok(lower: &str, vocab: &Vocabulary) -> (r: Result<Vec<i32>, EncodeError>)
    ensures
        tokens_view(r) == lowercased_tokens(vocab@, lower@),
        r matches Err(e) ==> e is UnknownToken,
        r matches Ok(v) ==> forall|i: int| 0 <= i < v.len() ==> 0 <= #[trigger] v[i] < vocab.id_bound(),
{
    let words = segment_lowercased(lower);
    words2tok(&words, vocab)
}

/// The ids for `sentence`: its words are found, and each is decomposed.
pub fn setencen2tok(sentence: &str, vocab: &Vocabulary) -> (r: Result<Vec<i32>, EncodeError>)
    ensures
        tokens_view(r) == sentence_tokens(vocab@, sentence@),
        r matches Err(e) ==> e is UnknownToken,
        r matches Ok(v) ==> forall|i: int| 0 <= i < v.len() ==> 0 <= #[trigger] v[i] < vocab.id_bound(),
{
    let lower = fold(sentence);
    lowercased2tok(lower.as_str(), vocab)
}

} // verus!
