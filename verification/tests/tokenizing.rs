use rustpotion::tokenizer::{lowercased2tok, setencen2tok, word2tok, words2tok};
use rustpotion::{EncodeError, InitError, Vocabulary};

fn vocab(entries: &[(&str, i32)]) -> Vocabulary {
    Vocabulary::from_entries(entries.iter().map(|(t, i)| (t.to_string(), *i)).collect()).unwrap()
}

#[test]
fn unable_is_un_and_able() {
    let v = vocab(&[("un", 7), ("##able", 9)]);
    assert_eq!(word2tok("unable", &v), Ok(vec![7, 9]));
}

#[test]
fn a_whole_word_is_one_token() {
    let v = vocab(&[("test", 5), ("te", 1), ("##st", 2)]);
    assert_eq!(word2tok("test", &v), Ok(vec![5]));
}

#[test]
fn the_longest_prefix_wins() {
    let v = vocab(&[("a", 1), ("ab", 2), ("##c", 3), ("##bc", 4)]);
    assert_eq!(word2tok("abc", &v), Ok(vec![2, 3]));
}

#[test]
fn no_shorter_prefix_is_tried_after_a_match() {
    // "a" and "##bc" would spell the word, but "ab" is taken first.
    let v = vocab(&[("a", 1), ("ab", 2), ("##bc", 4)]);
    assert_eq!(word2tok("abc", &v), Err(EncodeError::UnknownToken("abc".to_string())));
}

#[test]
fn later_pieces_need_the_marker() {
    let v = vocab(&[("un", 1), ("able", 2)]);
    assert_eq!(word2tok("unable", &v), Err(EncodeError::UnknownToken("unable".to_string())));
    assert_eq!(word2tok("able", &v), Ok(vec![2]));
}

#[test]
fn the_first_piece_takes_no_marker() {
    let v = vocab(&[("##able", 2)]);
    assert_eq!(word2tok("able", &v), Err(EncodeError::UnknownToken("able".to_string())));
}

#[test]
fn a_character_that_no_token_holds_is_unknown() {
    let v = vocab(&[("a", 1), ("##a", 2), ("b", 3), ("##b", 4)]);
    assert_eq!(word2tok("abz", &v), Err(EncodeError::UnknownToken("abz".to_string())));
    assert_eq!(word2tok("zab", &v), Err(EncodeError::UnknownToken("zab".to_string())));
    assert_eq!(word2tok("abab", &v), Ok(vec![1, 4, 2, 4]));
}

#[test]
fn the_empty_word_has_no_tokens() {
    let v = vocab(&[("a", 1)]);
    assert_eq!(word2tok("", &v), Ok(vec![]));
}

#[test]
fn the_empty_candidate_is_never_looked_up() {
    // Neither the empty string nor the bare marker can match.
    let v = vocab(&[("", 1), ("##", 2), ("a", 3)]);
    assert_eq!(word2tok("a", &v), Ok(vec![3]));
    assert_eq!(word2tok("ab", &v), Err(EncodeError::UnknownToken("ab".to_string())));
}

#[test]
fn single_characters_spell_a_word() {
    let v = vocab(&[("c", 1), ("##a", 2), ("##t", 3)]);
    assert_eq!(word2tok("cat", &v), Ok(vec![1, 2, 3]));
}

#[test]
fn words_are_decomposed_in_order() {
    let v = vocab(&[("hello", 1), ("world", 2), (",", 3), ("!", 4)]);
    let words = vec!["hello".to_string(), ",".to_string(), "world".to_string(), "!".to_string()];
    assert_eq!(words2tok(&words, &v), Ok(vec![1, 3, 2, 4]));
    assert_eq!(words2tok(&Vec::new(), &v), Ok(vec![]));
}

#[test]
fn the_first_unknown_word_is_reported() {
    let v = vocab(&[("hello", 1)]);
    let words = vec!["hello".to_string(), "xx".to_string(), "yy".to_string()];
    assert_eq!(words2tok(&words, &v), Err(EncodeError::UnknownToken("xx".to_string())));
}

#[test]
fn a_sentence_is_folded_split_and_decomposed() {
    let v = vocab(&[("hello", 1), ("world", 2), (",", 3), ("!", 4), ("##s", 5)]);
    assert_eq!(setencen2tok("Hello, Worlds!", &v), Ok(vec![1, 3, 2, 5, 4]));
    assert_eq!(setencen2tok("", &v), Ok(vec![]));
    assert_eq!(setencen2tok("   ", &v), Ok(vec![]));
}

#[test]
fn an_unknown_word_aborts_the_sentence() {
    let v = vocab(&[("hello", 1)]);
    assert_eq!(
        setencen2tok("hello there hello", &v),
        Err(EncodeError::UnknownToken("there".to_string()))
    );
}

#[test]
fn lowered_text_is_not_folded_again() {
    let v = vocab(&[("hello", 1)]);
    assert_eq!(lowercased2tok("hello", &v), Ok(vec![1]));
    assert_eq!(lowercased2tok("Hello", &v), Err(EncodeError::UnknownToken("Hello".to_string())));
}

#[test]
fn vocabulary_lookups() {
    let v = vocab(&[("a", 0), ("b", 4), ("c", 2)]);
    assert_eq!(v.get("a"), Some(0));
    assert_eq!(v.get("b"), Some(4));
    assert_eq!(v.get("d"), None);
    assert!(v.contains("c"));
    assert!(!v.contains("C"));
    assert_eq!(v.id_bound(), 5);
    assert_eq!(v.len(), 3);
    assert_eq!(Vocabulary::new().id_bound(), 0);
    assert_eq!(Vocabulary::new().len(), 0);
}

#[test]
fn a_negative_id_is_refused() {
    let r = Vocabulary::from_entries(vec![("a".to_string(), 1), ("b".to_string(), -1)]);
    assert_eq!(r.err(), Some(InitError::MalformedVocabulary));
}

#[test]
fn a_token_twice_is_refused() {
    let r = Vocabulary::from_entries(vec![("a".to_string(), 1), ("a".to_string(), 2)]);
    assert_eq!(r.err(), Some(InitError::MalformedVocabulary));
}

#[test]
fn a_refused_insert_changes_nothing() {
    let mut v = vocab(&[("a", 3)]);
    assert_eq!(v.insert("a".to_string(), 9), Err(InitError::MalformedVocabulary));
    assert_eq!(v.insert("b".to_string(), -2), Err(InitError::MalformedVocabulary));
    assert_eq!(v.get("a"), Some(3));
    assert_eq!(v.get("b"), None);
    assert_eq!(v.id_bound(), 4);
    assert_eq!(v.insert("b".to_string(), 10), Ok(()));
    assert_eq!(v.id_bound(), 11);
    assert_eq!(v.insert("c".to_string(), 5), Ok(()));
    assert_eq!(v.id_bound(), 11);
    assert_eq!(v.insert("d".to_string(), 11), Ok(()));
    assert_eq!(v.id_bound(), 12);
}

#[test]
fn a_long_word_is_decomposed_piece_by_piece() {
    let v = vocab(&[("a", 1), ("##a", 2), ("##aa", 3)]);
    let word = "a".repeat(301);
    let ids = word2tok(&word, &v).unwrap();
    assert_eq!(ids.len(), 151);
    assert_eq!(ids[0], 1);
    assert!(ids[1..].iter().all(|id| *id == 3));
    let word = "a".repeat(300);
    let ids = word2tok(&word, &v).unwrap();
    assert_eq!(ids.len(), 151);
    assert_eq!(ids[150], 2);
}

#[test]
fn a_word_outside_ascii_is_read_by_characters() {
    let v = vocab(&[("\u{e9}", 1), ("##t\u{e9}", 2)]);
    assert_eq!(word2tok("\u{e9}t\u{e9}", &v), Ok(vec![1, 2]));
    assert_eq!(word2tok("\u{e9}\u{e9}", &v), Err(EncodeError::UnknownToken("\u{e9}\u{e9}".to_string())));
}
