use regex::Regex;
use rustpotion::segment::{keep_ascii, normalize, segment, segment_lowercased, split_words};
use rustpotion::text::{chars_of, first_chars, fold, lower_ascii, EMBEDDED_CHARS};

fn owned(words: &[&str]) -> Vec<String> {
    words.iter().map(|w| w.to_string()).collect()
}

/// The matches of `pattern` in `text`, from left to right.
fn by_pattern(pattern: &str, text: &str) -> Vec<String> {
    let re = Regex::new(pattern).unwrap();
    re.find_iter(text).map(|m| m.as_str().to_string()).collect()
}

#[test]
fn hello_world_is_four_tokens() {
    assert_eq!(segment("Hello, World!"), owned(&["hello", ",", "world", "!"]));
}

#[test]
fn empty_sentence_has_no_tokens() {
    assert_eq!(segment(""), Vec::<String>::new());
}

#[test]
fn blank_sentence_has_no_tokens() {
    assert_eq!(segment(" \t\n  "), Vec::<String>::new());
}

#[test]
fn upper_case_is_folded() {
    assert_eq!(segment("HELLO"), owned(&["hello"]));
    assert_eq!(normalize("MiXeD Case"), "mixed case");
}

#[test]
fn characters_outside_ascii_are_dropped() {
    assert_eq!(keep_ascii("na\u{ef}ve caf\u{e9}"), "nave caf");
    assert_eq!(segment("na\u{ef}ve caf\u{e9}"), owned(&["nave", "caf"]));
    assert_eq!(segment("\u{4f60}\u{597d}"), Vec::<String>::new());
}

#[test]
fn folding_comes_before_the_ascii_filter() {
    // The Kelvin sign is outside ASCII, and its lower case is the letter k.
    assert_eq!(normalize("\u{212a}"), "k");
    assert_eq!(segment("2\u{212a}"), owned(&["2k"]));
}

#[test]
fn apostrophe_and_hyphen_belong_to_words() {
    assert_eq!(segment("don't re-do"), owned(&["don't", "re-do"]));
    assert_eq!(segment("--'"), owned(&["--'"]));
}

#[test]
fn each_punctuation_mark_is_a_token() {
    assert_eq!(segment("a.b,c!d?e;f"), owned(&["a", ".", "b", ",", "c", "!", "d", "?", "e", ";", "f"]));
    assert_eq!(segment("..."), owned(&[".", ".", "."]));
}

#[test]
fn other_characters_separate_tokens() {
    assert_eq!(segment("a_b"), owned(&["a", "b"]));
    assert_eq!(segment("a:b(c)d"), owned(&["a", "b", "c", "d"]));
    assert_eq!(segment("x@y.z"), owned(&["x", "y", ".", "z"]));
}

#[test]
fn digits_are_word_characters() {
    assert_eq!(segment("room 101, floor 3"), owned(&["room", "101", ",", "floor", "3"]));
}

#[test]
fn split_words_takes_text_as_it_is() {
    assert_eq!(split_words("Hello, World!"), owned(&["Hello", ",", "World", "!"]));
    assert_eq!(split_words("caf\u{e9}s"), owned(&["caf", "s"]));
}

#[test]
fn segment_lowercased_filters_and_splits() {
    assert_eq!(segment_lowercased("caf\u{e9}s, yes"), owned(&["cafs", ",", "yes"]));
}

#[test]
fn segmentation_agrees_with_the_pattern() {
    let samples = [
        "Hello, World!",
        "It's a well-known fact; isn't it?",
        "  leading and trailing  ",
        "tabs\tand\nnewlines\r\n",
        "numbers 12345 and 3.14, 1,000!",
        "symbols #$%^&*()+=[]{}|\\/<>~`\"",
        "a--b''c-'d",
        "!?;.,",
        "",
        "x",
        "MIXED case With Caps",
    ];
    for sample in samples {
        let text = normalize(sample);
        assert_eq!(segment(sample), by_pattern(r"[A-Za-z0-9'-]+|[.,!?;]", &text), "sample {:?}", sample);
        // Without an underscore in the text, the class of word characters of
        // regular expressions finds the same runs.
        assert_eq!(segment(sample), by_pattern(r"[\w'-]+|[.,!?;]", &text), "sample {:?}", sample);
    }
}

#[test]
fn a_text_is_cut_after_a_number_of_characters() {
    assert_eq!(first_chars("hello", 3), "hel");
    assert_eq!(first_chars("hello", 5), "hello");
    assert_eq!(first_chars("hello", 9), "hello");
    assert_eq!(first_chars("hello", 0), "");
    assert_eq!(first_chars("", 4), "");
    // Characters are counted, not bytes.
    assert_eq!(first_chars("\u{e9}\u{e9}\u{e9}", 2), "\u{e9}\u{e9}");
    let long = "ab".repeat(2000);
    assert_eq!(first_chars(&long, EMBEDDED_CHARS).len(), 2500);
    assert_eq!(chars_of("a\u{e9}b"), vec!['a', '\u{e9}', 'b']);
}

#[test]
fn folding_ascii_is_what_the_standard_library_does() {
    let mut c = 0u8;
    while c < 128 {
        let ch = c as char;
        assert_eq!(lower_ascii(ch).to_string(), ch.to_lowercase().to_string(), "U+{:04X}", c);
        assert_eq!(fold(&ch.to_string()), ch.to_string().to_lowercase(), "U+{:04X}", c);
        c += 1;
    }
    for sample in ["", "Hello, World!", "ALL CAPS 123", "mIxEd-CaSe'S", "@[`{Z}a]"] {
        assert_eq!(fold(sample), sample.to_lowercase(), "sample {:?}", sample);
    }
    assert_eq!(lower_ascii('\u{c9}'), '\u{c9}');
}

#[test]
fn folding_outside_ascii_is_unicode_s() {
    assert_eq!(fold("\u{c9}COLE"), "\u{e9}cole");
    assert_eq!(fold("\u{3a3}A"), "\u{3c3}a");
    assert_eq!(fold("A\u{3a3}"), "a\u{3c2}");
    assert_eq!(segment("\u{c9}a B"), owned(&["a", "b"]));
}
