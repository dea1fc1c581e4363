use spell_check::dictionary::{trim_text, Dictionary};

#[test]
fn dictionary_test_dictionary_lookup() {
    let mut dict = Dictionary::new();
    dict.add_word("Rust");
    dict.add_word("tokio");

    assert!(dict.contains("rust"));
    assert!(dict.contains("RUST"));
    assert!(dict.contains("tokio"));
    assert!(!dict.contains("missing"));
}

#[test]
fn dictionary_test_add_words() {
    let mut dict = Dictionary::new();
    dict.add_words(vec!["one", "two", "three"]);
    assert_eq!(dict.count(), 3);
    assert!(dict.contains("TWO"));
}

#[test]
fn mod_test_dictionary_lookup() {
    let mut dict = Dictionary::new();
    dict.add_word("Rust");
    dict.add_word("tokio");

    assert!(dict.contains("rust"));
    assert!(dict.contains("RUST"));
    assert!(dict.contains("tokio"));
    assert!(!dict.contains("missing"));
}

#[test]
fn mod_test_add_words() {
    let mut dict = Dictionary::new();
    dict.add_words(vec!["one", "two", "three"]);
    assert_eq!(dict.count(), 3);
    assert!(dict.contains("TWO"));
}

#[test]
fn membership_ignores_case_both_ways() {
    let mut dict = Dictionary::new();
    dict.add_word("Rust");
    assert!(dict.contains("rust"));
    assert!(dict.contains("RUST"));
    assert!(dict.contains("Rust"));
    assert!(!dict.contains("rusty"));
}

#[test]
fn same_word_in_other_case_is_counted_once() {
    let mut dict = Dictionary::new();
    dict.add_words(vec!["Word", "WORD", "word"]);
    assert_eq!(dict.count(), 1);
    dict.add_word("other");
    assert_eq!(dict.count(), 2);
}

#[test]
fn empty_dictionary_knows_nothing() {
    let dict = Dictionary::default();
    assert_eq!(dict.count(), 0);
    assert!(!dict.contains(""));
    assert!(!dict.contains("a"));
}

#[test]
fn non_ascii_words_are_lowered() {
    let mut dict = Dictionary::new();
    dict.add_word("ÉCOLE");
    assert!(dict.contains("école"));
    assert!(dict.contains("École"));
}

#[test]
fn word_list_lines_are_trimmed_and_blank_lines_skipped() {
    let mut dict = Dictionary::new();
    dict.add_word_list("  Alpha  \n\n\tbeta\r\n   \ngamma");
    assert_eq!(dict.count(), 3);
    assert!(dict.contains("alpha"));
    assert!(dict.contains("BETA"));
    assert!(dict.contains("Gamma"));
    assert!(!dict.contains("  alpha  "));
}

#[test]
fn trimming_agrees_with_unicode_white_space() {
    for s in ["  a b  ", "\u{3000}word\u{a0}", "\t\r\n", "", "x", "\u{2028}y\u{205f}z\u{85}", "\u{200b}k"] {
        assert_eq!(trim_text(s), s.trim());
    }
}

#[test]
fn lowered_forms_are_taken_as_they_are() {
    let mut dict = Dictionary::new();
    dict.add_lowered("rust");
    assert!(dict.contains_lowered("rust"));
    assert!(!dict.contains_lowered("Rust"));
    assert!(dict.contains("RUST"));
    dict.add_lowered("Mixed");
    assert!(dict.contains_lowered("Mixed"));
    assert!(!dict.contains("Mixed"));
    assert_eq!(dict.count(), 2);
}
