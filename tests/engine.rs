use spell_check::config::Config;
use spell_check::dictionary::Dictionary;
use spell_check::engine::Engine;
use spell_check::path_filter::{ConfigError, PathFilter};
use spell_check::tokenizer::{extract_words, split_lines, split_words};

fn words_of(line: &str) -> Vec<String> {
    extract_words(line).into_iter().map(|(_, w)| w).collect()
}

#[test]
fn engine_test_extract_words() {
    let content = "Hello, world! It's a test's line.";
    let word_list = words_of(content);
    assert_eq!(word_list, vec!["Hello", "world", "It's", "test's", "line"]);

    let code = "let y = \"referance\";";
    let word_list = words_of(code);
    assert!(word_list.contains(&"referance".to_string()));
}

#[test]
fn mod_test_extract_words() {
    let content = "Hello, world! It's a test's line.";
    let word_list = words_of(content);
    assert_eq!(word_list, vec!["Hello", "world", "It's", "test's", "line"]);

    let code = "let y = \"referance\";";
    let word_list = words_of(code);
    assert!(word_list.contains(&"referance".to_string()));
}

fn engine_with(included: &[&str], exclude: &[&str]) -> Engine {
    let mut config = Config::default();
    config.files.included = included.iter().map(|s| s.to_string()).collect();
    config.files.exclude = exclude.iter().map(|s| s.to_string()).collect();
    let dict = Dictionary::new();
    match Engine::try_new(config, dict) {
        Ok(e) => e,
        Err(e) => panic!("unexpected error {:?}", e),
    }
}

#[test]
fn engine_test_should_check() {
    let engine = engine_with(&["src/**/*.rs", "README.md"], &["**/temp.rs"]);
    assert!(engine.should_check("src/main.rs"));
    assert!(engine.should_check("./src/main.rs"));
    assert!(engine.should_check("README.md"));
    assert!(engine.should_check("./README.md"));
    assert!(!engine.should_check("docs/index.md"));
    assert!(!engine.should_check("src/temp.rs"));
}

#[test]
fn mod_test_should_check() {
    let mut config = Config::default();
    config.files.included = vec!["src/**/*.rs".to_string(), "README.md".to_string()];
    config.files.exclude = vec!["**/temp.rs".to_string()];
    let engine = match Engine::new(config, Dictionary::new()) {
        Ok(e) => e,
        Err(e) => panic!("unexpected error {:?}", e),
    };
    assert!(engine.should_check("src/main.rs"));
    assert!(engine.should_check("./src/main.rs"));
    assert!(engine.should_check("README.md"));
    assert!(engine.should_check("./README.md"));
    assert!(!engine.should_check("docs/index.md"));
    assert!(!engine.should_check("src/temp.rs"));
}

#[test]
fn filter_with_ext_patterns() {
    let engine = engine_with(&["src/**/*.ext", "README.md"], &["**/temp.ext"]);
    assert!(engine.should_check("src/main.ext"));
    assert!(engine.should_check("./src/main.ext"));
    assert!(!engine.should_check("docs/index.md"));
    assert!(!engine.should_check("src/temp.ext"));
}

#[test]
fn root_path_always_passes() {
    let engine = engine_with(&["src/**/*.rs"], &["**"]);
    assert!(engine.should_check(""));
    assert!(engine.should_check("."));
    assert!(!engine.should_check("src/main.rs"));
}

#[test]
fn backslashes_and_repeated_dot_slash_are_normalized() {
    let engine = engine_with(&["src/**/*.rs"], &[]);
    assert!(engine.should_check("src\\lib\\mod.rs"));
    assert!(engine.should_check("././src/main.rs"));
    assert!(!engine.should_check("lib/main.rs"));
}

#[test]
fn invalid_include_pattern_is_rejected() {
    let mut config = Config::default();
    config.files.included = vec!["ok/*.rs".to_string(), "bad[".to_string(), "worse{".to_string()];
    let r = Engine::try_new(config, Dictionary::new());
    match r {
        Err(ConfigError::InvalidInclude(p)) => assert_eq!(p, "bad["),
        _ => panic!("expected an invalid include pattern"),
    }
}

#[test]
fn invalid_exclude_pattern_is_rejected() {
    let r = PathFilter::try_new(&vec!["*.rs".to_string()], &vec!["x[".to_string()]);
    match r {
        Err(ConfigError::InvalidExclude(p)) => assert_eq!(p, "x["),
        _ => panic!("expected an invalid exclude pattern"),
    }
}

#[test]
fn new_rejects_invalid_patterns_too() {
    let mut config = Config::default();
    config.files.included = vec!["src/[abc".to_string(), "*.md".to_string()];
    match Engine::new(config, Dictionary::new()) {
        Err(ConfigError::InvalidInclude(p)) => assert_eq!(p, "src/[abc"),
        _ => panic!("expected an invalid include pattern"),
    }
    match PathFilter::new(&vec!["*.md".to_string()], &vec!["{a".to_string()]) {
        Err(ConfigError::InvalidExclude(p)) => assert_eq!(p, "{a"),
        _ => panic!("expected an invalid exclude pattern"),
    }
    assert!(PathFilter::new(&vec!["*.md".to_string()], &vec![]).is_ok());
}

#[test]
fn columns_are_one_based_byte_offsets() {
    let words = extract_words("ab cd");
    assert_eq!(words, vec![(1, "ab".to_string()), (4, "cd".to_string())]);
    // "é" takes two bytes, so "word" starts at byte 4 (1-based); a lone "é" is one
    // character and is not a word.
    let words = extract_words("é word");
    assert_eq!(words, vec![(4, "word".to_string())]);
    let words = extract_words("déjà vu");
    assert_eq!(words, vec![(1, "déjà".to_string()), (8, "vu".to_string())]);
}

#[test]
fn apostrophes_are_trimmed_and_column_follows_the_word() {
    let words = extract_words("say 'quoted' '' x");
    assert_eq!(words, vec![(1, "say".to_string()), (6, "quoted".to_string())]);
}

#[test]
fn single_characters_and_digits_are_not_words() {
    assert_eq!(words_of("a I x"), Vec::<String>::new());
    // A token that mixes letters and digits gives no word at all.
    assert_eq!(words_of("use utf8 here"), vec!["use", "here"]);
    assert_eq!(
        extract_words("encode utf8 text"),
        vec![(1, "encode".to_string()), (13, "text".to_string())]
    );
    assert_eq!(words_of("x86 2nd v2 'abc1' 42 ok"), vec!["ok"]);
    assert_eq!(words_of("é"), Vec::<String>::new());
    assert_eq!(words_of(""), Vec::<String>::new());
    // A letter that is also numeric rules out its word.
    assert_eq!(words_of("abⅫ cd"), vec!["cd"]);
}

#[test]
fn lines_split_at_line_feeds_and_lose_crlf() {
    assert_eq!(split_lines("a\r\nb\n"), vec!["a", "b"]);
    assert_eq!(split_lines("x\n\ny"), vec!["x", "", "y"]);
    assert_eq!(split_lines("a\rb"), vec!["a\rb"]);
    assert_eq!(split_lines("\n"), vec![""]);
    assert_eq!(split_lines(""), Vec::<String>::new());
    assert_eq!(split_lines("é\r\n\r\n"), vec!["é", ""]);
}

#[test]
fn split_words_follows_the_given_classes() {
    // Letters: a, b, c; the middle character is marked numeric.
    let classes = vec![(true, false), (false, true), (true, false), (true, false)];
    assert_eq!(split_words("a1bc", &classes), Vec::<(usize, String)>::new());
    let classes = vec![(true, false), (true, false), (false, false), (true, false), (true, false)];
    assert_eq!(
        split_words("ab-cd", &classes),
        vec![(1, "ab".to_string()), (4, "cd".to_string())]
    );
    // Nothing is a letter: no word.
    let classes = vec![(false, false); 3];
    assert_eq!(split_words("abc", &classes), Vec::<(usize, String)>::new());
}
