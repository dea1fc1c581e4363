use spell_check::config::{default_include, Config, DEFAULT_INCLUDE};

#[test]
fn test_default_config() {
    let config = Config::default();
    assert!(config
        .files
        .included
        .contains(&"**/*.{md,txt,rs,js,ts,py,c,cpp,h,hpp,go,java}".to_string()));
}

#[test]
fn default_settings_are_empty_but_for_one_pattern() {
    let config = Config::default();
    assert_eq!(config.files.included, default_include());
    assert_eq!(config.files.included, vec![DEFAULT_INCLUDE.to_string()]);
    assert!(config.files.exclude.is_empty());
    assert!(config.dictionary.extra_words.is_empty());
    assert!(config.dictionary.extra_dictionaries.is_empty());
    assert!(config.ignore.words.is_empty());
}
