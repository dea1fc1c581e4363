use spell_check::checker::{check_lines, contains_text, eq_ignore_case, ignored, SpellError};
use spell_check::config::Config;
use spell_check::dictionary::Dictionary;
use spell_check::engine::Engine;
use spell_check::scan::{outcome, Action, Event, Outcome, Scheduler, MAX_IN_FLIGHT};

fn dictionary_of(words: &[&str]) -> Dictionary {
    let mut d = Dictionary::new();
    d.add_words(words.to_vec());
    d
}

fn words(found: &[SpellError]) -> Vec<String> {
    found.iter().map(|f| f.word.clone()).collect()
}

fn engine(words: &[&str], ignore: &[&str]) -> Engine {
    let mut config = Config::default();
    config.ignore.words = ignore.iter().map(|s| s.to_string()).collect();
    match Engine::new(config, dictionary_of(words)) {
        Ok(e) => e,
        Err(e) => panic!("unexpected error {:?}", e),
    }
}

#[test]
fn unknown_words_are_reported_with_position_and_context() {
    let e = engine(&["let", "is"], &[]);
    let found = e.check_content("main.rs", "let y = \"referance\";\nit is an occurance\n");
    assert_eq!(words(&found), vec!["referance", "it", "an", "occurance"]);
    assert_eq!(found[0].file, "main.rs");
    assert_eq!(found[0].line, 1);
    assert_eq!(found[0].col, 10);
    assert_eq!(found[0].context, "let y = \"referance\";");
    assert_eq!(found[3].line, 2);
    assert_eq!(found[3].col, 10);
    assert_eq!(found[3].context, "it is an occurance");
}

#[test]
fn clean_text_gives_no_finding() {
    let e = engine(&["all", "words", "known"], &[]);
    let found = e.check_content("a.md", "All words KNOWN\r\nwords\n");
    assert!(found.is_empty());
}

#[test]
fn disable_region_silences_until_enable() {
    let e = engine(&["ok"], &[]);
    let text = "ok wrongone\n// spellcheck-disable\nwrongtwo\nwrongthree\n// spellcheck-enable\nwrongfour\n";
    let found = e.check_content("f.txt", text);
    assert_eq!(words(&found), vec!["wrongone", "wrongfour"]);
    assert_eq!(found[0].line, 1);
    assert_eq!(found[1].line, 6);
}

#[test]
fn disable_line_silences_only_its_line() {
    let e = engine(&["ok"], &[]);
    let text = "badone // spellcheck-disable-line\nbadtwo\n";
    let found = e.check_content("f.txt", text);
    assert_eq!(words(&found), vec!["badtwo"]);
    assert_eq!(found[0].line, 2);
}

#[test]
fn disable_without_enable_runs_to_the_end() {
    let e = engine(&[], &[]);
    let found = e.check_content("f.txt", "spellcheck-disable\nxxyy\nzzww");
    assert!(found.is_empty());
}

#[test]
fn ignored_words_match_without_ascii_case() {
    let e = engine(&[], &["Tokio", "SERDE"]);
    let found = e.check_content("f.rs", "tokio serde clap");
    assert_eq!(words(&found), vec!["clap"]);
    assert!(ignored("TOKIO", &vec!["tokio".to_string()]));
    assert!(!ignored("tokios", &vec!["tokio".to_string()]));
    assert!(eq_ignore_case("AbC", "aBc"));
    assert!(!eq_ignore_case("abc", "abd"));
}

#[test]
fn marker_search_finds_substrings() {
    assert!(contains_text("x spellcheck-disable-line y", "spellcheck-disable"));
    assert!(contains_text("abc", ""));
    assert!(!contains_text("ab", "abc"));
    assert!(!contains_text("spellcheck-enabl", "spellcheck-enable"));
}

#[test]
fn check_lines_works_on_given_lines() {
    let d = dictionary_of(&["good"]);
    let lines = vec!["good bad".to_string(), "spellcheck-disable".to_string(), "bad".to_string()];
    let found = check_lines("p", &lines, &d, &Vec::new());
    assert_eq!(words(&found), vec!["bad"]);
    assert_eq!((found[0].line, found[0].col), (1, 6));
}

#[test]
fn each_file_starts_with_checking_on() {
    let e = engine(&[], &[]);
    let first = e.check_content("a", "spellcheck-disable\nhidden");
    let second = e.check_content("b", "shown");
    assert!(first.is_empty());
    assert_eq!(words(&second), vec!["shown"]);
}

#[test]
fn scanning_twice_gives_the_same_findings() {
    let e = engine(&["the"], &[]);
    let text = "the referance\nthe occurance\n";
    let a = e.check_content("x", text);
    let b = e.check_content("x", text);
    let key = |v: &[SpellError]| -> Vec<(usize, usize, String)> {
        v.iter().map(|f| (f.line, f.col, f.word.clone())).collect()
    };
    assert_eq!(key(&a), key(&b));
    assert_eq!(a.len(), 2);
}

#[test]
fn scheduler_never_exceeds_its_limit() {
    let n: usize = 3;
    let mut s = Scheduler::new(n);
    let mut max_seen = 0;
    for round in 0..50 {
        let ev = if round % 4 == 3 { Event::TaskFinished } else { Event::FileReady };
        let _ = s.on_event(ev);
        assert!(s.in_flight() <= n);
        max_seen = max_seen.max(s.in_flight());
    }
    assert_eq!(max_seen, n);
}

#[test]
fn scheduler_asks_to_wait_at_the_cap() {
    let mut s = Scheduler::new(2);
    assert!(matches!(s.on_event(Event::FileReady), Action::Spawn));
    assert!(matches!(s.on_event(Event::FileReady), Action::Spawn));
    assert!(matches!(s.on_event(Event::FileReady), Action::WaitForOne));
    assert_eq!(s.in_flight(), 2);
    assert!(matches!(s.on_event(Event::TaskFinished), Action::Continue));
    assert_eq!(s.in_flight(), 1);
    assert!(matches!(s.on_event(Event::FileReady), Action::Spawn));
    assert_eq!(MAX_IN_FLIGHT, 20);
}

#[test]
fn outcome_follows_the_counts() {
    assert!(matches!(outcome(0, 0), Outcome::Clean));
    assert!(matches!(outcome(0, 2), Outcome::ProcessingErrors));
    assert!(matches!(outcome(3, 0), Outcome::Misspellings));
    assert!(matches!(outcome(1, 1), Outcome::Misspellings));
    assert_eq!(outcome(2, 0).exit_code(), 1);
    assert_eq!(outcome(0, 5).exit_code(), 0);
    assert_eq!(outcome(0, 0).exit_code(), 0);
}

#[test]
fn fixture_with_two_misspellings_fails_and_clean_one_passes() {
    let e = engine(&["let", "y", "this", "is", "an"], &[]);
    let found = e.check_content(
        "proj1/main.rs",
        "let y = \"referance\";\n// this is an occurance\n",
    );
    assert_eq!(words(&found), vec!["referance", "occurance"]);
    assert_eq!(outcome(found.len(), 0).exit_code(), 1);
    let clean = e.check_content("proj2/main.rs", "let y\n");
    assert!(clean.is_empty());
    assert_eq!(outcome(clean.len(), 0).exit_code(), 0);
}
