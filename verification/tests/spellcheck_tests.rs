use spellcheck::tokenizer::tokenize;
use spellcheck::Error;
use spellcheck::SpellChecker;

fn count(s: &SpellChecker, w: &str) -> u32 {
    s.word_count(&w.to_string())
}

#[test]
fn tokenize_is_deterministic() {
    let text = "The quick brown fox; it Jumps (over) the lazy-dog 123 don’t.";
    let a = tokenize(text);
    let b = tokenize(text);
    assert_eq!(a, b);
}

#[test]
fn tokenize_lowercases_and_normalizes_quotes() {
    let toks = tokenize("Don’t SHOUT");
    assert_eq!(toks, vec!["don't".to_string(), "shout".to_string()]);
}

#[test]
fn tokenize_empty_input_yields_no_tokens() {
    let toks = tokenize("");
    assert!(toks.is_empty());
}

#[test]
fn tokenize_splits_on_non_word_characters() {
    let toks = tokenize("ab1cd ef.gh");
    assert_eq!(
        toks,
        vec![
            "ab".to_string(),
            "cd".to_string(),
            "ef".to_string(),
            "gh".to_string()
        ]
    );
}

#[test]
fn train_counts_quick_fox() {
    let mut s = SpellChecker::new();
    s.train("The quick quick fox.");
    assert_eq!(count(&s, "the"), 1);
    assert_eq!(count(&s, "quick"), 2);
    assert_eq!(count(&s, "fox"), 1);
    assert_eq!(count(&s, "dog"), 0);
}

#[test]
fn train_twice_doubles_each_count() {
    let mut s = SpellChecker::new();
    s.train("alpha beta alpha");
    s.train("alpha beta alpha");
    assert_eq!(count(&s, "alpha"), 4);
    assert_eq!(count(&s, "beta"), 2);
}

#[test]
fn check_reports_unknown_word() {
    let mut s = SpellChecker::new();
    s.train("hello hello hello hello hello");
    assert_eq!(count(&s, "hello"), 5);
    let found = s.check("hello wrold").expect("one word should be unmatched");
    assert_eq!(found, vec!["wrold".to_string()]);
}

#[test]
fn check_skips_known_and_non_alphabetic_tokens() {
    let mut s = SpellChecker::new();
    s.train("hello");
    // "can't" holds an apostrophe, "123" is purely numeric, "hello" is
    // known: only "x" and "wrold" are left to report.
    let found = s.check("can't 123 x hello wrold").expect("unmatched words");
    assert_eq!(found, vec!["x".to_string(), "wrold".to_string()]);
}

#[test]
fn check_with_nothing_to_report_is_an_error() {
    let mut s = SpellChecker::new();
    s.train("hello world");
    let res = s.check("hello world 123 can't");
    assert!(matches!(res, Err(Error::NoRegexMatches)));
    assert_eq!(Error::NoRegexMatches.message(), "NoRegexMatches");
}

#[test]
fn increase_training_count_steps_epoch() {
    let mut s = SpellChecker::new();
    assert_eq!(s.training_count(), 0);
    s.increase_training_count();
    assert_eq!(s.training_count(), 1);
    s.increase_training_count();
    assert_eq!(s.training_count(), 2);
}

#[test]
fn empty_contents_load_as_empty_store() {
    let s = SpellChecker::from_stored("").expect("empty storage is not an error");
    assert_eq!(s.entries().len(), 0);
    assert_eq!(s.training_count(), 0);
}

#[test]
fn placeholder_row_loads_as_empty_store() {
    let s = SpellChecker::from_stored("word,instances,training_count\n,0,0\n")
        .expect("a placeholder row is not an error");
    assert_eq!(s.entries().len(), 0);
    assert_eq!(s.training_count(), 0);
}

#[test]
fn store_round_trip_keeps_counts_and_epoch() {
    let mut s = SpellChecker::new();
    s.train("the quick quick fox");
    s.increase_training_count();
    s.increase_training_count();
    s.increase_training_count();
    let stored = s.to_stored();
    let t = SpellChecker::from_stored(&stored).expect("own output must load");
    assert_eq!(t.training_count(), 3);
    assert_eq!(count(&t, "the"), 1);
    assert_eq!(count(&t, "quick"), 2);
    assert_eq!(count(&t, "fox"), 1);
    assert_eq!(t.entries().len(), s.entries().len());
}

#[test]
fn stored_form_is_exact() {
    let mut s = SpellChecker::new();
    s.train("aa aa bb");
    s.increase_training_count();
    assert_eq!(
        s.to_stored(),
        "word,instances,training_count\naa,2,1\nbb,1,1\n"
    );
}

#[test]
fn load_reads_counts_and_last_epoch() {
    let s = SpellChecker::from_stored("word,instances,training_count\nhello,5,7\nworld,2,7\n")
        .expect("well-formed storage");
    assert_eq!(count(&s, "hello"), 5);
    assert_eq!(count(&s, "world"), 2);
    assert_eq!(s.training_count(), 7);
}

#[test]
fn later_row_overrides_earlier_row() {
    let s = SpellChecker::from_stored("word,instances,training_count\nab,1,0\nab,3,0\n")
        .expect("well-formed storage");
    assert_eq!(count(&s, "ab"), 3);
    assert_eq!(s.entries().len(), 1);
}

#[test]
fn malformed_count_is_rejected() {
    let res = SpellChecker::from_stored("word,instances,training_count\nabc,xy,0\n");
    assert!(matches!(res, Err(Error::MalformedRecord)));
    assert_eq!(Error::MalformedRecord.message(), "MalformedRecord");
}

#[test]
fn missing_field_is_rejected() {
    let res = SpellChecker::from_stored("word,instances,training_count\nabc,1\n");
    assert!(matches!(res, Err(Error::MalformedRecord)));
}

#[test]
fn wrong_header_is_rejected() {
    let res = SpellChecker::from_stored("wort,zahl,epoche\nabc,1,0\n");
    assert!(matches!(res, Err(Error::MalformedRecord)));
}

#[test]
fn missing_final_newline_is_rejected() {
    let res = SpellChecker::from_stored("word,instances,training_count\nabc,1,0");
    assert!(matches!(res, Err(Error::MalformedRecord)));
}

#[test]
fn uppercase_stored_word_is_rejected() {
    let res = SpellChecker::from_stored("word,instances,training_count\nAbc,1,0\n");
    assert!(matches!(res, Err(Error::MalformedRecord)));
}

#[test]
fn count_too_large_for_u32_is_rejected() {
    let ok = SpellChecker::from_stored("word,instances,training_count\nabc,4294967295,0\n")
        .expect("largest count fits");
    assert_eq!(count(&ok, "abc"), u32::MAX);
    let res = SpellChecker::from_stored("word,instances,training_count\nabc,4294967296,0\n");
    assert!(matches!(res, Err(Error::MalformedRecord)));
}

#[test]
fn leading_zeros_are_read_as_the_same_number() {
    let s = SpellChecker::from_stored("word,instances,training_count\nabc,007,0\n")
        .expect("leading zeros are digits");
    assert_eq!(count(&s, "abc"), 7);
}

#[test]
fn entries_with_threshold_keeps_rare_words() {
    let mut s = SpellChecker::new();
    s.train("aa aa aa bb bb cc");
    let rare = s.entries_with_threshold(2);
    let words: Vec<String> = rare.iter().map(|p| p.0.clone()).collect();
    assert_eq!(words, vec!["bb".to_string(), "cc".to_string()]);
    let all = s.entries_with_threshold(u32::MAX);
    assert_eq!(all.len(), 3);
}

#[test]
fn collect_unmatched_concatenates_reports() {
    let mut s = SpellChecker::new();
    s.train("hello world");
    let lines = vec![
        "hello wrold".to_string(),
        "world".to_string(),
        "wolrd again".to_string(),
    ];
    let found = s.collect_unmatched(&lines);
    assert_eq!(
        found,
        vec![
            "wrold".to_string(),
            "wolrd".to_string(),
            "again".to_string()
        ]
    );
}

#[test]
fn training_does_not_change_epoch() {
    let mut s = SpellChecker::new();
    s.train("one two three");
    assert_eq!(s.training_count(), 0);
}

#[test]
fn tokenizer_class_admits_some_punctuation() {
    // The word class is permissive on purpose: a right parenthesis,
    // a hyphen and an apostrophe count as word constituents.
    let toks = tokenize("(over) lazy-dog can't");
    assert_eq!(
        toks,
        vec![
            "over)".to_string(),
            "lazy-dog".to_string(),
            "can't".to_string()
        ]
    );
}

#[test]
fn training_admits_tokens_that_checking_would_skip() {
    let mut s = SpellChecker::new();
    s.train("lazy-dog lazy-dog");
    assert_eq!(count(&s, "lazy-dog"), 2);
    // The same token is never reported by check, known or not.
    let res = s.check("lazy-dog");
    assert!(matches!(res, Err(Error::NoRegexMatches)));
}
