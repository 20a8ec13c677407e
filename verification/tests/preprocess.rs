use page_writer::preprocess::{
    corpus_rake_preprocess, corpus_tfidf_preprocess, first_line_str, rake_preprocess,
    tfidf_preprocess, trim_str,
};

fn words(ws: &[&str]) -> Vec<String> {
    ws.iter().map(|w| w.to_string()).collect()
}

#[test]
fn tfidf_tokens_lowercase_strip_filter_stem() {
    let toks = tfidf_preprocess("The Running dogs!", words(&["the"]));
    assert_eq!(toks, words(&["run", "dog"]));
}

#[test]
fn stemmer_changes_its_input() {
    // guards against the stemmer handing its argument back unchanged
    let toks = tfidf_preprocess("running", words(&[]));
    assert_eq!(toks, words(&["run"]));
}

#[test]
fn tfidf_empty_input_gives_no_tokens() {
    let toks = tfidf_preprocess("", words(&["the"]));
    assert!(toks.is_empty());
}

#[test]
fn rake_groups_phrases_at_stopword_boundaries() {
    let ph = rake_preprocess("red apples and green pears", words(&["and"]));
    assert_eq!(ph, words(&["red appl", "green pear"]));
}

#[test]
fn rake_drops_phrases_that_are_stopwords() {
    // "the" is kept out even when it stands alone between boundaries
    let ph = rake_preprocess("and the and sunset", words(&["and"]));
    assert_eq!(ph, words(&["the", "sunset"]));
    let ph2 = rake_preprocess("and the and sunset", words(&["and", "the"]));
    assert_eq!(ph2, words(&["sunset"]));
}

#[test]
fn punctuation_runs_vanish_inside_words() {
    let toks = tfidf_preprocess("don't stop!!! now...", words(&[]));
    assert_eq!(toks, words(&["dont", "stop", "now"]));
}

#[test]
fn corpus_preprocess_keeps_names_and_order() {
    let corpus = vec![
        ("A".to_string(), "running fast".to_string()),
        ("B".to_string(), "green pears".to_string()),
    ];
    let out = corpus_tfidf_preprocess(corpus.clone(), words(&[]));
    assert_eq!(out.len(), 2);
    assert_eq!(out[0].0, "A");
    assert_eq!(out[0].1, words(&["run", "fast"]));
    assert_eq!(out[1].0, "B");
    assert_eq!(out[1].1, words(&["green", "pear"]));

    let out2 = corpus_rake_preprocess(corpus, words(&[]));
    assert_eq!(out2[0].1, words(&["run fast"]));
    assert_eq!(out2[1].1, words(&["green pear"]));
}

#[test]
fn trim_and_first_line() {
    assert_eq!(trim_str("  Meeting notes \t"), "Meeting notes");
    assert_eq!(trim_str(" \t "), "");
    assert_eq!(first_line_str("Meeting notes\nDiscuss budget"), "Meeting notes");
    assert_eq!(first_line_str("single line"), "single line");
}
