use page_writer::policy::{submit_snippet, try_submit_snippet, update_snippet};
use page_writer::store::{Store, StoreError};
use page_writer::Config;

fn words(ws: &[&str]) -> Vec<String> {
    ws.iter().map(|w| w.to_string()).collect()
}

fn doc_names(s: &Store) -> Vec<String> {
    s.docs.iter().map(|d| d.name.clone()).collect()
}

#[test]
fn empty_snippet_is_a_no_op() {
    let mut s = Store::init();
    let cfg = Config::new();
    let r = submit_snippet(&mut s, "", None, &words(&[]), &cfg);
    assert_eq!(r, None);
    assert_eq!(s.docs.len(), 0);
    assert_eq!(s.snips.len(), 0);
    assert_eq!(s.terms.len(), 0);
}

#[test]
fn submit_adds_exactly_one_snippet_row() {
    let mut s = Store::init();
    let cfg = Config::new();
    let r = submit_snippet(&mut s, "some fresh text", Some("Notes"), &words(&[]), &cfg);
    assert_eq!(r, Some(1));
    assert_eq!(s.snips.len(), 1);
    assert_eq!(s.snips[0].doc, 1);
}

#[test]
fn first_line_names_a_new_document_and_becomes_latest() {
    let mut s = Store::init();
    let cfg = Config::new();
    let r = submit_snippet(&mut s, "Meeting notes\nDiscuss budget", None, &words(&[]), &cfg);
    assert_eq!(r, Some(1));
    assert_eq!(doc_names(&s), vec!["Meeting notes".to_string()]);
    assert_eq!(s.fetch_latest_document(), Some("Meeting notes".to_string()));
    let d = s.fetch_document("Meeting notes").unwrap();
    assert_eq!(d.snippets[0].snippet, "Meeting notes\nDiscuss budget");
}

#[test]
fn low_scores_start_a_new_document() {
    let mut s = Store::init();
    let cfg = Config::new();
    submit_snippet(&mut s, "Quarterly budget numbers", Some("Budget"), &words(&[]), &cfg);
    // nothing in common with "Budget": combined score is zero, below 0.4
    let r = submit_snippet(&mut s, "zebra xylophone quokka\nmore words", None, &words(&[]), &cfg);
    assert_eq!(r, Some(2));
    assert_eq!(
        doc_names(&s),
        vec!["Budget".to_string(), "zebra xylophone quokka".to_string()]
    );
    assert_eq!(s.fetch_document("Budget").unwrap().snippets.len(), 1);
    assert_eq!(s.fetch_latest_document(), Some("zebra xylophone quokka".to_string()));
}

#[test]
fn high_scores_append_to_the_best_candidate() {
    let mut s = Store::init();
    let cfg = Config::new();
    submit_snippet(&mut s, "alpha beta gamma delta", Some("Budget"), &words(&[]), &cfg);
    // the identical phrase set scores Jaccard one: 0.4 * 1 meets the threshold
    let r = submit_snippet(&mut s, "alpha beta gamma delta", None, &words(&[]), &cfg);
    assert_eq!(r, Some(1));
    assert_eq!(doc_names(&s), vec!["Budget".to_string()]);
    assert_eq!(s.fetch_latest_document(), Some("Budget".to_string()));
}

#[test]
fn marked_document_takes_untitled_submissions() {
    let mut s = Store::init();
    let cfg = Config::new();
    submit_snippet(&mut s, "Project thoughts", Some("Ideas"), &words(&[]), &cfg);
    s.set_marked_document("Ideas");
    let r = submit_snippet(&mut s, "anything at all here", None, &words(&[]), &cfg);
    assert_eq!(r, Some(1));
    assert_eq!(doc_names(&s), vec!["Ideas".to_string()]);
    assert_eq!(s.fetch_document("Ideas").unwrap().snippets.len(), 2);
    assert_eq!(s.fetch_latest_document(), Some("Ideas".to_string()));
}

#[test]
fn explicit_title_appends_to_the_existing_document() {
    let mut s = Store::init();
    let cfg = Config::new();
    submit_snippet(&mut s, "first text", Some("Notes"), &words(&[]), &cfg);
    let r = submit_snippet(&mut s, "second text", Some("Notes"), &words(&[]), &cfg);
    assert_eq!(r, Some(1));
    assert_eq!(s.docs.len(), 1);
    assert_eq!(s.fetch_document("Notes").unwrap().snippets.len(), 2);
}

#[test]
fn identical_text_twice_does_not_duplicate() {
    let mut s = Store::init();
    let cfg = Config::new();
    submit_snippet(&mut s, "the same words", Some("Notes"), &words(&[]), &cfg);
    submit_snippet(&mut s, "the same words", Some("Notes"), &words(&[]), &cfg);
    assert_eq!(s.snips.len(), 1);
}

#[test]
fn titles_are_trimmed_before_filing() {
    let mut s = Store::init();
    let cfg = Config::new();
    submit_snippet(&mut s, "text", Some("  Notes "), &words(&[]), &cfg);
    assert_eq!(doc_names(&s), vec!["Notes".to_string()]);
}

#[test]
fn editing_to_empty_deletes_and_cascades() {
    let mut s = Store::init();
    let cfg = Config::new();
    submit_snippet(&mut s, "only snippet", Some("Notes"), &words(&[]), &cfg);
    let sid = s.snips[0].id;
    assert!(update_snippet(&mut s, sid, "", &words(&[])).is_ok());
    assert_eq!(s.docs.len(), 0);
    assert_eq!(s.snips.len(), 0);
}

#[test]
fn editing_rewrites_text_and_rows() {
    let mut s = Store::init();
    let cfg = Config::new();
    submit_snippet(&mut s, "old words here", Some("Notes"), &words(&[]), &cfg);
    let sid = s.snips[0].id;
    assert!(update_snippet(&mut s, sid, "brand new content", &words(&[])).is_ok());
    assert_eq!(s.snips[0].text, "brand new content");
    assert_eq!(update_snippet(&mut s, 999, "x", &words(&[])), Err(StoreError::NotFound));
}

#[test]
fn guarded_submission_accepts_ordinary_input() {
    let mut s = Store::init();
    let cfg = Config::new();
    let r = try_submit_snippet(&mut s, "a perfectly ordinary note", Some("Notes"), &words(&[]), &cfg);
    assert_eq!(r, Some(Some(1)));
    assert_eq!(s.snips.len(), 1);
}
