use page_writer::store::{Store, StoreError};

fn words(ws: &[&str]) -> Vec<String> {
    ws.iter().map(|w| w.to_string()).collect()
}

#[test]
fn add_document_creates_then_appends() {
    let mut s = Store::init();
    let id = s.add_document("Notes", "first snippet", &words(&["first"]), &words(&["first snippet"]));
    assert_eq!(id, 1);
    assert_eq!(s.docs.len(), 1);
    assert_eq!(s.snips.len(), 1);
    let id2 = s.add_document("Notes", "second snippet", &words(&["second"]), &words(&[]));
    assert_eq!(id2, 1);
    assert_eq!(s.docs.len(), 1);
    assert_eq!(s.snips.len(), 2);
}

#[test]
fn duplicate_snippet_text_is_a_silent_no_op() {
    let mut s = Store::init();
    s.add_document("Notes", "same text", &words(&["same"]), &words(&[]));
    s.add_document("Notes", "same text", &words(&["same"]), &words(&[]));
    assert_eq!(s.snips.len(), 1);
    assert_eq!(s.terms.len(), 1);
}

#[test]
fn index_rows_are_deduplicated_per_snippet() {
    let mut s = Store::init();
    s.add_document("Notes", "red red red", &words(&["red", "red", "red"]), &words(&["red red red"]));
    assert_eq!(s.terms.len(), 1);
    assert_eq!(s.phrases.len(), 1);
}

#[test]
fn deleting_the_only_snippet_deletes_the_document() {
    let mut s = Store::init();
    s.add_document("Notes", "only one", &words(&["one"]), &words(&[]));
    let sid = s.snips[0].id;
    assert!(s.delete_snippet(sid).is_ok());
    assert_eq!(s.snips.len(), 0);
    assert_eq!(s.docs.len(), 0);
    assert_eq!(s.terms.len(), 0);
}

#[test]
fn deleting_one_of_several_snippets_keeps_the_document() {
    let mut s = Store::init();
    s.add_document("Notes", "first", &words(&["first"]), &words(&[]));
    s.add_document("Notes", "second", &words(&["second"]), &words(&[]));
    let sid = s.snips[0].id;
    assert!(s.delete_snippet(sid).is_ok());
    assert_eq!(s.docs.len(), 1);
    assert_eq!(s.snips.len(), 1);
    assert_eq!(s.snips[0].text, "second");
}

#[test]
fn deleting_a_missing_snippet_reports_not_found() {
    let mut s = Store::init();
    assert_eq!(s.delete_snippet(77), Err(StoreError::NotFound));
}

#[test]
fn delete_document_removes_everything_under_it() {
    let mut s = Store::init();
    s.add_document("A", "one", &words(&["one"]), &words(&["one"]));
    s.add_document("A", "two", &words(&["two"]), &words(&["two"]));
    s.add_document("B", "other", &words(&["other"]), &words(&["other"]));
    assert!(s.delete_document("A").is_ok());
    assert_eq!(s.docs.len(), 1);
    assert_eq!(s.docs[0].name, "B");
    assert_eq!(s.snips.len(), 1);
    assert_eq!(s.terms.len(), 1);
    assert_eq!(s.phrases.len(), 1);
    // an unknown name changes nothing
    assert!(s.delete_document("missing").is_ok());
    assert_eq!(s.docs.len(), 1);
}

#[test]
fn update_replaces_text_and_index_rows() {
    let mut s = Store::init();
    s.add_document("A", "old words", &words(&["old"]), &words(&["old words"]));
    let sid = s.snips[0].id;
    assert!(s.update_snippet(sid, "new words", &words(&["new"]), &words(&["new words"])).is_ok());
    assert_eq!(s.snips[0].text, "new words");
    assert_eq!(s.terms.len(), 1);
    assert_eq!(s.terms[0].key, "new");
    assert_eq!(s.phrases[0].key, "new words");
}

#[test]
fn update_missing_or_clashing_fails() {
    let mut s = Store::init();
    s.add_document("A", "one", &words(&[]), &words(&[]));
    s.add_document("A", "two", &words(&[]), &words(&[]));
    assert_eq!(s.update_snippet(99, "x", &words(&[]), &words(&[])), Err(StoreError::NotFound));
    let sid = s.snips[0].id;
    assert_eq!(s.update_snippet(sid, "two", &words(&[]), &words(&[])), Err(StoreError::Duplicate));
}

#[test]
fn move_reassigns_and_cascades_an_emptied_source() {
    let mut s = Store::init();
    s.add_document("A", "wandering", &words(&["wander"]), &words(&[]));
    s.add_document("B", "anchor", &words(&["anchor"]), &words(&[]));
    let sid = s.snips[0].id;
    assert!(s.move_snippet(sid, "B").is_ok());
    // A lost its only snippet and is gone; the rows were not recomputed
    assert_eq!(s.docs.len(), 1);
    assert_eq!(s.docs[0].name, "B");
    assert_eq!(s.snips.len(), 2);
    assert_eq!(s.terms.len(), 2);
    // moving to an unknown document is refused
    assert_eq!(s.move_snippet(sid, "missing"), Err(StoreError::NotFound));
}

#[test]
fn marked_and_latest_are_exclusive_flags() {
    let mut s = Store::init();
    s.add_document("A", "one", &words(&[]), &words(&[]));
    s.add_document("B", "two", &words(&[]), &words(&[]));
    s.set_marked_document("A");
    assert_eq!(s.fetch_marked_document(), Some("A".to_string()));
    s.set_marked_document("B");
    assert_eq!(s.fetch_marked_document(), Some("B".to_string()));
    s.set_marked_document("missing");
    assert_eq!(s.fetch_marked_document(), None);
    s.set_latest_document("A");
    assert_eq!(s.fetch_latest_document(), Some("A".to_string()));
}

#[test]
fn fetch_document_returns_ordered_snippets() {
    let mut s = Store::init();
    s.add_document("A", "one", &words(&[]), &words(&[]));
    s.add_document("A", "two", &words(&[]), &words(&[]));
    let d = s.fetch_document("A").unwrap();
    assert_eq!(d.document_id, 1);
    assert_eq!(d.document_name, "A");
    assert_eq!(d.snippets.len(), 2);
    assert_eq!(d.snippets[0].snippet, "one");
    assert_eq!(d.snippets[1].snippet, "two");
    assert!(s.fetch_document("missing").is_none());
}

#[test]
fn load_snippets_joins_the_document_name() {
    let mut s = Store::init();
    s.add_document("A", "one", &words(&[]), &words(&[]));
    let rows = s.load_snippets(1);
    assert_eq!(rows.len(), 1);
    assert_eq!(rows[0].document_name, "A");
    assert_eq!(rows[0].snippet, "one");
    assert!(s.load_snippets(9).is_empty());
}

#[test]
fn corpus_loaders_group_and_join() {
    let mut s = Store::init();
    s.add_document("A", "one", &words(&["one"]), &words(&["one"]));
    s.add_document("A", "two", &words(&["two"]), &words(&["two"]));
    let grouped = s.load_corpus_snippets();
    assert_eq!(grouped.len(), 1);
    assert_eq!(grouped[0].0, "A");
    assert_eq!(grouped[0].1, words(&["one", "two"]));
    let joined = s.load_corpus();
    assert_eq!(joined[0].1, "one\n\ntwo");
    let terms = s.load_corpus_terms();
    assert_eq!(terms[0].1, words(&["one", "two"]));
    let phrases = s.load_corpus_phrases();
    assert_eq!(phrases[0].1, words(&["one", "two"]));
}
