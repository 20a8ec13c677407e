//! The index store: documents, snippets and the two inverted indexes.
//!
//! Four relations mirror the persistent layout: `Document(id, name, marked,
//! latest)`, `Snippet(id, text, document)`, `TermIndex(term, snippet)` and
//! `PhraseIndex(phrase, snippet)`. The store keeps the layer's invariants:
//! unique document names and ids, every snippet under a live document, no
//! document without a snippet, at most one marked and one latest document,
//! index rows only for live snippets, and no duplicate rows.

use crate::preprocess::views;
use crate::rake::dedup;
use vstd::prelude::*;

verus! {

/// One document row.
pub struct DocRow {
    /// The stable document identity.
    pub id: i32,
    /// The unique display name.
    pub name: String,
    /// The manual pin: untitled submissions are forced here.
    pub marked: bool,
    /// The recency flag: the document most recently written to.
    pub latest: bool,
}

/// One snippet row.
pub struct SnipRow {
    /// The stable snippet identity.
    pub id: i32,
    /// The raw snippet text.
    pub text: String,
    /// The owning document's id.
    pub doc: i32,
}

/// One inverted-index row: a term or phrase, and the snippet holding it.
pub struct IndexRow {
    /// The stemmed term, or the phrase.
    pub key: String,
    /// The snippet the key was extracted from.
    pub snip: i32,
}

/// A document with its snippet texts and ids, as a lookup result.
pub struct DocumentSnippets {
    /// The document's identity.
    pub document_id: i32,
    /// The document's name.
    pub document_name: String,
    /// The document's snippets, in storage order.
    pub snippets: Vec<SnippetEntry>,
}

/// One snippet of a [`DocumentSnippets`].
pub struct SnippetEntry {
    /// The snippet's identity.
    pub snippet_id: i32,
    /// The snippet's text.
    pub snippet: String,
}

/// A document name with its snippet texts.
pub struct PageDocument {
    /// The document's name.
    pub document_name: String,
    /// The document's snippet texts, in storage order.
    pub snippets: Vec<String>,
}

/// A joined snippet row: the snippet with its owning document's name.
pub struct Snippet {
    /// The snippet's identity.
    pub snippet_id: i32,
    /// The snippet's text.
    pub snippet: String,
    /// The owning document's id.
    pub document_id: i32,
    /// The owning document's name.
    pub document_name: String,
}

/// What a store operation can fail with.
#[derive(PartialEq, Eq, Structural, Clone, Copy, Debug)]
pub enum StoreError {
    /// The referenced document or snippet does not exist.
    NotFound,
    /// The change would duplicate a snippet text within one document.
    Duplicate,
}

/// Some document row carries this id.
pub open spec fn has_doc_id(docs: Seq<DocRow>, id: i32) -> bool {
    exists|i: int| 0 <= i < docs.len() && (#[trigger] docs[i]).id == id
}

/// Some document row carries this name.
pub open spec fn has_doc_name(docs: Seq<DocRow>, name: Seq<char>) -> bool {
    exists|i: int| 0 <= i < docs.len() && (#[trigger] docs[i]).name@ == name
}

/// The first index whose document row carries this name, or minus one.
pub open spec fn doc_index_by_name(docs: Seq<DocRow>, name: Seq<char>) -> int
    decreases docs.len(),
{
    if docs.len() == 0 {
        -1
    } else if docs[0].name@ == name {
        0
    } else {
        let r = doc_index_by_name(docs.drop_first(), name);
        if r == -1 {
            -1
        } else {
            r + 1
        }
    }
}

/// Some snippet row carries this id.
pub open spec fn has_snip_id(snips: Seq<SnipRow>, id: i32) -> bool {
    exists|i: int| 0 <= i < snips.len() && (#[trigger] snips[i]).id == id
}

/// The first index whose snippet row carries this id, or minus one.
pub open spec fn snip_index_by_id(snips: Seq<SnipRow>, id: i32) -> int
    decreases snips.len(),
{
    if snips.len() == 0 {
        -1
    } else if snips[0].id == id {
        0
    } else {
        let r = snip_index_by_id(snips.drop_first(), id);
        if r == -1 {
            -1
        } else {
            r + 1
        }
    }
}

/// Some snippet row under this document carries this text.
pub open spec fn has_snip_text(snips: Seq<SnipRow>, doc: i32, text: Seq<char>) -> bool {
    exists|i: int| 0 <= i < snips.len() && (#[trigger] snips[i]).doc == doc && snips[i].text@ == text
}

/// The snippet rows of one document, in storage order.
pub open spec fn snips_of_doc(snips: Seq<SnipRow>, doc: i32) -> Seq<SnipRow>
    decreases snips.len(),
{
    if snips.len() == 0 {
        Seq::empty()
    } else {
        let rest = snips_of_doc(snips.drop_last(), doc);
        if snips.last().doc == doc {
            rest.push(snips.last())
        } else {
            rest
        }
    }
}

/// The index keys extracted from one document's snippets, in row order.
pub open spec fn keys_of_doc(rows: Seq<IndexRow>, snips: Seq<SnipRow>, doc: i32) -> Seq<Seq<char>>
    decreases rows.len(),
{
    if rows.len() == 0 {
        Seq::empty()
    } else {
        let rest = keys_of_doc(rows.drop_last(), snips, doc);
        if snip_in_doc(snips, rows.last().snip, doc) {
            rest.push(rows.last().key@)
        } else {
            rest
        }
    }
}

/// The id belongs to a snippet of this document.
pub open spec fn snip_in_doc(snips: Seq<SnipRow>, snip_id: i32, doc: i32) -> bool {
    exists|i: int|
        0 <= i < snips.len() && (#[trigger] snips[i]).id == snip_id && snips[i].doc == doc
}

/// The document rows are well formed: distinct ids, distinct names, ids
/// below the counter.
pub open spec fn docs_ok(docs: Seq<DocRow>, next_doc_id: i32) -> bool {
    &&& forall|i: int, j: int|
        0 <= i < j < docs.len() ==> (#[trigger] docs[i]).id != (#[trigger] docs[j]).id
            && docs[i].name@ != docs[j].name@
    &&& forall|i: int| 0 <= i < docs.len() ==> 0 < (#[trigger] docs[i]).id < next_doc_id
}

/// The snippet rows are well formed: distinct ids, ids below the counter,
/// each under a live document, and no text twice under one document.
pub open spec fn snips_ok(docs: Seq<DocRow>, snips: Seq<SnipRow>, next_snip_id: i32) -> bool {
    &&& forall|i: int, j: int|
        0 <= i < j < snips.len() ==> (#[trigger] snips[i]).id != (#[trigger] snips[j]).id
    &&& forall|i: int| 0 <= i < snips.len() ==> 0 < (#[trigger] snips[i]).id < next_snip_id
    &&& forall|i: int| 0 <= i < snips.len() ==> has_doc_id(docs, (#[trigger] snips[i]).doc)
    &&& forall|i: int, j: int|
        0 <= i < j < snips.len() ==> !((#[trigger] snips[i]).doc == (#[trigger] snips[j]).doc
            && snips[i].text@ == snips[j].text@)
}

/// The index rows are well formed: each for a live snippet, and no
/// key/snippet pair twice.
pub open spec fn rows_ok(rows: Seq<IndexRow>, snips: Seq<SnipRow>) -> bool {
    &&& forall|i: int| 0 <= i < rows.len() ==> has_snip_id(snips, (#[trigger] rows[i]).snip)
    &&& forall|i: int, j: int|
        0 <= i < j < rows.len() ==> !((#[trigger] rows[i]).snip == (#[trigger] rows[j]).snip
            && rows[i].key@ == rows[j].key@)
}

/// At most one document is marked; at most one is latest.
pub open spec fn flags_ok(docs: Seq<DocRow>) -> bool {
    &&& forall|i: int, j: int|
        0 <= i < j < docs.len() ==> !((#[trigger] docs[i]).marked && (#[trigger] docs[j]).marked)
    &&& forall|i: int, j: int|
        0 <= i < j < docs.len() ==> !((#[trigger] docs[i]).latest && (#[trigger] docs[j]).latest)
}

/// Some snippet row belongs to this document.
pub open spec fn doc_has_snip(snips: Seq<SnipRow>, id: i32) -> bool {
    exists|j: int| 0 <= j < snips.len() && (#[trigger] snips[j]).doc == id
}

/// Every document owns at least one snippet.
pub open spec fn docs_nonempty(docs: Seq<DocRow>, snips: Seq<SnipRow>) -> bool {
    forall|i: int| 0 <= i < docs.len() ==> doc_has_snip(snips, (#[trigger] docs[i]).id)
}

/// The whole store: the four relations and the two id counters.
pub struct Store {
    /// The document rows.
    pub docs: Vec<DocRow>,
    /// The snippet rows.
    pub snips: Vec<SnipRow>,
    /// The term index rows.
    pub terms: Vec<IndexRow>,
    /// The phrase index rows.
    pub phrases: Vec<IndexRow>,
    /// The next free document id.
    pub next_doc_id: i32,
    /// The next free snippet id.
    pub next_snip_id: i32,
}

impl Store {
    /// The store's invariants, as the persistent layer guarantees them.
    pub open spec fn wf(self) -> bool {
        &&& docs_ok(self.docs@, self.next_doc_id)
        &&& snips_ok(self.docs@, self.snips@, self.next_snip_id)
        &&& rows_ok(self.terms@, self.snips@)
        &&& rows_ok(self.phrases@, self.snips@)
        &&& flags_ok(self.docs@)
        &&& docs_nonempty(self.docs@, self.snips@)
        &&& 0 < self.next_doc_id
        &&& 0 < self.next_snip_id
    }

    /// An empty store, as first initialization leaves the persistent
    /// layer.
    pub fn init() -> (s: Store)
        ensures
            s.wf(),
            s.docs@.len() == 0,
            s.snips@.len() == 0,
            s.terms@.len() == 0,
            s.phrases@.len() == 0,
            s.next_doc_id == 1,
            s.next_snip_id == 1,
    {
        Store {
            docs: Vec::new(),
            snips: Vec::new(),
            terms: Vec::new(),
            phrases: Vec::new(),
            next_doc_id: 1,
            next_snip_id: 1,
        }
    }

    /// The position of the document with this name.
    fn find_doc_by_name(&self, name: &str) -> (r: Option<usize>)
        ensures
            r is Some <==> has_doc_name(self.docs@, name@),
            r is Some ==> r->0 < self.docs@.len() && self.docs@[r->0 as int].name@ == name@
                && r->0 as int == doc_index_by_name(self.docs@, name@),
    {
        let mut i: usize = 0;
        while i < self.docs.len()
            invariant
                i <= self.docs@.len(),
                forall|j: int| 0 <= j < i ==> (#[trigger] self.docs@[j]).name@ != name@,
            decreases self.docs@.len() - i,
        {
            if self.docs[i].name.as_str().eq(name) {
                proof {
                    lemma_doc_index_at(self.docs@, i as int, name@);
                }
                return Some(i);
            }
            i = i + 1;
        }
        None
    }

    /// The position of the document with this id.
    fn find_doc_by_id(&self, id: i32) -> (r: Option<usize>)
        ensures
            r is Some <==> has_doc_id(self.docs@, id),
            r is Some ==> r->0 < self.docs@.len() && self.docs@[r->0 as int].id == id && r->0
                as int == doc_index_by_id(self.docs@, id),
    {
        let mut i: usize = 0;
        while i < self.docs.len()
            invariant
                i <= self.docs@.len(),
                forall|j: int| 0 <= j < i ==> (#[trigger] self.docs@[j]).id != id,
            decreases self.docs@.len() - i,
        {
            if self.docs[i].id == id {
                proof {
                    lemma_doc_id_index_at(self.docs@, i as int, id);
                }
                return Some(i);
            }
            i = i + 1;
        }
        None
    }

    /// The position of the snippet with this id.
    fn find_snip_by_id(&self, id: i32) -> (r: Option<usize>)
        ensures
            r is Some <==> has_snip_id(self.snips@, id),
            r is Some ==> r->0 < self.snips@.len() && self.snips@[r->0 as int].id == id && r->0
                as int == snip_index_by_id(self.snips@, id),
    {
        let mut i: usize = 0;
        while i < self.snips.len()
            invariant
                i <= self.snips@.len(),
                forall|j: int| 0 <= j < i ==> (#[trigger] self.snips@[j]).id != id,
            decreases self.snips@.len() - i,
        {
            if self.snips[i].id == id {
                proof {
                    lemma_snip_index_at(self.snips@, i as int, id);
                }
                return Some(i);
            }
            i = i + 1;
        }
        None
    }
}

/// The first matching index is the index of any match whose predecessors
/// all differ.
proof fn lemma_doc_index_at(docs: Seq<DocRow>, i: int, name: Seq<char>)
    requires
        0 <= i < docs.len(),
        docs[i].name@ == name,
        forall|j: int| 0 <= j < i ==> (#[trigger] docs[j]).name@ != name,
    ensures
        doc_index_by_name(docs, name) == i,
    decreases i,
{
    if i > 0 {
        lemma_doc_index_at(docs.drop_first(), i - 1, name);
    }
}

proof fn lemma_snip_index_at(snips: Seq<SnipRow>, i: int, id: i32)
    requires
        0 <= i < snips.len(),
        snips[i].id == id,
        forall|j: int| 0 <= j < i ==> (#[trigger] snips[j]).id != id,
    ensures
        snip_index_by_id(snips, id) == i,
    decreases i,
{
    if i > 0 {
        lemma_snip_index_at(snips.drop_first(), i - 1, id);
    }
}

} // verus!

verus! {

/// `new_rows` is `old_rows` with one appended row per key, all for the
/// snippet `snip_id`, in key order.
pub open spec fn appended_rows(
    old_rows: Seq<IndexRow>,
    new_rows: Seq<IndexRow>,
    keys: Seq<Seq<char>>,
    snip_id: i32,
) -> bool {
    &&& new_rows.len() == old_rows.len() + keys.len()
    &&& new_rows.subrange(0, old_rows.len() as int) == old_rows
    &&& forall|j: int|
        0 <= j < keys.len() ==> (#[trigger] new_rows[old_rows.len() + j]).key@ == keys[j]
            && new_rows[old_rows.len() + j].snip == snip_id
}

impl Store {
    /// The invariants that do not concern empty documents: the adding
    /// operations restore the rest themselves.
    pub open spec fn wf_core(self) -> bool {
        &&& docs_ok(self.docs@, self.next_doc_id)
        &&& snips_ok(self.docs@, self.snips@, self.next_snip_id)
        &&& rows_ok(self.terms@, self.snips@)
        &&& rows_ok(self.phrases@, self.snips@)
        &&& flags_ok(self.docs@)
        &&& 0 < self.next_doc_id
        &&& 0 < self.next_snip_id
    }

    /// Insert one table's index rows for a fresh snippet: one row per
    /// distinct key.
    fn insert_rows_into(rows: &mut Vec<IndexRow>, keys: &Vec<String>, snip_id: i32)
        ensures
            appended_rows(old(rows)@, final (rows)@, dedup(views(keys@)), snip_id),
    {
        let uniq = crate::rake::distinct_words(keys);
        let ghost uks = dedup(views(keys@));
        let ghost base = rows@.len();
        let mut i: usize = 0;
        while i < uniq.len()
            invariant
                i <= uniq@.len(),
                views(uniq@) == uks,
                rows@.len() == base + i,
                rows@.subrange(0, base as int) == old(rows)@,
                base == old(rows)@.len(),
                forall|j: int|
                    0 <= j < i ==> (#[trigger] rows@[base + j]).key@ == uks[j] && rows@[base
                        + j].snip == snip_id,
            decreases uniq@.len() - i,
        {
            let key = uniq[i].clone();
            let ghost old_rows = rows@;
            rows.push(IndexRow { key, snip: snip_id });
            proof {
                assert(rows@.subrange(0, base as int) =~= old_rows.subrange(0, base as int));
            }
            i = i + 1;
        }
    }

    /// Insert a snippet row under a resolved document, unless the same
    /// text already stands under it.
    fn insert_snip_row(&mut self, text: &str, doc_id: i32) -> (r: Option<i32>)
        requires
            old(self).wf_core(),
            has_doc_id(old(self).docs@, doc_id),
            old(self).next_snip_id < i32::MAX,
        ensures
            final (self).wf_core(),
            final (self).docs@ == old(self).docs@,
            final (self).terms@ == old(self).terms@,
            final (self).phrases@ == old(self).phrases@,
            final (self).next_doc_id == old(self).next_doc_id,
            r is Some <==> !has_snip_text(old(self).snips@, doc_id, text@),
            r is None ==> final (self).snips@ == old(self).snips@ && final (self).next_snip_id
                == old(self).next_snip_id,
            r is Some ==> r->0 == old(self).next_snip_id && final (self).snips@ == old(
                self,
            ).snips@.push(final (self).snips@.last()) && final (self).snips@.last().id == old(
                self,
            ).next_snip_id && final (self).snips@.last().text@ == text@ && final (
            self).snips@.last().doc == doc_id && final (self).next_snip_id == old(self).next_snip_id
                + 1,
    {
        let mut i: usize = 0;
        while i < self.snips.len()
            invariant
                *self == *old(self),
                old(self).wf_core(),
                has_doc_id(old(self).docs@, doc_id),
                old(self).next_snip_id < i32::MAX,
                i <= self.snips@.len(),
                forall|j: int|
                    0 <= j < i ==> !((#[trigger] self.snips@[j]).doc == doc_id
                        && self.snips@[j].text@ == text@),
            decreases self.snips@.len() - i,
        {
            if self.snips[i].doc == doc_id && self.snips[i].text.as_str().eq(text) {
                return None;
            }
            i = i + 1;
        }
        let id = self.next_snip_id;
        let row = SnipRow { id, text: text.to_owned(), doc: doc_id };
        let ghost old_snips = self.snips@;
        self.snips.push(row);
        self.next_snip_id = self.next_snip_id + 1;
        proof {
            assert(forall|j: int|
                0 <= j < old_snips.len() ==> (#[trigger] self.snips@[j]) == old_snips[j]);
            assert(self.snips@.last().id == id);
            assert(snips_ok(self.docs@, self.snips@, self.next_snip_id)) by {
                assert(forall|j: int|
                    0 <= j < old_snips.len() ==> (#[trigger] old_snips[j]).id < id);
            }
            assert(rows_ok(self.terms@, self.snips@)) by {
                assert forall|j: int| 0 <= j < self.terms@.len() implies has_snip_id(
                    self.snips@,
                    (#[trigger] self.terms@[j]).snip,
                ) by {
                    let w = choose|w: int|
                        0 <= w < old_snips.len() && (#[trigger] old_snips[w]).id
                            == self.terms@[j].snip;
                    assert(self.snips@[w].id == self.terms@[j].snip);
                }
            }
            assert(rows_ok(self.phrases@, self.snips@)) by {
                assert forall|j: int| 0 <= j < self.phrases@.len() implies has_snip_id(
                    self.snips@,
                    (#[trigger] self.phrases@[j]).snip,
                ) by {
                    let w = choose|w: int|
                        0 <= w < old_snips.len() && (#[trigger] old_snips[w]).id
                            == self.phrases@[j].snip;
                    assert(self.snips@[w].id == self.phrases@[j].snip);
                }
            }
        }
        Some(id)
    }

    /// Append one snippet under the named document; a duplicate text is a
    /// silent no-op. The inserted snippet's id comes back for indexing.
    pub fn add_snippet(&mut self, snippet: &str, document_name: &str) -> (r: Result<
        Option<i32>,
        StoreError,
    >)
        requires
            old(self).wf(),
            old(self).next_snip_id < i32::MAX,
        ensures
            final (self).wf(),
            final (self).docs@ == old(self).docs@,
            final (self).terms@ == old(self).terms@,
            final (self).phrases@ == old(self).phrases@,
            final (self).next_doc_id == old(self).next_doc_id,
            r is Err <==> !has_doc_name(old(self).docs@, document_name@),
            r is Err ==> *final (self) == *old(self) && r->Err_0 == StoreError::NotFound,
            r is Ok ==> {
                let did = old(self).docs@[doc_index_by_name(old(self).docs@, document_name@)].id;
                &&& (r->Ok_0 is Some <==> !has_snip_text(old(self).snips@, did, snippet@))
                &&& (r->Ok_0 is None ==> final (self).snips@ == old(self).snips@ && final (
                self).next_snip_id == old(self).next_snip_id)
                &&& (r->Ok_0 is Some ==> r->Ok_0->0 == old(self).next_snip_id && final (self).snips@
                    == old(self).snips@.push(final (self).snips@.last()) && final (
                self).snips@.last().id == old(self).next_snip_id && final (self).snips@.last().text@
                    == snippet@ && final (self).snips@.last().doc == did && final (
                self).next_snip_id == old(self).next_snip_id + 1)
            },
    {
        let idx = match self.find_doc_by_name(document_name) {
            Some(idx) => idx,
            None => {
                return Err(StoreError::NotFound);
            },
        };
        let doc_id = self.docs[idx].id;
        proof {
            assert(has_doc_id(self.docs@, doc_id));
        }
        let r = self.insert_snip_row(snippet, doc_id);
        proof {
            assert(docs_nonempty(self.docs@, self.snips@)) by {
                assert forall|i: int| 0 <= i < self.docs@.len() implies doc_has_snip(
                    self.snips@,
                    (#[trigger] self.docs@[i]).id,
                ) by {
                    let j = choose|j: int|
                        0 <= j < old(self).snips@.len() && (#[trigger] old(self).snips@[j]).doc
                            == self.docs@[i].id;
                    assert(self.snips@[j].doc == self.docs@[i].id);
                }
            }
        }
        Ok(r)
    }

    /// File a snippet under a name: append to the existing document or
    /// create it, index the snippet's terms and phrases, and hand back
    /// the document's id.
    pub fn add_document(&mut self, document_name: &str, snippet: &str, terms: &Vec<String>,
        phrases: &Vec<String>) -> (r: i32)
        requires
            old(self).wf(),
            old(self).next_snip_id < i32::MAX,
            old(self).next_doc_id < i32::MAX,
        ensures
            final (self).wf(),
            ({
                let existed = has_doc_name(old(self).docs@, document_name@);
                let did = if existed {
                    old(self).docs@[doc_index_by_name(old(self).docs@, document_name@)].id as int
                } else {
                    old(self).next_doc_id as int
                };
                let inserted = !has_snip_text(old(self).snips@, did as i32, snippet@);
                &&& r as int == did
                &&& has_doc_id(final (self).docs@, r)
                &&& (existed ==> final (self).docs@ == old(self).docs@ && final (self).next_doc_id
                    == old(self).next_doc_id)
                &&& (!existed ==> final (self).docs@ == old(self).docs@.push(
                    final (self).docs@.last(),
                ) && final (self).docs@.last().id == old(self).next_doc_id && final (
                self).docs@.last().name@ == document_name@ && !final (self).docs@.last().marked
                    && !final (self).docs@.last().latest && final (self).next_doc_id == old(
                    self,
                ).next_doc_id + 1)
                &&& (!existed ==> inserted)
                &&& (inserted ==> final (self).snips@ == old(self).snips@.push(
                    final (self).snips@.last(),
                ) && final (self).snips@.last().id == old(self).next_snip_id && final (
                self).snips@.last().text@ == snippet@ && final (self).snips@.last().doc == r
                    && final (self).next_snip_id == old(self).next_snip_id + 1 && appended_rows(
                    old(self).terms@,
                    final (self).terms@,
                    dedup(views(terms@)),
                    old(self).next_snip_id,
                ) && appended_rows(
                    old(self).phrases@,
                    final (self).phrases@,
                    dedup(views(phrases@)),
                    old(self).next_snip_id,
                ))
                &&& (!inserted ==> final (self).snips@ == old(self).snips@ && final (
                self).next_snip_id == old(self).next_snip_id && final (self).terms@ == old(
                    self,
                ).terms@ && final (self).phrases@ == old(self).phrases@)
            }),
    {
        let doc_id: i32;
        match self.find_doc_by_name(document_name) {
            Some(idx) => {
                doc_id = self.docs[idx].id;
            },
            None => {
                doc_id = self.next_doc_id;
                let row = DocRow {
                    id: doc_id,
                    name: document_name.to_owned(),
                    marked: false,
                    latest: false,
                };
                proof {
                    assert(forall|i: int|
                        0 <= i < self.docs@.len() ==> (#[trigger] self.docs@[i]).name@
                            != document_name@);
                }
                let ghost old_docs = self.docs@;
                self.docs.push(row);
                self.next_doc_id = self.next_doc_id + 1;
                proof {
                    assert(forall|j: int|
                        0 <= j < old_docs.len() ==> (#[trigger] self.docs@[j]) == old_docs[j]);
                    assert(docs_ok(self.docs@, self.next_doc_id)) by {
                        assert(forall|j: int|
                            0 <= j < old_docs.len() ==> (#[trigger] old_docs[j]).id < doc_id);
                    }
                    assert(snips_ok(self.docs@, self.snips@, self.next_snip_id)) by {
                        assert forall|j: int| 0 <= j < self.snips@.len() implies has_doc_id(
                            self.docs@,
                            (#[trigger] self.snips@[j]).doc,
                        ) by {
                            assert(has_doc_id(old_docs, self.snips@[j].doc));
                            let w = choose|w: int|
                                0 <= w < old_docs.len() && (#[trigger] old_docs[w]).id
                                    == self.snips@[j].doc;
                            assert(self.docs@[w].id == self.snips@[j].doc);
                        }
                    }
                    assert(flags_ok(self.docs@));
                    // no snippet can already sit under the fresh id
                    assert(forall|j: int|
                        0 <= j < self.snips@.len() ==> (#[trigger] self.snips@[j]).doc != doc_id)
                        by {
                        assert forall|j: int| 0 <= j < self.snips@.len() implies (
                        #[trigger] self.snips@[j]).doc != doc_id by {
                            assert(has_doc_id(old(self).docs@, self.snips@[j].doc));
                            let w = choose|w: int|
                                0 <= w < old(self).docs@.len() && (#[trigger] old(
                                    self,
                                ).docs@[w]).id == self.snips@[j].doc;
                            assert(old(self).docs@[w].id < old(self).next_doc_id);
                        }
                    }
                }
            },
        }
        proof {
            assert(has_doc_id(self.docs@, doc_id)) by {
                if has_doc_name(old(self).docs@, document_name@) {
                    let i = doc_index_by_name(old(self).docs@, document_name@);
                    lemma_doc_index_props(old(self).docs@, document_name@);
                    assert(self.docs@[i].id == doc_id);
                } else {
                    assert(self.docs@.last().id == doc_id);
                }
            }
        }
        let ghost mid = *self;
        let inserted = self.insert_snip_row(snippet, doc_id);
        if let Some(sid) = inserted {
            proof {
                assert(forall|i: int|
                    0 <= i < self.terms@.len() ==> (#[trigger] self.terms@[i]).snip != sid) by {
                    assert forall|i: int| 0 <= i < self.terms@.len() implies (
                    #[trigger] self.terms@[i]).snip != sid by {
                        assert(has_snip_id(mid.snips@, self.terms@[i].snip));
                        let w = choose|w: int|
                            0 <= w < mid.snips@.len() && (#[trigger] mid.snips@[w]).id
                                == self.terms@[i].snip;
                        assert(mid.snips@[w].id < mid.next_snip_id);
                    }
                }
                assert(forall|i: int|
                    0 <= i < self.phrases@.len() ==> (#[trigger] self.phrases@[i]).snip != sid) by {
                    assert forall|i: int| 0 <= i < self.phrases@.len() implies (
                    #[trigger] self.phrases@[i]).snip != sid by {
                        assert(has_snip_id(mid.snips@, self.phrases@[i].snip));
                        let w = choose|w: int|
                            0 <= w < mid.snips@.len() && (#[trigger] mid.snips@[w]).id
                                == self.phrases@[i].snip;
                        assert(mid.snips@[w].id < mid.next_snip_id);
                    }
                }
            }
            let ghost pre = *self;
            Self::insert_rows_into(&mut self.terms, terms, sid);
            Self::insert_rows_into(&mut self.phrases, phrases, sid);
            proof {
                crate::rake::lemma_dedup_props_pub(views(terms@));
                crate::rake::lemma_dedup_props_pub(views(phrases@));
                assert(has_snip_id(self.snips@, sid)) by {
                    assert(self.snips@.last().id == sid);
                    assert(self.snips@[self.snips@.len() - 1].id == sid);
                }
                lemma_rows_ok_extend(pre.terms@, self.terms@, dedup(views(terms@)), sid,
                    self.snips@);
                lemma_rows_ok_extend(pre.phrases@, self.phrases@, dedup(views(phrases@)), sid,
                    self.snips@);
            }
        }
        proof {
            assert(docs_nonempty(self.docs@, self.snips@)) by {
                assert forall|i: int| 0 <= i < self.docs@.len() implies doc_has_snip(
                    self.snips@,
                    (#[trigger] self.docs@[i]).id,
                ) by {
                    if i < old(self).docs@.len() {
                        let w = choose|w: int|
                            0 <= w < old(self).snips@.len() && (#[trigger] old(self).snips@[w]).doc
                                == old(self).docs@[i].id;
                        assert(self.snips@[w].doc == self.docs@[i].id);
                    } else {
                        assert(self.snips@[self.snips@.len() - 1].doc == self.docs@[i].id);
                    }
                }
            }
        }
        doc_id
    }
}

/// Extending a well-formed row table with fresh-snippet rows keeps it
/// well formed.
proof fn lemma_rows_ok_extend(
    old_rows: Seq<IndexRow>,
    new_rows: Seq<IndexRow>,
    keys: Seq<Seq<char>>,
    snip_id: i32,
    snips: Seq<SnipRow>,
)
    requires
        appended_rows(old_rows, new_rows, keys, snip_id),
        rows_ok(old_rows, snips),
        has_snip_id(snips, snip_id),
        forall|i: int| 0 <= i < old_rows.len() ==> (#[trigger] old_rows[i]).snip != snip_id,
        forall|i: int, j: int| 0 <= i < j < keys.len() ==> keys[i] != keys[j],
    ensures
        rows_ok(new_rows, snips),
{
    let base = old_rows.len() as int;
    assert(forall|i: int| 0 <= i < base ==> new_rows[i] == old_rows[i]) by {
        assert(forall|i: int|
            0 <= i < base ==> (#[trigger] new_rows.subrange(0, base)[i]) == new_rows[i]);
    }
    assert forall|i: int| 0 <= i < new_rows.len() implies has_snip_id(
        snips,
        (#[trigger] new_rows[i]).snip,
    ) by {
        if i >= base {
            assert(new_rows[base + (i - base)].snip == snip_id);
        }
    }
    assert forall|i: int, j: int| 0 <= i < j < new_rows.len() implies !((#[trigger] new_rows[i]).snip
        == (#[trigger] new_rows[j]).snip && new_rows[i].key@ == new_rows[j].key@) by {
        if i < base && j >= base {
            assert(new_rows[base + (j - base)].snip == snip_id);
            assert(old_rows[i].snip != snip_id);
        } else if i >= base {
            assert(new_rows[base + (i - base)].key@ == keys[i - base]);
            assert(new_rows[base + (j - base)].key@ == keys[j - base]);
        }
    }
}

/// The index that [`doc_index_by_name`] finds really carries the name.
pub proof fn lemma_doc_index_props(docs: Seq<DocRow>, name: Seq<char>)
    requires
        has_doc_name(docs, name),
    ensures
        0 <= doc_index_by_name(docs, name) < docs.len(),
        docs[doc_index_by_name(docs, name)].name@ == name,
    decreases docs.len(),
{
    if docs.len() > 0 && docs[0].name@ != name {
        assert(has_doc_name(docs.drop_first(), name)) by {
            let i = choose|i: int| 0 <= i < docs.len() && (#[trigger] docs[i]).name@ == name;
            assert(docs.drop_first()[i - 1].name@ == name);
        }
        lemma_doc_index_props(docs.drop_first(), name);
    }
}

} // verus!

verus! {

/// The first index whose document row carries this id, or minus one.
pub open spec fn doc_index_by_id(docs: Seq<DocRow>, id: i32) -> int
    decreases docs.len(),
{
    if docs.len() == 0 {
        -1
    } else if docs[0].id == id {
        0
    } else {
        let r = doc_index_by_id(docs.drop_first(), id);
        if r == -1 {
            -1
        } else {
            r + 1
        }
    }
}

/// The index rows that do not belong to this snippet, in order.
pub open spec fn rows_without_snip(rows: Seq<IndexRow>, id: i32) -> Seq<IndexRow>
    decreases rows.len(),
{
    if rows.len() == 0 {
        Seq::empty()
    } else {
        let rest = rows_without_snip(rows.drop_last(), id);
        if rows.last().snip == id {
            rest
        } else {
            rest.push(rows.last())
        }
    }
}

/// Another snippet row than the one at `idx` belongs to this document.
pub open spec fn doc_has_other_snip(snips: Seq<SnipRow>, idx: int, doc: i32) -> bool {
    exists|j: int| 0 <= j < snips.len() && j != idx && (#[trigger] snips[j]).doc == doc
}

/// Every row kept by [`rows_without_snip`] is an original row of another
/// snippet; no duplicate pair appears that was not there.
proof fn lemma_rows_without_props(rows: Seq<IndexRow>, id: i32)
    ensures
        forall|k: int|
            0 <= k < rows_without_snip(rows, id).len() ==> (#[trigger] rows_without_snip(
                rows,
                id,
            )[k]).snip != id && exists|j: int|
                0 <= j < rows.len() && rows_without_snip(rows, id)[k] == rows[j],
        (forall|i: int, j: int|
            0 <= i < j < rows.len() ==> !((#[trigger] rows[i]).snip == (#[trigger] rows[j]).snip
                && rows[i].key@ == rows[j].key@)) ==> (forall|i: int, j: int|
            0 <= i < j < rows_without_snip(rows, id).len() ==> !((#[trigger] rows_without_snip(
                rows,
                id,
            )[i]).snip == (#[trigger] rows_without_snip(rows, id)[j]).snip && rows_without_snip(
                rows,
                id,
            )[i].key@ == rows_without_snip(rows, id)[j].key@)),
    decreases rows.len(),
{
    if rows.len() > 0 {
        lemma_rows_without_props(rows.drop_last(), id);
        let rest = rows_without_snip(rows.drop_last(), id);
        let out = rows_without_snip(rows, id);
        assert forall|k: int| 0 <= k < out.len() implies (#[trigger] out[k]).snip != id && exists|
            j: int,
        | 0 <= j < rows.len() && out[k] == rows[j] by {
            if k < rest.len() {
                assert(rest[k].snip != id);
                let j = choose|j: int| 0 <= j < rows.drop_last().len() && rest[k] == rows.drop_last()[j];
                assert(out[k] == rows[j]);
            } else {
                assert(out[k] == rows[rows.len() - 1]);
            }
        }
        if (forall|i: int, j: int|
            0 <= i < j < rows.len() ==> !((#[trigger] rows[i]).snip == (#[trigger] rows[j]).snip
                && rows[i].key@ == rows[j].key@)) {
            assert(forall|i: int, j: int|
                0 <= i < j < rows.drop_last().len() ==> !((#[trigger] rows.drop_last()[i]).snip == (
                #[trigger] rows.drop_last()[j]).snip && rows.drop_last()[i].key@
                    == rows.drop_last()[j].key@));
            assert forall|i: int, j: int| 0 <= i < j < out.len() implies !((#[trigger] out[i]).snip
                == (#[trigger] out[j]).snip && out[i].key@ == out[j].key@) by {
                if j < rest.len() {
                } else {
                    assert(out[j] == rows[rows.len() - 1]);
                    let w = choose|w: int| 0 <= w < rows.drop_last().len() && out[i] == rows.drop_last()[w];
                    assert(out[i] == rows[w]);
                    assert(w < rows.len() - 1);
                }
            }
        }
    }
}

impl Store {
    /// Remove one table's rows of the given snippet.
    fn remove_rows_of(rows: &mut Vec<IndexRow>, snip_id: i32)
        ensures
            final (rows)@ == rows_without_snip(old(rows)@, snip_id),
    {
        let mut out: Vec<IndexRow> = Vec::new();
        let mut i: usize = 0;
        proof {
            assert(rows@.subrange(0, 0) =~= Seq::<IndexRow>::empty());
            assert(out@ =~= rows_without_snip(rows@.subrange(0, 0), snip_id));
        }
        while i < rows.len()
            invariant
                i <= rows@.len(),
                out@ == rows_without_snip(rows@.subrange(0, i as int), snip_id),
            decreases rows@.len() - i,
        {
            proof {
                assert(rows@.subrange(0, i as int + 1).drop_last() =~= rows@.subrange(0, i as int));
                assert(rows@.subrange(0, i as int + 1).last() == rows@[i as int]);
            }
            if rows[i].snip != snip_id {
                let key = rows[i].key.clone();
                let snip = rows[i].snip;
                out.push(IndexRow { key, snip });
                proof {
                    assert(out@.last() == rows@[i as int]);
                    assert(out@ =~= rows_without_snip(rows@.subrange(0, i as int + 1), snip_id));
                }
            }
            i = i + 1;
        }
        proof {
            assert(rows@.subrange(0, rows@.len() as int) =~= rows@);
        }
        *rows = out;
    }

    /// Delete one snippet and its index rows; a document left without
    /// snippets is deleted too.
    pub fn delete_snippet(&mut self, snippet_id: i32) -> (r: Result<(), StoreError>)
        requires
            old(self).wf(),
        ensures
            final (self).wf(),
            final (self).next_doc_id == old(self).next_doc_id,
            final (self).next_snip_id == old(self).next_snip_id,
            r is Err <==> !has_snip_id(old(self).snips@, snippet_id),
            r is Err ==> *final (self) == *old(self) && r->Err_0 == StoreError::NotFound,
            r is Ok ==> ({
                let idx = snip_index_by_id(old(self).snips@, snippet_id);
                let did = old(self).snips@[idx].doc;
                &&& final (self).snips@ == old(self).snips@.remove(idx)
                &&& final (self).terms@ == rows_without_snip(old(self).terms@, snippet_id)
                &&& final (self).phrases@ == rows_without_snip(old(self).phrases@, snippet_id)
                &&& (doc_has_other_snip(old(self).snips@, idx, did) ==> final (self).docs@ == old(
                    self,
                ).docs@)
                &&& (!doc_has_other_snip(old(self).snips@, idx, did) ==> final (self).docs@ == old(
                    self,
                ).docs@.remove(doc_index_by_id(old(self).docs@, did)))
            }),
    {
        let idx = match self.find_snip_by_id(snippet_id) {
            Some(i) => i,
            None => {
                return Err(StoreError::NotFound);
            },
        };
        let did = self.snips[idx].doc;
        self.snips.remove(idx);
        Self::remove_rows_of(&mut self.terms, snippet_id);
        Self::remove_rows_of(&mut self.phrases, snippet_id);
        proof {
            lemma_rows_without_props(old(self).terms@, snippet_id);
            lemma_rows_without_props(old(self).phrases@, snippet_id);
            assert(old(self).snips@[idx as int].id == snippet_id);
            assert(forall|j: int|
                0 <= j < idx ==> (#[trigger] self.snips@[j]) == old(self).snips@[j]);
            assert(forall|j: int|
                idx <= j < self.snips@.len() ==> (#[trigger] self.snips@[j]) == old(self).snips@[j
                    + 1]);
        }
        // rows of surviving snippets still point at live snippets
        proof {
            assert(rows_ok(self.terms@, self.snips@)) by {
                lemma_surviving_rows(old(self).terms@, self.terms@, old(self).snips@, self.snips@,
                    idx as int, snippet_id);
            }
            assert(rows_ok(self.phrases@, self.snips@)) by {
                lemma_surviving_rows(old(self).phrases@, self.phrases@, old(self).snips@,
                    self.snips@, idx as int, snippet_id);
            }
        }
        // cascade: a document left empty goes too
        let mut has_other: bool = false;
        let mut k: usize = 0;
        while k < self.snips.len()
            invariant
                k <= self.snips@.len(),
                has_other == exists|j: int|
                    0 <= j < k && (#[trigger] self.snips@[j]).doc == did,
            decreases self.snips@.len() - k,
        {
            if self.snips[k].doc == did {
                has_other = true;
                proof {
                    assert(self.snips@[k as int].doc == did);
                }
            }
            k = k + 1;
        }
        proof {
            assert(has_other == doc_has_other_snip(old(self).snips@, idx as int, did)) by {
                if has_other {
                    let j = choose|j: int|
                        0 <= j < self.snips@.len() && (#[trigger] self.snips@[j]).doc == did;
                    if j < idx {
                        assert(old(self).snips@[j].doc == did && j != idx);
                    } else {
                        assert(old(self).snips@[j + 1].doc == did && j + 1 != idx);
                    }
                }
                if doc_has_other_snip(old(self).snips@, idx as int, did) {
                    let j = choose|j: int|
                        0 <= j < old(self).snips@.len() && j != idx && (#[trigger] old(
                            self,
                        ).snips@[j]).doc == did;
                    if j < idx {
                        assert(self.snips@[j].doc == did);
                    } else {
                        assert(self.snips@[j - 1].doc == did);
                    }
                }
            }
        }
        if !has_other {
            proof {
                assert(has_doc_id(self.docs@, did)) by {
                    assert(has_doc_id(old(self).docs@, did));
                }
            }
            let dix = match self.find_doc_by_id(did) {
                Some(d) => d,
                None => {
                    proof {
                        assert(false);
                    }
                    0
                },
            };
            self.docs.remove(dix);
        }
        proof {
            lemma_delete_wf(*old(self), *self, idx as int, did, has_other);
        }
        Ok(())
    }
}

/// The first matching index by id is the index of any match whose
/// predecessors all differ.
proof fn lemma_doc_id_index_at(docs: Seq<DocRow>, i: int, id: i32)
    requires
        0 <= i < docs.len(),
        docs[i].id == id,
        forall|j: int| 0 <= j < i ==> (#[trigger] docs[j]).id != id,
    ensures
        doc_index_by_id(docs, id) == i,
    decreases i,
{
    if i > 0 {
        lemma_doc_id_index_at(docs.drop_first(), i - 1, id);
    }
}

/// Surviving index rows still reference surviving snippets, without
/// duplicate pairs.
proof fn lemma_surviving_rows(
    old_rows: Seq<IndexRow>,
    new_rows: Seq<IndexRow>,
    old_snips: Seq<SnipRow>,
    new_snips: Seq<SnipRow>,
    idx: int,
    snip_id: i32,
)
    requires
        rows_ok(old_rows, old_snips),
        new_rows == rows_without_snip(old_rows, snip_id),
        0 <= idx < old_snips.len(),
        old_snips[idx].id == snip_id,
        new_snips == old_snips.remove(idx),
        forall|i: int, j: int|
            0 <= i < j < old_snips.len() ==> (#[trigger] old_snips[i]).id != (
            #[trigger] old_snips[j]).id,
    ensures
        rows_ok(new_rows, new_snips),
{
    lemma_rows_without_props(old_rows, snip_id);
    assert(forall|j: int| 0 <= j < idx ==> (#[trigger] new_snips[j]) == old_snips[j]);
    assert(forall|j: int|
        idx <= j < new_snips.len() ==> (#[trigger] new_snips[j]) == old_snips[j + 1]);
    assert forall|i: int| 0 <= i < new_rows.len() implies has_snip_id(
        new_snips,
        (#[trigger] new_rows[i]).snip,
    ) by {
        let j = choose|j: int| 0 <= j < old_rows.len() && new_rows[i] == old_rows[j];
        assert(has_snip_id(old_snips, old_rows[j].snip));
        let w = choose|w: int|
            0 <= w < old_snips.len() && (#[trigger] old_snips[w]).id == old_rows[j].snip;
        assert(new_rows[i].snip != snip_id);
        assert(w != idx);
        if w < idx {
            assert(new_snips[w].id == new_rows[i].snip);
        } else {
            assert(new_snips[w - 1].id == new_rows[i].snip);
        }
    }
}

/// Deleting a snippet, its rows, and possibly its emptied document keeps
/// the store well formed.
proof fn lemma_delete_wf(pre: Store, post: Store, idx: int, did: i32, has_other: bool)
    requires
        pre.wf(),
        0 <= idx < pre.snips@.len(),
        pre.snips@[idx].doc == did,
        post.snips@ == pre.snips@.remove(idx),
        rows_ok(post.terms@, post.snips@),
        rows_ok(post.phrases@, post.snips@),
        has_other == doc_has_other_snip(pre.snips@, idx, did),
        has_other ==> post.docs@ == pre.docs@,
        !has_other ==> post.docs@ == pre.docs@.remove(doc_index_by_id(pre.docs@, did))
            && 0 <= doc_index_by_id(pre.docs@, did) < pre.docs@.len() && pre.docs@[doc_index_by_id(
            pre.docs@,
            did,
        )].id == did,
        post.next_doc_id == pre.next_doc_id,
        post.next_snip_id == pre.next_snip_id,
    ensures
        post.wf(),
{
    assert(forall|j: int| 0 <= j < idx ==> (#[trigger] post.snips@[j]) == pre.snips@[j]);
    assert(forall|j: int|
        idx <= j < post.snips@.len() ==> (#[trigger] post.snips@[j]) == pre.snips@[j + 1]);
    if has_other {
        assert(snips_ok(post.docs@, post.snips@, post.next_snip_id));
        assert(docs_nonempty(post.docs@, post.snips@)) by {
            assert forall|i: int| 0 <= i < post.docs@.len() implies doc_has_snip(
                post.snips@,
                (#[trigger] post.docs@[i]).id,
            ) by {
                if post.docs@[i].id == did {
                    let j = choose|j: int|
                        0 <= j < pre.snips@.len() && j != idx && (#[trigger] pre.snips@[j]).doc
                            == did;
                    if j < idx {
                        assert(post.snips@[j].doc == post.docs@[i].id);
                    } else {
                        assert(post.snips@[j - 1].doc == post.docs@[i].id);
                    }
                } else {
                    assert(doc_has_snip(pre.snips@, pre.docs@[i].id));
                    let j = choose|j: int|
                        0 <= j < pre.snips@.len() && (#[trigger] pre.snips@[j]).doc
                            == pre.docs@[i].id;
                    assert(pre.snips@[j].doc != did);
                    assert(j != idx);
                    if j < idx {
                        assert(post.snips@[j].doc == post.docs@[i].id);
                    } else {
                        assert(post.snips@[j - 1].doc == post.docs@[i].id);
                    }
                }
            }
        }
    } else {
        let dx = doc_index_by_id(pre.docs@, did);
        assert(forall|j: int| 0 <= j < dx ==> (#[trigger] post.docs@[j]) == pre.docs@[j]);
        assert(forall|j: int|
            dx <= j < post.docs@.len() ==> (#[trigger] post.docs@[j]) == pre.docs@[j + 1]);
        assert(snips_ok(post.docs@, post.snips@, post.next_snip_id)) by {
            assert forall|i: int| 0 <= i < post.snips@.len() implies has_doc_id(
                post.docs@,
                (#[trigger] post.snips@[i]).doc,
            ) by {
                assert(post.snips@[i].doc != did);
                let gi = if i < idx {
                    i
                } else {
                    i + 1
                };
                assert(pre.snips@[gi] == post.snips@[i]);
                assert(has_doc_id(pre.docs@, pre.snips@[gi].doc));
                let w = choose|w: int|
                    0 <= w < pre.docs@.len() && (#[trigger] pre.docs@[w]).id == pre.snips@[gi].doc;
                assert(w != dx);
                if w < dx {
                    assert(post.docs@[w].id == post.snips@[i].doc);
                } else {
                    assert(post.docs@[w - 1].id == post.snips@[i].doc);
                }
            }
        }
        assert(docs_nonempty(post.docs@, post.snips@)) by {
            assert forall|i: int| 0 <= i < post.docs@.len() implies doc_has_snip(
                post.snips@,
                (#[trigger] post.docs@[i]).id,
            ) by {
                let gi = if i < dx {
                    i
                } else {
                    i + 1
                };
                assert(pre.docs@[gi] == post.docs@[i]);
                assert(pre.docs@[dx].id == did);
                assert(gi != dx);
                assert(pre.docs@[gi].id != pre.docs@[dx].id);
                assert(doc_has_snip(pre.snips@, pre.docs@[gi].id));
                let j = choose|j: int|
                    0 <= j < pre.snips@.len() && (#[trigger] pre.snips@[j]).doc == pre.docs@[gi].id;
                assert(pre.snips@[idx].doc == did);
                assert(j != idx);
                if j < idx {
                    assert(post.snips@[j].doc == post.docs@[i].id);
                } else {
                    assert(post.snips@[j - 1].doc == post.docs@[i].id);
                }
            }
        }
    }
}

} // verus!

verus! {

/// The snippet rows outside this document, in order.
pub open spec fn snips_not_in_doc(snips: Seq<SnipRow>, did: i32) -> Seq<SnipRow>
    decreases snips.len(),
{
    if snips.len() == 0 {
        Seq::empty()
    } else {
        let rest = snips_not_in_doc(snips.drop_last(), did);
        if snips.last().doc == did {
            rest
        } else {
            rest.push(snips.last())
        }
    }
}

/// The index rows whose snippets lie outside this document, in order.
pub open spec fn rows_not_in_doc(rows: Seq<IndexRow>, snips: Seq<SnipRow>, did: i32) -> Seq<
    IndexRow,
>
    decreases rows.len(),
{
    if rows.len() == 0 {
        Seq::empty()
    } else {
        let rest = rows_not_in_doc(rows.drop_last(), snips, did);
        if snip_in_doc(snips, rows.last().snip, did) {
            rest
        } else {
            rest.push(rows.last())
        }
    }
}

/// Another snippet row than the one at `idx` has this text under this
/// document.
pub open spec fn text_clash(snips: Seq<SnipRow>, idx: int, doc: i32, text: Seq<char>) -> bool {
    exists|j: int|
        0 <= j < snips.len() && j != idx && (#[trigger] snips[j]).doc == doc && snips[j].text@
            == text
}

proof fn lemma_snips_filter_props(snips: Seq<SnipRow>, did: i32)
    ensures
        forall|k: int|
            0 <= k < snips_not_in_doc(snips, did).len() ==> (#[trigger] snips_not_in_doc(
                snips,
                did,
            )[k]).doc != did && exists|j: int|
                0 <= j < snips.len() && snips_not_in_doc(snips, did)[k] == snips[j],
        forall|j: int|
            0 <= j < snips.len() && (#[trigger] snips[j]).doc != did ==> exists|k: int|
                0 <= k < snips_not_in_doc(snips, did).len() && snips_not_in_doc(snips, did)[k]
                    == snips[j],
    decreases snips.len(),
{
    if snips.len() > 0 {
        lemma_snips_filter_props(snips.drop_last(), did);
        let rest = snips_not_in_doc(snips.drop_last(), did);
        let out = snips_not_in_doc(snips, did);
        assert forall|k: int| 0 <= k < out.len() implies (#[trigger] out[k]).doc != did && exists|
            j: int,
        | 0 <= j < snips.len() && out[k] == snips[j] by {
            if k < rest.len() {
                let j = choose|j: int|
                    0 <= j < snips.drop_last().len() && rest[k] == snips.drop_last()[j];
                assert(out[k] == snips[j]);
            } else {
                assert(out[k] == snips[snips.len() - 1]);
            }
        }
        assert forall|j: int| 0 <= j < snips.len() && (#[trigger] snips[j]).doc != did implies
            exists|k: int| 0 <= k < out.len() && out[k] == snips[j] by {
            if j < snips.len() - 1 {
                assert(snips.drop_last()[j] == snips[j]);
                let k = choose|k: int| 0 <= k < rest.len() && rest[k] == snips.drop_last()[j];
                assert(out[k] == snips[j]);
            } else {
                assert(out[out.len() - 1] == snips[j]);
            }
        }
    }
}

proof fn lemma_rows_not_in_doc_props(rows: Seq<IndexRow>, snips: Seq<SnipRow>, did: i32)
    ensures
        forall|k: int|
            0 <= k < rows_not_in_doc(rows, snips, did).len() ==> !snip_in_doc(
                snips,
                (#[trigger] rows_not_in_doc(rows, snips, did)[k]).snip,
                did,
            ) && exists|j: int|
                0 <= j < rows.len() && rows_not_in_doc(rows, snips, did)[k] == rows[j],
        (forall|i: int, j: int|
            0 <= i < j < rows.len() ==> !((#[trigger] rows[i]).snip == (#[trigger] rows[j]).snip
                && rows[i].key@ == rows[j].key@)) ==> (forall|i: int, j: int|
            0 <= i < j < rows_not_in_doc(rows, snips, did).len() ==> !((#[trigger] rows_not_in_doc(
                rows,
                snips,
                did,
            )[i]).snip == (#[trigger] rows_not_in_doc(rows, snips, did)[j]).snip
                && rows_not_in_doc(rows, snips, did)[i].key@ == rows_not_in_doc(
                rows,
                snips,
                did,
            )[j].key@)),
    decreases rows.len(),
{
    if rows.len() > 0 {
        lemma_rows_not_in_doc_props(rows.drop_last(), snips, did);
        let rest = rows_not_in_doc(rows.drop_last(), snips, did);
        let out = rows_not_in_doc(rows, snips, did);
        assert forall|k: int| 0 <= k < out.len() implies !snip_in_doc(
            snips,
            (#[trigger] out[k]).snip,
            did,
        ) && exists|j: int| 0 <= j < rows.len() && out[k] == rows[j] by {
            if k < rest.len() {
                let j = choose|j: int|
                    0 <= j < rows.drop_last().len() && rest[k] == rows.drop_last()[j];
                assert(out[k] == rows[j]);
            } else {
                assert(out[k] == rows[rows.len() - 1]);
            }
        }
        if (forall|i: int, j: int|
            0 <= i < j < rows.len() ==> !((#[trigger] rows[i]).snip == (#[trigger] rows[j]).snip
                && rows[i].key@ == rows[j].key@)) {
            assert(forall|i: int, j: int|
                0 <= i < j < rows.drop_last().len() ==> !((#[trigger] rows.drop_last()[i]).snip == (
                #[trigger] rows.drop_last()[j]).snip && rows.drop_last()[i].key@
                    == rows.drop_last()[j].key@));
            assert forall|i: int, j: int| 0 <= i < j < out.len() implies !((#[trigger] out[i]).snip
                == (#[trigger] out[j]).snip && out[i].key@ == out[j].key@) by {
                if j >= rest.len() {
                    assert(out[j] == rows[rows.len() - 1]);
                    let w = choose|w: int| 0 <= w < rows.drop_last().len() && out[i] == rows.drop_last()[w];
                    assert(out[i] == rows[w]);
                    assert(w < rows.len() - 1);
                }
            }
        }
    }
}

impl Store {
    /// A snippet with this id belongs to this document.
    fn snip_in_doc_exec(&self, snip_id: i32, did: i32) -> (r: bool)
        ensures
            r == snip_in_doc(self.snips@, snip_id, did),
    {
        let mut i: usize = 0;
        while i < self.snips.len()
            invariant
                i <= self.snips@.len(),
                forall|j: int|
                    0 <= j < i ==> !((#[trigger] self.snips@[j]).id == snip_id
                        && self.snips@[j].doc == did),
            decreases self.snips@.len() - i,
        {
            if self.snips[i].id == snip_id && self.snips[i].doc == did {
                proof {
                    assert(self.snips@[i as int].id == snip_id && self.snips@[i as int].doc == did);
                }
                return true;
            }
            i = i + 1;
        }
        false
    }

    /// Delete every snippet of the named document, their index rows, and
    /// the document itself; an unknown name changes nothing.
    pub fn delete_document(&mut self, document_name: &str) -> (r: Result<(), StoreError>)
        requires
            old(self).wf(),
        ensures
            final (self).wf(),
            final (self).next_doc_id == old(self).next_doc_id,
            final (self).next_snip_id == old(self).next_snip_id,
            r is Ok,
            !has_doc_name(old(self).docs@, document_name@) ==> *final (self) == *old(self),
            has_doc_name(old(self).docs@, document_name@) ==> ({
                let idx = doc_index_by_name(old(self).docs@, document_name@);
                let did = old(self).docs@[idx].id;
                &&& final (self).docs@ == old(self).docs@.remove(idx)
                &&& final (self).snips@ == snips_not_in_doc(old(self).snips@, did)
                &&& final (self).terms@ == rows_not_in_doc(old(self).terms@, old(self).snips@, did)
                &&& final (self).phrases@ == rows_not_in_doc(
                    old(self).phrases@,
                    old(self).snips@,
                    did,
                )
            }),
    {
        let idx = match self.find_doc_by_name(document_name) {
            Some(i) => i,
            None => {
                return Ok(());
            },
        };
        let did = self.docs[idx].id;
        // the index rows of the document's snippets go first
        let ghost snips0 = self.snips@;
        let mut new_terms: Vec<IndexRow> = Vec::new();
        let mut i: usize = 0;
        proof {
            assert(self.terms@.subrange(0, 0) =~= Seq::<IndexRow>::empty());
            assert(new_terms@ =~= rows_not_in_doc(self.terms@.subrange(0, 0), snips0, did));
        }
        while i < self.terms.len()
            invariant
                i <= self.terms@.len(),
                snips0 == self.snips@,
                new_terms@ == rows_not_in_doc(self.terms@.subrange(0, i as int), snips0, did),
            decreases self.terms@.len() - i,
        {
            proof {
                assert(self.terms@.subrange(0, i as int + 1).drop_last() =~= self.terms@.subrange(
                    0,
                    i as int,
                ));
                assert(self.terms@.subrange(0, i as int + 1).last() == self.terms@[i as int]);
            }
            if !self.snip_in_doc_exec(self.terms[i].snip, did) {
                let key = self.terms[i].key.clone();
                let snip = self.terms[i].snip;
                new_terms.push(IndexRow { key, snip });
                proof {
                    assert(new_terms@.last() == self.terms@[i as int]);
                    assert(new_terms@ =~= rows_not_in_doc(
                        self.terms@.subrange(0, i as int + 1),
                        snips0,
                        did,
                    ));
                }
            }
            i = i + 1;
        }
        proof {
            assert(self.terms@.subrange(0, self.terms@.len() as int) =~= self.terms@);
        }
        self.terms = new_terms;
        let mut new_phrases: Vec<IndexRow> = Vec::new();
        i = 0;
        proof {
            assert(self.phrases@.subrange(0, 0) =~= Seq::<IndexRow>::empty());
            assert(new_phrases@ =~= rows_not_in_doc(self.phrases@.subrange(0, 0), snips0, did));
        }
        while i < self.phrases.len()
            invariant
                i <= self.phrases@.len(),
                snips0 == self.snips@,
                new_phrases@ == rows_not_in_doc(self.phrases@.subrange(0, i as int), snips0, did),
            decreases self.phrases@.len() - i,
        {
            proof {
                assert(self.phrases@.subrange(0, i as int + 1).drop_last()
                    =~= self.phrases@.subrange(0, i as int));
                assert(self.phrases@.subrange(0, i as int + 1).last() == self.phrases@[i as int]);
            }
            if !self.snip_in_doc_exec(self.phrases[i].snip, did) {
                let key = self.phrases[i].key.clone();
                let snip = self.phrases[i].snip;
                new_phrases.push(IndexRow { key, snip });
                proof {
                    assert(new_phrases@.last() == self.phrases@[i as int]);
                    assert(new_phrases@ =~= rows_not_in_doc(
                        self.phrases@.subrange(0, i as int + 1),
                        snips0,
                        did,
                    ));
                }
            }
            i = i + 1;
        }
        proof {
            assert(self.phrases@.subrange(0, self.phrases@.len() as int) =~= self.phrases@);
        }
        self.phrases = new_phrases;
        // then the snippets themselves
        let mut new_snips: Vec<SnipRow> = Vec::new();
        i = 0;
        proof {
            assert(self.snips@.subrange(0, 0) =~= Seq::<SnipRow>::empty());
            assert(new_snips@ =~= snips_not_in_doc(self.snips@.subrange(0, 0), did));
        }
        while i < self.snips.len()
            invariant
                i <= self.snips@.len(),
                snips0 == self.snips@,
                new_snips@ == snips_not_in_doc(self.snips@.subrange(0, i as int), did),
            decreases self.snips@.len() - i,
        {
            proof {
                assert(self.snips@.subrange(0, i as int + 1).drop_last() =~= self.snips@.subrange(
                    0,
                    i as int,
                ));
                assert(self.snips@.subrange(0, i as int + 1).last() == self.snips@[i as int]);
            }
            if self.snips[i].doc != did {
                let id = self.snips[i].id;
                let text = self.snips[i].text.clone();
                let doc = self.snips[i].doc;
                new_snips.push(SnipRow { id, text, doc });
                proof {
                    assert(new_snips@.last() == self.snips@[i as int]);
                    assert(new_snips@ =~= snips_not_in_doc(
                        self.snips@.subrange(0, i as int + 1),
                        did,
                    ));
                }
            }
            i = i + 1;
        }
        proof {
            assert(self.snips@.subrange(0, self.snips@.len() as int) =~= self.snips@);
        }
        self.snips = new_snips;
        // and finally the document row
        self.docs.remove(idx);
        proof {
            lemma_delete_doc_wf(*old(self), *self, idx as int, did);
        }
        Ok(())
    }
}

/// Deleting a whole document with its snippets and rows keeps the store
/// well formed.
proof fn lemma_delete_doc_wf(pre: Store, post: Store, idx: int, did: i32)
    requires
        pre.wf(),
        0 <= idx < pre.docs@.len(),
        pre.docs@[idx].id == did,
        post.docs@ == pre.docs@.remove(idx),
        post.snips@ == snips_not_in_doc(pre.snips@, did),
        post.terms@ == rows_not_in_doc(pre.terms@, pre.snips@, did),
        post.phrases@ == rows_not_in_doc(pre.phrases@, pre.snips@, did),
        post.next_doc_id == pre.next_doc_id,
        post.next_snip_id == pre.next_snip_id,
    ensures
        post.wf(),
{
    assert(forall|j: int| 0 <= j < idx ==> (#[trigger] post.docs@[j]) == pre.docs@[j]);
    assert(forall|j: int|
        idx <= j < post.docs@.len() ==> (#[trigger] post.docs@[j]) == pre.docs@[j + 1]);
    lemma_dd_snips_ok(pre.docs@, post.docs@, pre.snips@, post.snips@, idx, did, pre.next_snip_id);
    assert(rows_ok(post.terms@, post.snips@)) by {
        lemma_rows_after_doc_delete(pre.terms@, post.terms@, pre.snips@, post.snips@, did);
    }
    assert(rows_ok(post.phrases@, post.snips@)) by {
        lemma_rows_after_doc_delete(pre.phrases@, post.phrases@, pre.snips@, post.snips@, did);
    }
    lemma_dd_nonempty(pre.docs@, post.docs@, pre.snips@, post.snips@, idx, did);
}

/// The snippet rows stay well formed when a document's snippets leave
/// with it.
proof fn lemma_dd_snips_ok(
    pre_docs: Seq<DocRow>,
    post_docs: Seq<DocRow>,
    pre_snips: Seq<SnipRow>,
    post_snips: Seq<SnipRow>,
    idx: int,
    did: i32,
    next_snip_id: i32,
)
    requires
        snips_ok(pre_docs, pre_snips, next_snip_id),
        docs_ok(pre_docs, i32::MAX),
        0 <= idx < pre_docs.len(),
        pre_docs[idx].id == did,
        post_docs == pre_docs.remove(idx),
        post_snips == snips_not_in_doc(pre_snips, did),
    ensures
        snips_ok(post_docs, post_snips, next_snip_id),
{
    lemma_snips_filter_props(pre_snips, did);
    assert(forall|j: int| 0 <= j < idx ==> (#[trigger] post_docs[j]) == pre_docs[j]);
    assert(forall|j: int|
        idx <= j < post_docs.len() ==> (#[trigger] post_docs[j]) == pre_docs[j + 1]);
    assert forall|a: int, b: int| 0 <= a < b < post_snips.len() implies (
    #[trigger] post_snips[a]).id != (#[trigger] post_snips[b]).id && !(post_snips[a].doc
        == post_snips[b].doc && post_snips[a].text@ == post_snips[b].text@) by {
        lemma_filter_embed_pair(pre_snips, did, a, b);
    }
    assert forall|a: int| 0 <= a < post_snips.len() implies 0 < (#[trigger] post_snips[a]).id
        < next_snip_id && has_doc_id(post_docs, post_snips[a].doc) by {
        let j = choose|j: int| 0 <= j < pre_snips.len() && post_snips[a] == pre_snips[j];
        assert(has_doc_id(pre_docs, pre_snips[j].doc));
        let w = choose|w: int|
            0 <= w < pre_docs.len() && (#[trigger] pre_docs[w]).id == pre_snips[j].doc;
        assert(post_snips[a].doc != did);
        assert(w != idx);
        if w < idx {
            assert(post_docs[w].id == post_snips[a].doc);
        } else {
            assert(post_docs[w - 1].id == post_snips[a].doc);
        }
    }
}

/// Every surviving document still owns a snippet after a document
/// deletion.
proof fn lemma_dd_nonempty(
    pre_docs: Seq<DocRow>,
    post_docs: Seq<DocRow>,
    pre_snips: Seq<SnipRow>,
    post_snips: Seq<SnipRow>,
    idx: int,
    did: i32,
)
    requires
        docs_nonempty(pre_docs, pre_snips),
        forall|i: int, j: int|
            0 <= i < j < pre_docs.len() ==> (#[trigger] pre_docs[i]).id != (
            #[trigger] pre_docs[j]).id,
        0 <= idx < pre_docs.len(),
        pre_docs[idx].id == did,
        post_docs == pre_docs.remove(idx),
        post_snips == snips_not_in_doc(pre_snips, did),
    ensures
        docs_nonempty(post_docs, post_snips),
{
    lemma_snips_filter_props(pre_snips, did);
    assert(forall|j: int| 0 <= j < idx ==> (#[trigger] post_docs[j]) == pre_docs[j]);
    assert(forall|j: int|
        idx <= j < post_docs.len() ==> (#[trigger] post_docs[j]) == pre_docs[j + 1]);
    assert forall|i: int| 0 <= i < post_docs.len() implies doc_has_snip(
        post_snips,
        (#[trigger] post_docs[i]).id,
    ) by {
        let gi = if i < idx {
            i
        } else {
            i + 1
        };
        assert(pre_docs[gi] == post_docs[i]);
        assert(gi != idx);
        assert(pre_docs[gi].id != pre_docs[idx].id);
        assert(doc_has_snip(pre_snips, pre_docs[gi].id));
        let j = choose|j: int|
            0 <= j < pre_snips.len() && (#[trigger] pre_snips[j]).doc == pre_docs[gi].id;
        assert(pre_snips[j].doc != did);
        let k = choose|k: int| 0 <= k < post_snips.len() && post_snips[k] == pre_snips[j];
        assert(post_snips[k].doc == post_docs[i].id);
    }
}

/// Two distinct positions of the filtered snippet list embed into two
/// distinct positions of the original.
proof fn lemma_filter_embed_pair(snips: Seq<SnipRow>, did: i32, a: int, b: int)
    requires
        0 <= a < b < snips_not_in_doc(snips, did).len(),
    ensures
        exists|i: int, j: int|
            0 <= i < j < snips.len() && snips_not_in_doc(snips, did)[a] == (#[trigger] snips[i])
                && snips_not_in_doc(snips, did)[b] == (#[trigger] snips[j]),
    decreases snips.len(),
{
    let out = snips_not_in_doc(snips, did);
    let rest = snips_not_in_doc(snips.drop_last(), did);
    if b < rest.len() {
        lemma_filter_embed_pair(snips.drop_last(), did, a, b);
        let (i, j) = choose|i: int, j: int|
            0 <= i < j < snips.drop_last().len() && rest[a] == (#[trigger] snips.drop_last()[i])
                && rest[b] == (#[trigger] snips.drop_last()[j]);
        assert(out[a] == snips[i] && out[b] == snips[j]);
    } else {
        assert(out[b] == snips[snips.len() - 1]);
        lemma_snips_filter_props(snips.drop_last(), did);
        let i = choose|i: int| 0 <= i < snips.drop_last().len() && rest[a] == snips.drop_last()[i];
        assert(out[a] == snips[i] && out[b] == snips[snips.len() - 1]);
    }
}

/// Surviving rows after a document deletion still point at surviving
/// snippets.
proof fn lemma_rows_after_doc_delete(
    old_rows: Seq<IndexRow>,
    new_rows: Seq<IndexRow>,
    old_snips: Seq<SnipRow>,
    new_snips: Seq<SnipRow>,
    did: i32,
)
    requires
        rows_ok(old_rows, old_snips),
        new_rows == rows_not_in_doc(old_rows, old_snips, did),
        new_snips == snips_not_in_doc(old_snips, did),
        forall|i: int, j: int|
            0 <= i < j < old_snips.len() ==> (#[trigger] old_snips[i]).id != (
            #[trigger] old_snips[j]).id,
    ensures
        rows_ok(new_rows, new_snips),
{
    lemma_rows_not_in_doc_props(old_rows, old_snips, did);
    lemma_snips_filter_props(old_snips, did);
    assert forall|i: int| 0 <= i < new_rows.len() implies has_snip_id(
        new_snips,
        (#[trigger] new_rows[i]).snip,
    ) by {
        let j = choose|j: int| 0 <= j < old_rows.len() && new_rows[i] == old_rows[j];
        assert(has_snip_id(old_snips, old_rows[j].snip));
        let w = choose|w: int|
            0 <= w < old_snips.len() && (#[trigger] old_snips[w]).id == old_rows[j].snip;
        assert(!snip_in_doc(old_snips, new_rows[i].snip, did));
        assert(old_snips[w].doc != did);
        let k = choose|k: int| 0 <= k < new_snips.len() && new_snips[k] == old_snips[w];
        assert(new_snips[k].id == new_rows[i].snip);
    }
}

} // verus!

verus! {

impl Store {
    /// Another snippet than the one at `idx` holds this text under this
    /// document.
    fn text_clash_exec(&self, idx: usize, doc: i32, text: &str) -> (r: bool)
        requires
            idx < self.snips@.len(),
        ensures
            r == text_clash(self.snips@, idx as int, doc, text@),
    {
        let mut i: usize = 0;
        while i < self.snips.len()
            invariant
                i <= self.snips@.len(),
                forall|j: int|
                    0 <= j < i ==> !(j != idx && (#[trigger] self.snips@[j]).doc == doc
                        && self.snips@[j].text@ == text@),
            decreases self.snips@.len() - i,
        {
            if i != idx && self.snips[i].doc == doc && self.snips[i].text.as_str().eq(text) {
                proof {
                    assert(self.snips@[i as int].doc == doc && self.snips@[i as int].text@
                        == text@);
                }
                return true;
            }
            i = i + 1;
        }
        false
    }

    /// Replace one snippet's text and its index rows. An unknown id
    /// fails with not-found; a text already standing under the same
    /// document fails with duplicate.
    pub fn update_snippet(&mut self, snippet_id: i32, new_snippet: &str, terms: &Vec<String>,
        phrases: &Vec<String>) -> (r: Result<(), StoreError>)
        requires
            old(self).wf(),
        ensures
            final (self).wf(),
            final (self).next_doc_id == old(self).next_doc_id,
            final (self).next_snip_id == old(self).next_snip_id,
            final (self).docs@ == old(self).docs@,
            ({
                let idx = snip_index_by_id(old(self).snips@, snippet_id);
                let found = has_snip_id(old(self).snips@, snippet_id);
                let clash = found && text_clash(
                    old(self).snips@,
                    idx,
                    old(self).snips@[idx].doc,
                    new_snippet@,
                );
                &&& (r is Ok <==> found && !clash)
                &&& (!found ==> r == Result::<(), StoreError>::Err(StoreError::NotFound))
                &&& (found && clash ==> r == Result::<(), StoreError>::Err(StoreError::Duplicate))
                &&& (r is Err ==> *final (self) == *old(self))
                &&& (r is Ok ==> final (self).snips@ == old(self).snips@.update(
                    idx,
                    final (self).snips@[idx],
                ) && final (self).snips@[idx].id == snippet_id && final (self).snips@[idx].doc
                    == old(self).snips@[idx].doc && final (self).snips@[idx].text@ == new_snippet@
                    && appended_rows(
                    rows_without_snip(old(self).terms@, snippet_id),
                    final (self).terms@,
                    dedup(views(terms@)),
                    snippet_id,
                ) && appended_rows(
                    rows_without_snip(old(self).phrases@, snippet_id),
                    final (self).phrases@,
                    dedup(views(phrases@)),
                    snippet_id,
                ))
            }),
    {
        let idx = match self.find_snip_by_id(snippet_id) {
            Some(i) => i,
            None => {
                return Err(StoreError::NotFound);
            },
        };
        let doc = self.snips[idx].doc;
        if self.text_clash_exec(idx, doc, new_snippet) {
            return Err(StoreError::Duplicate);
        }
        let row = SnipRow { id: snippet_id, text: new_snippet.to_owned(), doc };
        self.snips.set(idx, row);
        Self::remove_rows_of(&mut self.terms, snippet_id);
        Self::remove_rows_of(&mut self.phrases, snippet_id);
        proof {
            lemma_rows_without_props(old(self).terms@, snippet_id);
            lemma_rows_without_props(old(self).phrases@, snippet_id);
            assert(forall|j: int|
                0 <= j < self.snips@.len() && j != idx ==> (#[trigger] self.snips@[j]) == old(
                    self,
                ).snips@[j]);
            // ids are unchanged, so row references stay valid
            assert(rows_ok(self.terms@, self.snips@)) by {
                lemma_rows_update_snips(old(self).terms@, self.terms@, old(self).snips@,
                    self.snips@, idx as int, snippet_id);
            }
            assert(rows_ok(self.phrases@, self.snips@)) by {
                lemma_rows_update_snips(old(self).phrases@, self.phrases@, old(self).snips@,
                    self.snips@, idx as int, snippet_id);
            }
        }
        let ghost pre = *self;
        Self::insert_rows_into(&mut self.terms, terms, snippet_id);
        Self::insert_rows_into(&mut self.phrases, phrases, snippet_id);
        proof {
            crate::rake::lemma_dedup_props_pub(views(terms@));
            crate::rake::lemma_dedup_props_pub(views(phrases@));
            assert(has_snip_id(self.snips@, snippet_id)) by {
                assert(self.snips@[idx as int].id == snippet_id);
            }
            lemma_rows_without_props(old(self).terms@, snippet_id);
            lemma_rows_without_props(old(self).phrases@, snippet_id);
            lemma_rows_ok_extend(pre.terms@, self.terms@, dedup(views(terms@)), snippet_id,
                self.snips@);
            lemma_rows_ok_extend(pre.phrases@, self.phrases@, dedup(views(phrases@)), snippet_id,
                self.snips@);
            // snippet rows stay well formed: same ids, one text changed
            assert(snips_ok(self.docs@, self.snips@, self.next_snip_id)) by {
                assert(forall|j: int|
                    0 <= j < self.snips@.len() ==> (#[trigger] self.snips@[j]).id == old(
                        self,
                    ).snips@[j].id && self.snips@[j].doc == old(self).snips@[j].doc);
            }
            assert(docs_nonempty(self.docs@, self.snips@)) by {
                assert forall|i: int| 0 <= i < self.docs@.len() implies doc_has_snip(
                    self.snips@,
                    (#[trigger] self.docs@[i]).id,
                ) by {
                    let j = choose|j: int|
                        0 <= j < old(self).snips@.len() && (#[trigger] old(self).snips@[j]).doc
                            == self.docs@[i].id;
                    assert(self.snips@[j].doc == self.docs@[i].id);
                }
            }
        }
        Ok(())
    }

    /// Reassign one snippet to the named document without recomputing its
    /// index rows (a deliberate limitation: moves are custodial). A
    /// document left empty by the move is deleted. An unknown snippet id
    /// changes nothing.
    pub fn move_snippet(&mut self, snippet_id: i32, document_name: &str) -> (r: Result<
        (),
        StoreError,
    >)
        requires
            old(self).wf(),
        ensures
            final (self).wf(),
            final (self).next_doc_id == old(self).next_doc_id,
            final (self).next_snip_id == old(self).next_snip_id,
            final (self).terms@ == old(self).terms@,
            final (self).phrases@ == old(self).phrases@,
            !has_doc_name(old(self).docs@, document_name@) ==> r == Result::<
                (),
                StoreError,
            >::Err(StoreError::NotFound) && *final (self) == *old(self),
            has_doc_name(old(self).docs@, document_name@) && !has_snip_id(
                old(self).snips@,
                snippet_id,
            ) ==> r is Ok && *final (self) == *old(self),
            has_doc_name(old(self).docs@, document_name@) && has_snip_id(
                old(self).snips@,
                snippet_id,
            ) ==> ({
                let tid = old(self).docs@[doc_index_by_name(old(self).docs@, document_name@)].id;
                let idx = snip_index_by_id(old(self).snips@, snippet_id);
                let src = old(self).snips@[idx].doc;
                let clash = text_clash(old(self).snips@, idx, tid, old(self).snips@[idx].text@);
                &&& (clash ==> r == Result::<(), StoreError>::Err(StoreError::Duplicate) && *final (
                self) == *old(self))
                &&& (!clash ==> r is Ok && final (self).snips@ == old(self).snips@.update(
                    idx,
                    final (self).snips@[idx],
                ) && final (self).snips@[idx].id == snippet_id && final (self).snips@[idx].doc
                    == tid && final (self).snips@[idx].text@ == old(self).snips@[idx].text@ && (
                (src != tid && !doc_has_other_snip(old(self).snips@, idx, src)) ==> final (
                self).docs@ == old(self).docs@.remove(doc_index_by_id(old(self).docs@, src))) && (!(
                src != tid && !doc_has_other_snip(old(self).snips@, idx, src)) ==> final (
                self).docs@ == old(self).docs@))
            }),
    {
        let tix = match self.find_doc_by_name(document_name) {
            Some(i) => i,
            None => {
                return Err(StoreError::NotFound);
            },
        };
        let tid = self.docs[tix].id;
        let idx = match self.find_snip_by_id(snippet_id) {
            Some(i) => i,
            None => {
                return Ok(());
            },
        };
        let src = self.snips[idx].doc;
        let text = self.snips[idx].text.clone();
        if self.text_clash_exec(idx, tid, text.as_str()) {
            return Err(StoreError::Duplicate);
        }
        let row = SnipRow { id: snippet_id, text, doc: tid };
        self.snips.set(idx, row);
        proof {
            assert(forall|j: int|
                0 <= j < self.snips@.len() && j != idx ==> (#[trigger] self.snips@[j]) == old(
                    self,
                ).snips@[j]);
        }
        let mut src_empty: bool = src != tid;
        if src != tid {
            let mut k: usize = 0;
            while k < self.snips.len()
                invariant
                    k <= self.snips@.len(),
                    src_empty == !exists|j: int|
                        0 <= j < k && (#[trigger] self.snips@[j]).doc == src,
                decreases self.snips@.len() - k,
            {
                if self.snips[k].doc == src {
                    src_empty = false;
                    proof {
                        assert(self.snips@[k as int].doc == src);
                    }
                }
                k = k + 1;
            }
        }
        proof {
            if src != tid {
                assert(src_empty == !doc_has_other_snip(old(self).snips@, idx as int, src)) by {
                    if !src_empty {
                        let j = choose|j: int|
                            0 <= j < self.snips@.len() && (#[trigger] self.snips@[j]).doc == src;
                        assert(j != idx);
                        assert(old(self).snips@[j].doc == src);
                    }
                    if doc_has_other_snip(old(self).snips@, idx as int, src) {
                        let j = choose|j: int|
                            0 <= j < old(self).snips@.len() && j != idx && (#[trigger] old(
                                self,
                            ).snips@[j]).doc == src;
                        assert(self.snips@[j].doc == src);
                    }
                }
            }
        }
        if src_empty {
            proof {
                assert(has_doc_id(self.docs@, src)) by {
                    assert(has_doc_id(old(self).docs@, src));
                }
            }
            let dix = match self.find_doc_by_id(src) {
                Some(d) => d,
                None => {
                    proof {
                        assert(false);
                    }
                    0
                },
            };
            self.docs.remove(dix);
        }
        proof {
            lemma_move_wf(*old(self), *self, idx as int, src, tid, src_empty);
        }
        Ok(())
    }
}

/// Moving a snippet, possibly deleting its emptied source document,
/// keeps the store well formed.
proof fn lemma_move_wf(pre: Store, post: Store, idx: int, src: i32, tid: i32, src_empty: bool)
    requires
        pre.wf(),
        0 <= idx < pre.snips@.len(),
        pre.snips@[idx].doc == src,
        has_doc_id(pre.docs@, tid),
        post.snips@ == pre.snips@.update(idx, post.snips@[idx]),
        post.snips@[idx].id == pre.snips@[idx].id,
        post.snips@[idx].doc == tid,
        post.snips@[idx].text@ == pre.snips@[idx].text@,
        !text_clash(pre.snips@, idx, tid, pre.snips@[idx].text@),
        src_empty <==> (src != tid && !doc_has_other_snip(pre.snips@, idx, src)),
        src_empty ==> post.docs@ == pre.docs@.remove(doc_index_by_id(pre.docs@, src)) && 0
            <= doc_index_by_id(pre.docs@, src) < pre.docs@.len() && pre.docs@[doc_index_by_id(
            pre.docs@,
            src,
        )].id == src,
        !src_empty ==> post.docs@ == pre.docs@,
        post.terms@ == pre.terms@,
        post.phrases@ == pre.phrases@,
        post.next_doc_id == pre.next_doc_id,
        post.next_snip_id == pre.next_snip_id,
    ensures
        post.wf(),
{
    assert(forall|j: int|
        0 <= j < post.snips@.len() && j != idx ==> (#[trigger] post.snips@[j]) == pre.snips@[j]);
    let dx = if src_empty {
        doc_index_by_id(pre.docs@, src)
    } else {
        0
    };
    if src_empty {
        assert(forall|j: int| 0 <= j < dx ==> (#[trigger] post.docs@[j]) == pre.docs@[j]);
        assert(forall|j: int|
            dx <= j < post.docs@.len() ==> (#[trigger] post.docs@[j]) == pre.docs@[j + 1]);
    }
    assert(snips_ok(post.docs@, post.snips@, post.next_snip_id)) by {
        assert(forall|j: int|
            0 <= j < post.snips@.len() ==> (#[trigger] post.snips@[j]).id == pre.snips@[j].id);
        assert forall|a: int, b: int| 0 <= a < b < post.snips@.len() implies !((
        #[trigger] post.snips@[a]).doc == (#[trigger] post.snips@[b]).doc && post.snips@[a].text@
            == post.snips@[b].text@) by {
            if a == idx {
                assert(!(pre.snips@[b].doc == tid && pre.snips@[b].text@ == pre.snips@[idx].text@));
            } else if b == idx {
                assert(!(pre.snips@[a].doc == tid && pre.snips@[a].text@ == pre.snips@[idx].text@));
            }
        }
        assert forall|a: int| 0 <= a < post.snips@.len() implies has_doc_id(
            post.docs@,
            (#[trigger] post.snips@[a]).doc,
        ) by {
            let d = post.snips@[a].doc;
            if a == idx {
                assert(has_doc_id(pre.docs@, tid));
                let w = choose|w: int|
                    0 <= w < pre.docs@.len() && (#[trigger] pre.docs@[w]).id == tid;
                if src_empty {
                    assert(pre.docs@[dx].id == src && src != tid);
                    assert(w != dx);
                    if w < dx {
                        assert(post.docs@[w].id == tid);
                    } else {
                        assert(post.docs@[w - 1].id == tid);
                    }
                } else {
                    assert(post.docs@[w].id == tid);
                }
            } else {
                assert(pre.snips@[a].doc == d);
                assert(has_doc_id(pre.docs@, d));
                let w = choose|w: int| 0 <= w < pre.docs@.len() && (#[trigger] pre.docs@[w]).id == d;
                if src_empty {
                    assert(pre.snips@[a].doc != src) by {
                        if pre.snips@[a].doc == src {
                            assert(doc_has_other_snip(pre.snips@, idx, src));
                        }
                    }
                    assert(pre.docs@[dx].id == src);
                    assert(w != dx);
                    if w < dx {
                        assert(post.docs@[w].id == d);
                    } else {
                        assert(post.docs@[w - 1].id == d);
                    }
                } else {
                    assert(post.docs@[w].id == d);
                }
            }
        }
    }
    assert(rows_ok(post.terms@, post.snips@)) by {
        assert(forall|j: int|
            0 <= j < post.snips@.len() ==> (#[trigger] post.snips@[j]).id == pre.snips@[j].id);
        assert forall|i: int| 0 <= i < post.terms@.len() implies has_snip_id(
            post.snips@,
            (#[trigger] post.terms@[i]).snip,
        ) by {
            let w = choose|w: int|
                0 <= w < pre.snips@.len() && (#[trigger] pre.snips@[w]).id == pre.terms@[i].snip;
            assert(post.snips@[w].id == post.terms@[i].snip);
        }
    }
    assert(rows_ok(post.phrases@, post.snips@)) by {
        assert(forall|j: int|
            0 <= j < post.snips@.len() ==> (#[trigger] post.snips@[j]).id == pre.snips@[j].id);
        assert forall|i: int| 0 <= i < post.phrases@.len() implies has_snip_id(
            post.snips@,
            (#[trigger] post.phrases@[i]).snip,
        ) by {
            let w = choose|w: int|
                0 <= w < pre.snips@.len() && (#[trigger] pre.snips@[w]).id == pre.phrases@[i].snip;
            assert(post.snips@[w].id == post.phrases@[i].snip);
        }
    }
    assert(docs_nonempty(post.docs@, post.snips@)) by {
        assert forall|i: int| 0 <= i < post.docs@.len() implies doc_has_snip(
            post.snips@,
            (#[trigger] post.docs@[i]).id,
        ) by {
            let gi = if src_empty && i >= dx {
                i + 1
            } else {
                i
            };
            assert(pre.docs@[gi] == post.docs@[i]);
            if pre.docs@[gi].id == tid {
                assert(post.snips@[idx].doc == tid);
            } else {
                assert(doc_has_snip(pre.snips@, pre.docs@[gi].id));
                let j = choose|j: int|
                    0 <= j < pre.snips@.len() && (#[trigger] pre.snips@[j]).doc
                        == pre.docs@[gi].id;
                if j != idx {
                    assert(post.snips@[j].doc == post.docs@[i].id);
                } else {
                    // the moved snippet was the document's only one, and
                    // that document is the source, which is gone
                    assert(pre.docs@[gi].id == src);
                    if src_empty {
                        assert(gi != dx);
                        assert(pre.docs@[gi].id != pre.docs@[dx].id);
                        assert(false);
                    } else {
                        if src != tid {
                            let j2 = choose|j2: int|
                                0 <= j2 < pre.snips@.len() && j2 != idx && (
                                #[trigger] pre.snips@[j2]).doc == src;
                            assert(post.snips@[j2].doc == post.docs@[i].id);
                        } else {
                            assert(false);
                        }
                    }
                }
            }
        }
    }
}

} // verus!

verus! {

/// Rows surviving a snippet-row removal still reference a snippet list
/// whose ids are unchanged by an in-place update.
proof fn lemma_rows_update_snips(
    old_rows: Seq<IndexRow>,
    new_rows: Seq<IndexRow>,
    old_snips: Seq<SnipRow>,
    new_snips: Seq<SnipRow>,
    idx: int,
    snip_id: i32,
)
    requires
        rows_ok(old_rows, old_snips),
        new_rows == rows_without_snip(old_rows, snip_id),
        new_snips.len() == old_snips.len(),
        forall|j: int|
            0 <= j < old_snips.len() ==> (#[trigger] new_snips[j]).id == old_snips[j].id,
    ensures
        rows_ok(new_rows, new_snips),
{
    lemma_rows_without_props(old_rows, snip_id);
    assert forall|i: int| 0 <= i < new_rows.len() implies has_snip_id(
        new_snips,
        (#[trigger] new_rows[i]).snip,
    ) by {
        let j = choose|j: int| 0 <= j < old_rows.len() && new_rows[i] == old_rows[j];
        assert(has_snip_id(old_snips, old_rows[j].snip));
        let w = choose|w: int|
            0 <= w < old_snips.len() && (#[trigger] old_snips[w]).id == old_rows[j].snip;
        assert(new_snips[w].id == new_rows[i].snip);
    }
}

} // verus!

verus! {

/// The texts of one document's snippets, in storage order.
pub open spec fn texts_of_doc(snips: Seq<SnipRow>, did: i32) -> Seq<Seq<char>>
    decreases snips.len(),
{
    if snips.len() == 0 {
        Seq::empty()
    } else {
        let rest = texts_of_doc(snips.drop_last(), did);
        if snips.last().doc == did {
            rest.push(snips.last().text@)
        } else {
            rest
        }
    }
}

/// Snippet texts joined into one document text, two line breaks between.
pub open spec fn join_texts(ts: Seq<Seq<char>>) -> Seq<char>
    decreases ts.len(),
{
    if ts.len() == 0 {
        Seq::empty()
    } else if ts.len() == 1 {
        ts[0]
    } else {
        join_texts(ts.drop_last()) + seq!['\n', '\n'] + ts.last()
    }
}

impl Store {
    /// Mark the named document, clearing any earlier mark; an unknown
    /// name leaves every document unmarked.
    pub fn set_marked_document(&mut self, document_name: &str)
        requires
            old(self).wf(),
        ensures
            final (self).wf(),
            final (self).snips@ == old(self).snips@,
            final (self).terms@ == old(self).terms@,
            final (self).phrases@ == old(self).phrases@,
            final (self).next_doc_id == old(self).next_doc_id,
            final (self).next_snip_id == old(self).next_snip_id,
            final (self).docs@.len() == old(self).docs@.len(),
            forall|i: int|
                0 <= i < old(self).docs@.len() ==> {
                    let o = old(self).docs@[i];
                    let n = (#[trigger] final (self).docs@[i]);
                    n.id == o.id && n.name@ == o.name@ && n.latest == o.latest && (n.marked <==> (
                    o.name@ == document_name@))
                },
    {
        let ghost docs0 = self.docs@;
        let mut out: Vec<DocRow> = Vec::new();
        let mut i: usize = 0;
        while i < self.docs.len()
            invariant
                i <= docs0.len(),
                self.docs@ == docs0,
                out@.len() == i,
                forall|j: int|
                    0 <= j < i ==> {
                        let o = docs0[j];
                        let n = (#[trigger] out@[j]);
                        n.id == o.id && n.name@ == o.name@ && n.latest == o.latest && (n.marked
                            <==> (o.name@ == document_name@))
                    },
            decreases docs0.len() - i,
        {
            let marked = self.docs[i].name.as_str().eq(document_name);
            let id = self.docs[i].id;
            let name = self.docs[i].name.clone();
            let latest = self.docs[i].latest;
            out.push(DocRow { id, name, marked, latest });
            i = i + 1;
        }
        self.docs = out;
        proof {
            lemma_reflag_wf(docs0, self.docs@, *old(self), *self);
        }
    }

    /// Flag the named document as the most recently written one,
    /// clearing the earlier flag; an unknown name clears it everywhere.
    pub fn set_latest_document(&mut self, document_name: &str)
        requires
            old(self).wf(),
        ensures
            final (self).wf(),
            final (self).snips@ == old(self).snips@,
            final (self).terms@ == old(self).terms@,
            final (self).phrases@ == old(self).phrases@,
            final (self).next_doc_id == old(self).next_doc_id,
            final (self).next_snip_id == old(self).next_snip_id,
            final (self).docs@.len() == old(self).docs@.len(),
            forall|i: int|
                0 <= i < old(self).docs@.len() ==> {
                    let o = old(self).docs@[i];
                    let n = (#[trigger] final (self).docs@[i]);
                    n.id == o.id && n.name@ == o.name@ && n.marked == o.marked && (n.latest <==> (
                    o.name@ == document_name@))
                },
    {
        let ghost docs0 = self.docs@;
        let mut out: Vec<DocRow> = Vec::new();
        let mut i: usize = 0;
        while i < self.docs.len()
            invariant
                i <= docs0.len(),
                self.docs@ == docs0,
                out@.len() == i,
                forall|j: int|
                    0 <= j < i ==> {
                        let o = docs0[j];
                        let n = (#[trigger] out@[j]);
                        n.id == o.id && n.name@ == o.name@ && n.marked == o.marked && (n.latest
                            <==> (o.name@ == document_name@))
                    },
            decreases docs0.len() - i,
        {
            let latest = self.docs[i].name.as_str().eq(document_name);
            let id = self.docs[i].id;
            let name = self.docs[i].name.clone();
            let marked = self.docs[i].marked;
            out.push(DocRow { id, name, marked, latest });
            i = i + 1;
        }
        self.docs = out;
        proof {
            lemma_reflag_wf(docs0, self.docs@, *old(self), *self);
        }
    }

    /// The name of the marked document, if one is marked.
    pub fn fetch_marked_document(&self) -> (r: Option<String>)
        ensures
            r is Some <==> exists|i: int|
                0 <= i < self.docs@.len() && (#[trigger] self.docs@[i]).marked,
            r is Some ==> exists|i: int|
                0 <= i < self.docs@.len() && (#[trigger] self.docs@[i]).marked
                    && self.docs@[i].name@ == r->0@,
    {
        let mut i: usize = 0;
        while i < self.docs.len()
            invariant
                i <= self.docs@.len(),
                forall|j: int| 0 <= j < i ==> !(#[trigger] self.docs@[j]).marked,
            decreases self.docs@.len() - i,
        {
            if self.docs[i].marked {
                proof {
                    assert(self.docs@[i as int].marked);
                }
                return Some(self.docs[i].name.clone());
            }
            i = i + 1;
        }
        None
    }

    /// The name of the most recently written document, if one is
    /// flagged.
    pub fn fetch_latest_document(&self) -> (r: Option<String>)
        ensures
            r is Some <==> exists|i: int|
                0 <= i < self.docs@.len() && (#[trigger] self.docs@[i]).latest,
            r is Some ==> exists|i: int|
                0 <= i < self.docs@.len() && (#[trigger] self.docs@[i]).latest
                    && self.docs@[i].name@ == r->0@,
    {
        let mut i: usize = 0;
        while i < self.docs.len()
            invariant
                i <= self.docs@.len(),
                forall|j: int| 0 <= j < i ==> !(#[trigger] self.docs@[j]).latest,
            decreases self.docs@.len() - i,
        {
            if self.docs[i].latest {
                proof {
                    assert(self.docs@[i as int].latest);
                }
                return Some(self.docs[i].name.clone());
            }
            i = i + 1;
        }
        None
    }

    /// One document with its snippets and their ids, or nothing for an
    /// unknown name.
    pub fn fetch_document(&self, document_name: &str) -> (r: Option<DocumentSnippets>)
        requires
            self.wf(),
        ensures
            r is Some <==> has_doc_name(self.docs@, document_name@),
            r is Some ==> ({
                let did = self.docs@[doc_index_by_name(self.docs@, document_name@)].id;
                let rows = snips_of_doc(self.snips@, did);
                &&& r->0.document_id == did
                &&& r->0.document_name@ == document_name@
                &&& r->0.snippets@.len() == rows.len()
                &&& forall|j: int|
                    0 <= j < rows.len() ==> (#[trigger] r->0.snippets@[j]).snippet_id == rows[j].id
                        && r->0.snippets@[j].snippet@ == rows[j].text@
            }),
    {
        let idx = match self.find_doc_by_name(document_name) {
            Some(i) => i,
            None => {
                return None;
            },
        };
        let did = self.docs[idx].id;
        let mut entries: Vec<SnippetEntry> = Vec::new();
        let mut i: usize = 0;
        proof {
            assert(self.snips@.subrange(0, 0) =~= Seq::<SnipRow>::empty());
        }
        while i < self.snips.len()
            invariant
                i <= self.snips@.len(),
                entries@.len() == snips_of_doc(self.snips@.subrange(0, i as int), did).len(),
                forall|j: int|
                    0 <= j < entries@.len() ==> (#[trigger] entries@[j]).snippet_id
                        == snips_of_doc(self.snips@.subrange(0, i as int), did)[j].id
                        && entries@[j].snippet@ == snips_of_doc(
                        self.snips@.subrange(0, i as int),
                        did,
                    )[j].text@,
            decreases self.snips@.len() - i,
        {
            proof {
                assert(self.snips@.subrange(0, i as int + 1).drop_last() =~= self.snips@.subrange(
                    0,
                    i as int,
                ));
                assert(self.snips@.subrange(0, i as int + 1).last() == self.snips@[i as int]);
            }
            if self.snips[i].doc == did {
                let snippet_id = self.snips[i].id;
                let snippet = self.snips[i].text.clone();
                entries.push(SnippetEntry { snippet_id, snippet });
            }
            i = i + 1;
        }
        proof {
            assert(self.snips@.subrange(0, self.snips@.len() as int) =~= self.snips@);
        }
        Some(
            DocumentSnippets {
                document_id: did,
                document_name: document_name.to_owned(),
                snippets: entries,
            },
        )
    }

    /// The joined snippet rows of one document; an unknown id gives an
    /// empty list.
    pub fn load_snippets(&self, document_id: i32) -> (r: Vec<Snippet>)
        requires
            self.wf(),
        ensures
            r@.len() == snips_of_doc(self.snips@, document_id).len(),
            forall|j: int|
                0 <= j < r@.len() ==> {
                    let row = snips_of_doc(self.snips@, document_id)[j];
                    &&& (#[trigger] r@[j]).snippet_id == row.id
                    &&& r@[j].snippet@ == row.text@
                    &&& r@[j].document_id == document_id
                },
            has_doc_id(self.docs@, document_id) ==> forall|j: int|
                0 <= j < r@.len() ==> (#[trigger] r@[j]).document_name@
                    == self.docs@[doc_index_by_id(self.docs@, document_id)].name@,
    {
        let name: String = match self.find_doc_by_id(document_id) {
            Some(d) => self.docs[d].name.clone(),
            None => String::new(),
        };
        let mut out: Vec<Snippet> = Vec::new();
        let mut i: usize = 0;
        proof {
            assert(self.snips@.subrange(0, 0) =~= Seq::<SnipRow>::empty());
        }
        while i < self.snips.len()
            invariant
                i <= self.snips@.len(),
                out@.len() == snips_of_doc(self.snips@.subrange(0, i as int), document_id).len(),
                forall|j: int|
                    0 <= j < out@.len() ==> {
                        let row = snips_of_doc(self.snips@.subrange(0, i as int), document_id)[j];
                        &&& (#[trigger] out@[j]).snippet_id == row.id
                        &&& out@[j].snippet@ == row.text@
                        &&& out@[j].document_id == document_id
                        &&& out@[j].document_name@ == name@
                    },
            decreases self.snips@.len() - i,
        {
            proof {
                assert(self.snips@.subrange(0, i as int + 1).drop_last() =~= self.snips@.subrange(
                    0,
                    i as int,
                ));
                assert(self.snips@.subrange(0, i as int + 1).last() == self.snips@[i as int]);
            }
            if self.snips[i].doc == document_id {
                let snippet_id = self.snips[i].id;
                let snippet = self.snips[i].text.clone();
                let document_name = name.clone();
                out.push(Snippet { snippet_id, snippet, document_id, document_name });
            }
            i = i + 1;
        }
        proof {
            assert(self.snips@.subrange(0, self.snips@.len() as int) =~= self.snips@);
        }
        out
    }
}

/// Rewriting only the flags of the document rows keeps the store well
/// formed, provided at most one row matched the flagged name.
proof fn lemma_reflag_wf(docs0: Seq<DocRow>, docs1: Seq<DocRow>, pre: Store, post: Store)
    requires
        pre.wf(),
        pre.docs@ == docs0,
        post.docs@ == docs1,
        docs1.len() == docs0.len(),
        forall|i: int|
            0 <= i < docs0.len() ==> (#[trigger] docs1[i]).id == docs0[i].id && docs1[i].name@
                == docs0[i].name@,
        forall|i: int, j: int|
            0 <= i < j < docs1.len() ==> !((#[trigger] docs1[i]).marked && (
            #[trigger] docs1[j]).marked) || docs0[i].name@ == docs0[j].name@,
        forall|i: int, j: int|
            0 <= i < j < docs1.len() ==> !((#[trigger] docs1[i]).latest && (
            #[trigger] docs1[j]).latest) || docs0[i].name@ == docs0[j].name@,
        post.snips@ == pre.snips@,
        post.terms@ == pre.terms@,
        post.phrases@ == pre.phrases@,
        post.next_doc_id == pre.next_doc_id,
        post.next_snip_id == pre.next_snip_id,
    ensures
        post.wf(),
{
    assert(docs_ok(post.docs@, post.next_doc_id));
    assert(flags_ok(post.docs@));
    assert(snips_ok(post.docs@, post.snips@, post.next_snip_id)) by {
        assert forall|i: int| 0 <= i < post.snips@.len() implies has_doc_id(
            post.docs@,
            (#[trigger] post.snips@[i]).doc,
        ) by {
            let w = choose|w: int|
                0 <= w < docs0.len() && (#[trigger] docs0[w]).id == post.snips@[i].doc;
            assert(docs1[w].id == post.snips@[i].doc);
        }
    }
    assert(docs_nonempty(post.docs@, post.snips@)) by {
        assert forall|i: int| 0 <= i < post.docs@.len() implies doc_has_snip(
            post.snips@,
            (#[trigger] post.docs@[i]).id,
        ) by {
            assert(doc_has_snip(pre.snips@, docs0[i].id));
        }
    }
}

} // verus!

verus! {

impl Store {
    /// The corpus as snippet texts: one entry per document, each with its
    /// snippets in storage order.
    pub fn load_corpus_snippets(&self) -> (r: crate::preprocess::CorpusSnippets)
        requires
            self.wf(),
        ensures
            r@.len() == self.docs@.len(),
            forall|i: int|
                0 <= i < r@.len() ==> (#[trigger] r@[i]).0@ == self.docs@[i].name@ && views(
                    r@[i].1@,
                ) == texts_of_doc(self.snips@, self.docs@[i].id),
    {
        let mut r: crate::preprocess::CorpusSnippets = Vec::new();
        let mut i: usize = 0;
        while i < self.docs.len()
            invariant
                i <= self.docs@.len(),
                r@.len() == i,
                forall|j: int|
                    0 <= j < i ==> (#[trigger] r@[j]).0@ == self.docs@[j].name@ && views(r@[j].1@)
                        == texts_of_doc(self.snips@, self.docs@[j].id),
            decreases self.docs@.len() - i,
        {
            let did = self.docs[i].id;
            let mut texts: Vec<String> = Vec::new();
            let mut k: usize = 0;
            proof {
                assert(self.snips@.subrange(0, 0) =~= Seq::<SnipRow>::empty());
                assert(views(texts@) =~= Seq::<Seq<char>>::empty());
            }
            while k < self.snips.len()
                invariant
                    k <= self.snips@.len(),
                    views(texts@) == texts_of_doc(self.snips@.subrange(0, k as int), did),
                decreases self.snips@.len() - k,
            {
                proof {
                    assert(self.snips@.subrange(0, k as int + 1).drop_last()
                        =~= self.snips@.subrange(0, k as int));
                    assert(self.snips@.subrange(0, k as int + 1).last() == self.snips@[k as int]);
                }
                if self.snips[k].doc == did {
                    let ghost old_texts = texts@;
                    let t = self.snips[k].text.clone();
                    texts.push(t);
                    proof {
                        crate::preprocess::lemma_views_push(old_texts, self.snips@[k as int].text);
                    }
                }
                k = k + 1;
            }
            proof {
                assert(self.snips@.subrange(0, self.snips@.len() as int) =~= self.snips@);
            }
            let name = self.docs[i].name.clone();
            r.push((name, texts));
            i = i + 1;
        }
        r
    }

    /// The corpus as raw text: one entry per document, its snippets
    /// joined with blank lines.
    pub fn load_corpus(&self) -> (r: crate::preprocess::Corpus)
        requires
            self.wf(),
        ensures
            r@.len() == self.docs@.len(),
            forall|i: int|
                0 <= i < r@.len() ==> (#[trigger] r@[i]).0@ == self.docs@[i].name@ && r@[i].1@
                    == join_texts(texts_of_doc(self.snips@, self.docs@[i].id)),
    {
        let grouped = self.load_corpus_snippets();
        let mut r: crate::preprocess::Corpus = Vec::new();
        let mut i: usize = 0;
        while i < grouped.len()
            invariant
                i <= grouped@.len(),
                r@.len() == i,
                grouped@.len() == self.docs@.len(),
                forall|j: int|
                    0 <= j < grouped@.len() ==> (#[trigger] grouped@[j]).0@ == self.docs@[j].name@
                        && views(grouped@[j].1@) == texts_of_doc(self.snips@, self.docs@[j].id),
                forall|j: int|
                    0 <= j < i ==> (#[trigger] r@[j]).0@ == self.docs@[j].name@ && r@[j].1@
                        == join_texts(texts_of_doc(self.snips@, self.docs@[j].id)),
            decreases grouped@.len() - i,
        {
            let texts: &Vec<String> = &grouped[i].1;
            let ghost tviews = views(texts@);
            let mut chars: Vec<char> = Vec::new();
            let mut k: usize = 0;
            proof {
                assert(tviews.subrange(0, 0) =~= Seq::<Seq<char>>::empty());
                assert(chars@ =~= join_texts(tviews.subrange(0, 0)));
            }
            while k < texts.len()
                invariant
                    k <= texts@.len(),
                    tviews == views(texts@),
                    chars@ == join_texts(tviews.subrange(0, k as int)),
                decreases texts@.len() - k,
            {
                if k > 0 {
                    chars.push('\n');
                    chars.push('\n');
                }
                let tc = crate::preprocess::char_vec(texts[k].as_str());
                let mut q: usize = 0;
                let ghost mid = chars@;
                while q < tc.len()
                    invariant
                        q <= tc@.len(),
                        tc@ == texts@[k as int]@,
                        chars@ == mid + tc@.subrange(0, q as int),
                    decreases tc@.len() - q,
                {
                    chars.push(tc[q]);
                    proof {
                        assert(chars@ =~= mid + tc@.subrange(0, q as int + 1));
                    }
                    q = q + 1;
                }
                proof {
                    assert(tc@.subrange(0, tc@.len() as int) =~= tc@);
                    let pre = tviews.subrange(0, k as int + 1);
                    assert(pre.drop_last() =~= tviews.subrange(0, k as int));
                    assert(pre.last() == tviews[k as int]);
                    assert(tviews[k as int] == texts@[k as int]@);
                    if k == 0 {
                        assert(chars@ =~= join_texts(pre));
                    } else {
                        assert(chars@ =~= join_texts(tviews.subrange(0, k as int)) + seq![
                            '\n',
                            '\n',
                        ] + tviews[k as int]);
                        assert(chars@ == join_texts(pre));
                    }
                }
                k = k + 1;
            }
            proof {
                assert(tviews.subrange(0, tviews.len() as int) =~= tviews);
            }
            let joined = crate::preprocess::string_of(&chars);
            let name = grouped[i].0.clone();
            r.push((name, joined));
            i = i + 1;
        }
        r
    }

    /// The per-document term lists, rebuilt from the term index.
    pub fn load_corpus_terms(&self) -> (r: crate::preprocess::CorpusSnippets)
        requires
            self.wf(),
        ensures
            r@.len() == self.docs@.len(),
            forall|i: int|
                0 <= i < r@.len() ==> (#[trigger] r@[i]).0@ == self.docs@[i].name@ && views(
                    r@[i].1@,
                ) == keys_of_doc(self.terms@, self.snips@, self.docs@[i].id),
    {
        let mut r: crate::preprocess::CorpusSnippets = Vec::new();
        let mut i: usize = 0;
        while i < self.docs.len()
            invariant
                i <= self.docs@.len(),
                r@.len() == i,
                forall|j: int|
                    0 <= j < i ==> (#[trigger] r@[j]).0@ == self.docs@[j].name@ && views(r@[j].1@)
                        == keys_of_doc(self.terms@, self.snips@, self.docs@[j].id),
            decreases self.docs@.len() - i,
        {
            let did = self.docs[i].id;
            let keys = self.doc_keys(&self.terms, did);
            let name = self.docs[i].name.clone();
            r.push((name, keys));
            i = i + 1;
        }
        r
    }

    /// The per-document phrase lists, rebuilt from the phrase index.
    pub fn load_corpus_phrases(&self) -> (r: crate::preprocess::CorpusSnippets)
        requires
            self.wf(),
        ensures
            r@.len() == self.docs@.len(),
            forall|i: int|
                0 <= i < r@.len() ==> (#[trigger] r@[i]).0@ == self.docs@[i].name@ && views(
                    r@[i].1@,
                ) == keys_of_doc(self.phrases@, self.snips@, self.docs@[i].id),
    {
        let mut r: crate::preprocess::CorpusSnippets = Vec::new();
        let mut i: usize = 0;
        while i < self.docs.len()
            invariant
                i <= self.docs@.len(),
                r@.len() == i,
                forall|j: int|
                    0 <= j < i ==> (#[trigger] r@[j]).0@ == self.docs@[j].name@ && views(r@[j].1@)
                        == keys_of_doc(self.phrases@, self.snips@, self.docs@[j].id),
            decreases self.docs@.len() - i,
        {
            let did = self.docs[i].id;
            let keys = self.doc_keys(&self.phrases, did);
            let name = self.docs[i].name.clone();
            r.push((name, keys));
            i = i + 1;
        }
        r
    }

    /// One document's keys from one index table, in row order.
    fn doc_keys(&self, rows: &Vec<IndexRow>, did: i32) -> (r: Vec<String>)
        ensures
            views(r@) == keys_of_doc(rows@, self.snips@, did),
    {
        let mut r: Vec<String> = Vec::new();
        let mut k: usize = 0;
        proof {
            assert(rows@.subrange(0, 0) =~= Seq::<IndexRow>::empty());
            assert(views(r@) =~= Seq::<Seq<char>>::empty());
        }
        while k < rows.len()
            invariant
                k <= rows@.len(),
                views(r@) == keys_of_doc(rows@.subrange(0, k as int), self.snips@, did),
            decreases rows@.len() - k,
        {
            proof {
                assert(rows@.subrange(0, k as int + 1).drop_last() =~= rows@.subrange(0, k as int));
                assert(rows@.subrange(0, k as int + 1).last() == rows@[k as int]);
            }
            if self.snip_in_doc_exec(rows[k].snip, did) {
                let ghost old_r = r@;
                let key = rows[k].key.clone();
                r.push(key);
                proof {
                    crate::preprocess::lemma_views_push(old_r, rows@[k as int].key);
                }
            }
            k = k + 1;
        }
        proof {
            assert(rows@.subrange(0, rows@.len() as int) =~= rows@);
        }
        r
    }
}

} // verus!

verus! {

/// A document draws at most one key from each index row.
pub proof fn lemma_keys_of_doc_len(rows: Seq<IndexRow>, snips: Seq<SnipRow>, did: i32)
    ensures
        keys_of_doc(rows, snips, did).len() <= rows.len(),
    decreases rows.len(),
{
    if rows.len() > 0 {
        lemma_keys_of_doc_len(rows.drop_last(), snips, did);
    }
}

} // verus!
