//! The filing policy: where a submitted snippet goes.
//!
//! An empty snippet is a no-op. An explicit title files under that title,
//! creating the document if needed. Without a title, a marked document
//! takes the snippet unconditionally. Otherwise the snippet is scored
//! against the corpus: the best candidate at or above the threshold takes
//! it, and below the threshold a new document named after the snippet's
//! first line is created. Whatever receives the snippet becomes the
//! latest document.
//!
//! A submission holds the store exclusively for the whole load, score,
//! decide and mutate sequence, so no stale ranking can slip in between.

use crate::preprocess::{
    first_line, rake_phrases, tfidf_terms, trim_view, views,
};
use crate::rake::{dedup, rake_keys, rake_score, words_of, RAKE_SCORE_MAX, RAKE_TOKEN_LIMIT};
use crate::scores::{keys_of, score_of, ScoreEntry};
use crate::similarity::{scan_best, COSINE_SCORE_LIMIT, JACCARD_SCORE_LIMIT, KEY_COUNT_LIMIT};
use crate::store::{
    appended_rows, doc_index_by_name, has_doc_name, has_snip_id, has_snip_text, keys_of_doc,
    Store, StoreError,
};
use crate::tf_idf::{vector_score, vocab, TFIDF_SCORE_MAX};
use crate::Config;
use vstd::prelude::*;

verus! {

/// Some document is marked.
pub open spec fn has_marked(docs: Seq<crate::store::DocRow>) -> bool {
    exists|i: int| 0 <= i < docs.len() && (#[trigger] docs[i]).marked
}

/// The first marked document's position, or minus one.
pub open spec fn marked_index(docs: Seq<crate::store::DocRow>) -> int
    decreases docs.len(),
{
    if docs.len() == 0 {
        -1
    } else if docs[0].marked {
        0
    } else {
        let r = marked_index(docs.drop_first());
        if r == -1 {
            -1
        } else {
            r + 1
        }
    }
}

/// The store after filing `text` under `name` and flagging `name` as
/// latest: what `add_document` followed by `set_latest_document` leaves.
pub open spec fn filed(
    pre: Store,
    post: Store,
    name: Seq<char>,
    text: Seq<char>,
    stops: Seq<String>,
    rid: int,
) -> bool {
    let existed = has_doc_name(pre.docs@, name);
    let did = if existed {
        pre.docs@[doc_index_by_name(pre.docs@, name)].id as int
    } else {
        pre.next_doc_id as int
    };
    let inserted = !has_snip_text(pre.snips@, did as i32, text);
    &&& rid == did
    &&& post.docs@.len() == pre.docs@.len() + (if existed {
        0int
    } else {
        1int
    })
    &&& forall|i: int|
        0 <= i < pre.docs@.len() ==> {
            let o = pre.docs@[i];
            let n = (#[trigger] post.docs@[i]);
            n.id == o.id && n.name@ == o.name@ && n.marked == o.marked && (n.latest <==> o.name@
                == name)
        }
    &&& (!existed ==> post.docs@.last().id == pre.next_doc_id && post.docs@.last().name@ == name
        && !post.docs@.last().marked && post.docs@.last().latest && post.next_doc_id
        == pre.next_doc_id + 1)
    &&& (existed ==> post.next_doc_id == pre.next_doc_id)
    &&& (!existed ==> inserted)
    &&& (inserted ==> post.snips@ == pre.snips@.push(post.snips@.last())
        && post.snips@.last().id == pre.next_snip_id && post.snips@.last().text@ == text
        && post.snips@.last().doc as int == did && post.next_snip_id == pre.next_snip_id + 1
        && appended_rows(pre.terms@, post.terms@, dedup(tfidf_terms(text, stops)), pre.next_snip_id)
        && appended_rows(
        pre.phrases@,
        post.phrases@,
        dedup(rake_phrases(text, stops)),
        pre.next_snip_id,
    ))
    &&& (!inserted ==> post.snips@ == pre.snips@ && post.terms@ == pre.terms@ && post.phrases@
        == pre.phrases@ && post.next_snip_id == pre.next_snip_id)
}

/// The loaded per-document term lists match the store's term index.
pub open spec fn terms_loaded(ct: Seq<(String, Vec<String>)>, s: Store) -> bool {
    &&& ct.len() == s.docs@.len()
    &&& forall|i: int|
        0 <= i < ct.len() ==> (#[trigger] ct[i]).0@ == s.docs@[i].name@ && views(ct[i].1@)
            == keys_of_doc(s.terms@, s.snips@, s.docs@[i].id)
}

/// The loaded per-document phrase lists match the store's phrase index.
pub open spec fn phrases_loaded(cp: Seq<(String, Vec<String>)>, s: Store) -> bool {
    &&& cp.len() == s.docs@.len()
    &&& forall|i: int|
        0 <= i < cp.len() ==> (#[trigger] cp[i]).0@ == s.docs@[i].name@ && views(cp[i].1@)
            == keys_of_doc(s.phrases@, s.snips@, s.docs@[i].id)
}

/// The per-document TF-IDF vectors over the loaded corpus.
pub open spec fn tf_maps(ctf: Seq<(String, Vec<ScoreEntry>)>, ct: Seq<(String, Vec<String>)>) -> bool {
    &&& ctf.len() == ct.len()
    &&& forall|i: int|
        0 <= i < ctf.len() ==> (#[trigger] ctf[i]).0@ == ct[i].0@ && keys_of(ctf[i].1@) == vocab(
            ct,
        ) && (forall|q: Seq<char>| score_of(ctf[i].1@, q) == vector_score(views(ct[i].1@), ct, q))
}

/// The input's TF-IDF vector over the loaded corpus.
pub open spec fn input_tf_map(
    itf: Seq<ScoreEntry>,
    ct: Seq<(String, Vec<String>)>,
    text: Seq<char>,
    stops: Seq<String>,
) -> bool {
    &&& keys_of(itf) == vocab(ct)
    &&& forall|q: Seq<char>| score_of(itf, q) == vector_score(tfidf_terms(text, stops), ct, q)
}

/// The per-document RAKE maps over the loaded corpus.
pub open spec fn rake_maps(crk: Seq<(String, Vec<ScoreEntry>)>, cp: Seq<(String, Vec<String>)>) -> bool {
    &&& crk.len() == cp.len()
    &&& forall|i: int|
        0 <= i < crk.len() ==> (#[trigger] crk[i]).0@ == cp[i].0@ && keys_of(crk[i].1@)
            == rake_keys(views(cp[i].1@)) && (forall|q: Seq<char>|
            score_of(crk[i].1@, q) == rake_score(views(cp[i].1@), q))
}

/// The input's RAKE map.
pub open spec fn input_rake_map(irk: Seq<ScoreEntry>, text: Seq<char>, stops: Seq<String>) -> bool {
    &&& keys_of(irk) == rake_keys(rake_phrases(text, stops))
    &&& forall|q: Seq<char>| score_of(irk, q) == rake_score(rake_phrases(text, stops), q)
}

/// The fetched latest-document name matches the store's flag.
pub open spec fn latest_loaded(lat: Option<String>, s: Store) -> bool {
    &&& (lat is Some <==> exists|i: int|
        0 <= i < s.docs@.len() && (#[trigger] s.docs@[i]).latest)
    &&& (lat is Some ==> exists|i: int|
        0 <= i < s.docs@.len() && (#[trigger] s.docs@[i]).latest && s.docs@[i].name@ == lat->0@)
}

/// Where the ranked branch files the snippet: the best candidate's name
/// when its combined score reaches the threshold, else a new document
/// named after the snippet's first line.
pub open spec fn ranked_target(
    itf: Seq<ScoreEntry>,
    irk: Seq<ScoreEntry>,
    ctf: Seq<(String, Vec<ScoreEntry>)>,
    crk: Seq<(String, Vec<ScoreEntry>)>,
    lat: Option<String>,
    cfg: Config,
    text: Seq<char>,
) -> Seq<char> {
    let sb = scan_best(itf, irk, ctf, crk, lat, cfg, ctf.len() as int);
    if sb is Some && (sb->0).1 >= cfg.threshold as nat {
        ctf[(sb->0).0].0@
    } else {
        trim_view(first_line(text))
    }
}

/// The ranked branch filed the snippet under the name that scoring the
/// store's own corpus data selects.
pub open spec fn ranked_submit(
    pre: Store,
    post: Store,
    text: Seq<char>,
    stops: Seq<String>,
    cfg: Config,
    rid: int,
) -> bool {
    exists|
        ct: Seq<(String, Vec<String>)>,
        cp: Seq<(String, Vec<String>)>,
        ctf: Seq<(String, Vec<ScoreEntry>)>,
        crk: Seq<(String, Vec<ScoreEntry>)>,
        itf: Seq<ScoreEntry>,
        irk: Seq<ScoreEntry>,
        lat: Option<String>,
    |
        #![auto]
        {
            &&& terms_loaded(ct, pre)
            &&& phrases_loaded(cp, pre)
            &&& tf_maps(ctf, ct)
            &&& rake_maps(crk, cp)
            &&& input_tf_map(itf, ct, text, stops)
            &&& input_rake_map(irk, text, stops)
            &&& latest_loaded(lat, pre)
            &&& filed(pre, post, ranked_target(itf, irk, ctf, crk, lat, cfg, text), text, stops, rid)
        }
}

/// Everything `submit_snippet` promises, branch by branch: the outcome of
/// one submission over the store it found.
pub open spec fn submit_outcome(
    pre: Store,
    post: Store,
    text: Seq<char>,
    title_given: bool,
    title: Seq<char>,
    stops: Seq<String>,
    cfg: Config,
    r: Option<i32>,
) -> bool {
    &&& (r is Some <==> text.len() > 0)
    &&& (text.len() == 0 ==> post == pre)
    &&& (text.len() > 0 && title_given ==> filed(pre, post, trim_view(title), text, stops, r->0 as int))
    &&& (text.len() > 0 && !title_given && has_marked(pre.docs@) ==> filed(
        pre,
        post,
        pre.docs@[marked_index(pre.docs@)].name@,
        text,
        stops,
        r->0 as int,
    ))
    &&& (text.len() > 0 && !title_given && !has_marked(pre.docs@) && pre.docs@.len() == 0 ==> filed(
        pre,
        post,
        trim_view(first_line(text)),
        text,
        stops,
        r->0 as int,
    ))
    &&& (text.len() > 0 && !title_given && !has_marked(pre.docs@) && pre.docs@.len() > 0
        ==> ranked_submit(pre, post, text, stops, cfg, r->0 as int))
}

/// Machine limits on the store under which every score fits the fixed
/// width arithmetic.
pub open spec fn corpus_within_limits(s: Store) -> bool {
    &&& s.docs@.len() <= 0x8000
    &&& s.terms@.len() <= 0x10_0000
    &&& s.phrases@.len() <= 0x10_0000
    &&& forall|i: int|
        0 <= i < s.docs@.len() ==> words_of(
            keys_of_doc(s.phrases@, s.snips@, (#[trigger] s.docs@[i]).id),
        ).len() <= RAKE_TOKEN_LIMIT
}

/// Machine limits on one snippet's text.
pub open spec fn input_within_limits(text: Seq<char>, stops: Seq<String>) -> bool {
    &&& words_of(rake_phrases(text, stops)).len() <= RAKE_TOKEN_LIMIT
    &&& rake_phrases(text, stops).len() <= 0x10_0000
}

} // verus!

verus! {

/// The first marked position really is marked.
proof fn lemma_marked_props(docs: Seq<crate::store::DocRow>)
    requires
        has_marked(docs),
    ensures
        0 <= marked_index(docs) < docs.len(),
        docs[marked_index(docs)].marked,
    decreases docs.len(),
{
    if docs.len() > 0 && !docs[0].marked {
        assert(has_marked(docs.drop_first())) by {
            let i = choose|i: int| 0 <= i < docs.len() && (#[trigger] docs[i]).marked;
            assert(docs.drop_first()[i - 1].marked);
        }
        lemma_marked_props(docs.drop_first());
    }
}

/// A cloned word list reads the same.
fn clone_words(ws: &Vec<String>) -> (r: Vec<String>)
    ensures
        r@ == ws@,
{
    let mut r: Vec<String> = Vec::new();
    let mut i: usize = 0;
    while i < ws.len()
        invariant
            i <= ws@.len(),
            r@ == ws@.subrange(0, i as int),
        decreases ws@.len() - i,
    {
        let w = ws[i].clone();
        r.push(w);
        proof {
            assert(r@ =~= ws@.subrange(0, i as int + 1));
        }
        i = i + 1;
    }
    proof {
        assert(r@ =~= ws@);
    }
    r
}

/// File one snippet: the decision procedure over title, mark, corpus
/// emptiness and similarity ranking, followed by the store mutation. The
/// receiving document becomes the latest; an empty snippet changes
/// nothing. The result is the receiving document's id.
pub fn submit_snippet(store: &mut Store, snippet: &str, title: Option<&str>, stop_words: &Vec<
    String,
>, cfg: &Config) -> (r: Option<i32>)
    requires
        old(store).wf(),
        cfg.wf(),
        old(store).next_doc_id < i32::MAX,
        old(store).next_snip_id < i32::MAX,
        corpus_within_limits(*old(store)),
        input_within_limits(snippet@, stop_words@),
    ensures
        final (store).wf(),
        submit_outcome(
            *old(store),
            *final (store),
            snippet@,
            title is Some,
            if title is Some {
                title->0@
            } else {
                Seq::empty()
            },
            stop_words@,
            *cfg,
            r,
        ),
{
    if snippet.is_empty() {
        return None;
    }
    let terms = crate::preprocess::tfidf_preprocess(snippet, clone_words(stop_words));
    let phrases = crate::preprocess::rake_preprocess(snippet, clone_words(stop_words));
    let name: String;
    match title {
        Some(t) => {
            name = crate::preprocess::trim_str(t);
        },
        None => {
            let marked = store.fetch_marked_document();
            match marked {
                Some(m) => {
                    proof {
                        lemma_marked_props(store.docs@);
                        let i = choose|i: int|
                            0 <= i < store.docs@.len() && (#[trigger] store.docs@[i]).marked
                                && store.docs@[i].name@ == m@;
                        let mi = marked_index(store.docs@);
                        if i != mi {
                            assert(false);
                        }
                    }
                    name = m;
                },
                None => {
                    if store.docs.len() == 0 {
                        let fl = crate::preprocess::first_line_str(snippet);
                        name = crate::preprocess::trim_str(fl.as_str());
                    } else {
                        name = rank_and_pick(store, snippet, &terms, &phrases, stop_words, cfg);
                    }
                },
            }
        },
    }
    let id = store.add_document(name.as_str(), snippet, &terms, &phrases);
    let ghost mid = *store;
    store.set_latest_document(name.as_str());
    proof {
        assert(add_document_shape(
            *old(store),
            mid,
            name@,
            snippet@,
            views(terms@),
            views(phrases@),
            id as int,
        ));
        assert(set_latest_shape(mid, *store, name@));
        lemma_filed(*old(store), *store, name@, snippet@, stop_words@, id as int, terms@, phrases@);
    }
    Some(id)
}

/// Establish [`filed`] from the two store operations' own contracts.
proof fn lemma_filed(
    pre: Store,
    post: Store,
    name: Seq<char>,
    text: Seq<char>,
    stops: Seq<String>,
    rid: int,
    terms: Seq<String>,
    phrases: Seq<String>,
)
    requires
        views(terms) == tfidf_terms(text, stops),
        views(phrases) == rake_phrases(text, stops),
        exists|mid: Store|
            {
                &&& #[trigger] add_document_shape(pre, mid, name, text, views(terms), views(
                    phrases,
                ), rid)
                &&& set_latest_shape(mid, post, name)
            },
    ensures
        filed(pre, post, name, text, stops, rid),
{
    let mid = choose|mid: Store|
        {
            &&& #[trigger] add_document_shape(pre, mid, name, text, views(terms), views(phrases),
                rid)
            &&& set_latest_shape(mid, post, name)
        };
    let existed = has_doc_name(pre.docs@, name);
    if !existed {
        assert(forall|i: int|
            0 <= i < pre.docs@.len() ==> (#[trigger] mid.docs@[i]) == pre.docs@[i]);
        assert(post.docs@.last().latest <==> mid.docs@.last().name@ == name);
    }
}

/// What `add_document` guarantees, as a relation between two stores.
pub open spec fn add_document_shape(
    pre: Store,
    mid: Store,
    name: Seq<char>,
    text: Seq<char>,
    tkeys: Seq<Seq<char>>,
    pkeys: Seq<Seq<char>>,
    rid: int,
) -> bool {
    let existed = has_doc_name(pre.docs@, name);
    let did = if existed {
        pre.docs@[doc_index_by_name(pre.docs@, name)].id as int
    } else {
        pre.next_doc_id as int
    };
    let inserted = !has_snip_text(pre.snips@, did as i32, text);
    &&& rid == did
    &&& (existed ==> mid.docs@ == pre.docs@ && mid.next_doc_id == pre.next_doc_id)
    &&& (!existed ==> mid.docs@ == pre.docs@.push(mid.docs@.last()) && mid.docs@.last().id
        == pre.next_doc_id && mid.docs@.last().name@ == name && !mid.docs@.last().marked
        && !mid.docs@.last().latest && mid.next_doc_id == pre.next_doc_id + 1)
    &&& (!existed ==> inserted)
    &&& (inserted ==> mid.snips@ == pre.snips@.push(mid.snips@.last()) && mid.snips@.last().id
        == pre.next_snip_id && mid.snips@.last().text@ == text && mid.snips@.last().doc as int
        == did && mid.next_snip_id == pre.next_snip_id + 1 && appended_rows(
        pre.terms@,
        mid.terms@,
        dedup(tkeys),
        pre.next_snip_id,
    ) && appended_rows(pre.phrases@, mid.phrases@, dedup(pkeys), pre.next_snip_id))
    &&& (!inserted ==> mid.snips@ == pre.snips@ && mid.next_snip_id == pre.next_snip_id
        && mid.terms@ == pre.terms@ && mid.phrases@ == pre.phrases@)
}

/// What `set_latest_document` guarantees, as a relation between two
/// stores.
pub open spec fn set_latest_shape(mid: Store, post: Store, name: Seq<char>) -> bool {
    &&& post.snips@ == mid.snips@
    &&& post.terms@ == mid.terms@
    &&& post.phrases@ == mid.phrases@
    &&& post.next_doc_id == mid.next_doc_id
    &&& post.next_snip_id == mid.next_snip_id
    &&& post.docs@.len() == mid.docs@.len()
    &&& forall|i: int|
        0 <= i < mid.docs@.len() ==> {
            let o = mid.docs@[i];
            let n = (#[trigger] post.docs@[i]);
            n.id == o.id && n.name@ == o.name@ && n.marked == o.marked && (n.latest <==> o.name@
                == name)
        }
}

} // verus!

verus! {

/// Score the input against the whole corpus and pick the receiving
/// document's name: the best candidate at or above the threshold, else
/// the snippet's trimmed first line.
fn rank_and_pick(store: &Store, snippet: &str, terms: &Vec<String>, phrases: &Vec<String>,
    stop_words: &Vec<String>, cfg: &Config) -> (name: String)
    requires
        store.wf(),
        cfg.wf(),
        corpus_within_limits(*store),
        input_within_limits(snippet@, stop_words@),
        views(terms@) == tfidf_terms(snippet@, stop_words@),
        views(phrases@) == rake_phrases(snippet@, stop_words@),
    ensures
        exists|
            ct: Seq<(String, Vec<String>)>,
            cp: Seq<(String, Vec<String>)>,
            ctf: Seq<(String, Vec<ScoreEntry>)>,
            crk: Seq<(String, Vec<ScoreEntry>)>,
            itf: Seq<ScoreEntry>,
            irk: Seq<ScoreEntry>,
            lat: Option<String>,
        |
            #![auto]
            {
                &&& terms_loaded(ct, *store)
                &&& phrases_loaded(cp, *store)
                &&& tf_maps(ctf, ct)
                &&& rake_maps(crk, cp)
                &&& input_tf_map(itf, ct, snippet@, stop_words@)
                &&& input_rake_map(irk, snippet@, stop_words@)
                &&& latest_loaded(lat, *store)
                &&& name@ == ranked_target(itf, irk, ctf, crk, lat, *cfg, snippet@)
            },
{
    let ct = store.load_corpus_terms();
    let cp = store.load_corpus_phrases();
    let ctf = crate::tf_idf::corpus_tf_idf_hash(&ct);
    let crk = crate::rake::corpus_rake(&cp);
    let itf = crate::tf_idf::tf_idf_hash(clone_words(terms), &ct);
    let irk = crate::rake::rake(clone_words(phrases));
    let lat = store.fetch_latest_document();
    // every score and key count stays inside the similarity limits
    proof {
        crate::rake::lemma_dedup_len(crate::tf_idf::corpus_words(ct@));
        assert(forall|i: int|
            0 <= i < ct@.len() ==> views((#[trigger] ct@[i]).1@).len() <= 0x10_0000) by {
            assert forall|i: int| 0 <= i < ct@.len() implies views(
                (#[trigger] ct@[i]).1@,
            ).len() <= 0x10_0000 by {
                crate::store::lemma_keys_of_doc_len(store.terms@, store.snips@,
                    store.docs@[i].id);
            }
        }
        crate::tf_idf::lemma_corpus_words_len(ct@, 0x10_0000);
        assert(ct@.len() * 0x10_0000 <= 0x8000 * 0x10_0000) by (nonlinear_arith)
            requires
                ct@.len() <= 0x8000,
        ;
        assert(vocab(ct@).len() <= 0x8_0000_0000);
        assert(itf@.len() == vocab(ct@).len()) by {
            assert(keys_of(itf@).len() == itf@.len());
        }
        assert forall|i: int|
            0 <= i < ctf@.len() implies itf@.len() + (#[trigger] ctf@[i]).1@.len()
            <= KEY_COUNT_LIMIT by {
            assert(keys_of(ctf@[i].1@).len() == ctf@[i].1@.len());
        }
        assert(crate::similarity::scores_bounded(itf@, COSINE_SCORE_LIMIT)) by {
            assert(forall|j: int|
                0 <= j < itf@.len() ==> (#[trigger] itf@[j]).score < TFIDF_SCORE_MAX as u128);
        }
        assert forall|i: int|
            0 <= i < ctf@.len() implies crate::similarity::scores_bounded(
            (#[trigger] ctf@[i]).1@,
            COSINE_SCORE_LIMIT,
        ) by {
            assert(forall|j: int|
                0 <= j < ctf@[i].1@.len() ==> (#[trigger] ctf@[i].1@[j]).score < TFIDF_SCORE_MAX
                    as u128);
        }
        crate::rake::lemma_rake_keys_len(rake_phrases(snippet@, stop_words@));
        assert(irk@.len() <= 0x11_0000) by {
            assert(keys_of(irk@).len() == irk@.len());
        }
        assert forall|i: int|
            0 <= i < crk@.len() implies irk@.len() + (#[trigger] crk@[i]).1@.len()
            <= KEY_COUNT_LIMIT by {
            assert(keys_of(crk@[i].1@).len() == crk@[i].1@.len());
            crate::rake::lemma_rake_keys_len(views(cp@[i].1@));
            crate::store::lemma_keys_of_doc_len(store.phrases@, store.snips@, store.docs@[i].id);
        }
        assert(crate::similarity::scores_bounded(irk@, JACCARD_SCORE_LIMIT)) by {
            assert(forall|j: int|
                0 <= j < irk@.len() ==> (#[trigger] irk@[j]).score <= RAKE_SCORE_MAX);
        }
        assert forall|i: int|
            0 <= i < crk@.len() implies crate::similarity::scores_bounded(
            (#[trigger] crk@[i]).1@,
            JACCARD_SCORE_LIMIT,
        ) by {
            assert(forall|j: int|
                0 <= j < crk@[i].1@.len() ==> (#[trigger] crk@[i].1@[j]).score <= RAKE_SCORE_MAX);
        }
    }
    let top = crate::similarity::top_candidate(&itf, &irk, &ctf, &crk, &lat, cfg);
    let name: String;
    match top {
        Some((i, sc)) => {
            if sc >= cfg.threshold {
                name = ctf[i].0.clone();
            } else {
                let fl = crate::preprocess::first_line_str(snippet);
                name = crate::preprocess::trim_str(fl.as_str());
            }
        },
        None => {
            let fl = crate::preprocess::first_line_str(snippet);
            name = crate::preprocess::trim_str(fl.as_str());
        },
    }
    proof {
        assert(name@ == ranked_target(itf@, irk@, ctf@, crk@, lat, *cfg, snippet@));
        assert({
            &&& terms_loaded(ct@, *store)
            &&& phrases_loaded(cp@, *store)
            &&& tf_maps(ctf@, ct@)
            &&& rake_maps(crk@, cp@)
            &&& input_tf_map(itf@, ct@, snippet@, stop_words@)
            &&& input_rake_map(irk@, snippet@, stop_words@)
            &&& latest_loaded(lat, *store)
            &&& name@ == ranked_target(itf@, irk@, ctf@, crk@, lat, *cfg, snippet@)
        });
    }
    name
}

} // verus!

verus! {

/// Edit one snippet: empty text deletes it (cascading to its document if
/// it was the last), any other text replaces the stored text and the
/// snippet's index rows.
pub fn update_snippet(store: &mut Store, snippet_id: i32, snippet: &str, stop_words: &Vec<
    String,
>) -> (r: Result<(), StoreError>)
    requires
        old(store).wf(),
    ensures
        final (store).wf(),
        final (store).next_doc_id == old(store).next_doc_id,
        final (store).next_snip_id == old(store).next_snip_id,
        r is Err ==> *final (store) == *old(store),
        !has_snip_id(old(store).snips@, snippet_id) ==> r == Result::<(), StoreError>::Err(
            StoreError::NotFound,
        ),
        snippet@.len() == 0 && has_snip_id(old(store).snips@, snippet_id) ==> r is Ok && ({
            let idx = crate::store::snip_index_by_id(old(store).snips@, snippet_id);
            let did = old(store).snips@[idx].doc;
            &&& final (store).snips@ == old(store).snips@.remove(idx)
            &&& final (store).terms@ == crate::store::rows_without_snip(
                old(store).terms@,
                snippet_id,
            )
            &&& final (store).phrases@ == crate::store::rows_without_snip(
                old(store).phrases@,
                snippet_id,
            )
            &&& (crate::store::doc_has_other_snip(old(store).snips@, idx, did) ==> final (
            store).docs@ == old(store).docs@)
            &&& (!crate::store::doc_has_other_snip(old(store).snips@, idx, did) ==> final (
            store).docs@ == old(store).docs@.remove(
                crate::store::doc_index_by_id(old(store).docs@, did),
            ))
        }),
        snippet@.len() > 0 && has_snip_id(old(store).snips@, snippet_id) ==> ({
            let idx = crate::store::snip_index_by_id(old(store).snips@, snippet_id);
            let clash = crate::store::text_clash(
                old(store).snips@,
                idx,
                old(store).snips@[idx].doc,
                snippet@,
            );
            &&& (clash ==> r == Result::<(), StoreError>::Err(StoreError::Duplicate))
            &&& (!clash ==> r is Ok && final (store).docs@ == old(store).docs@ && final (
            store).snips@ == old(store).snips@.update(idx, final (store).snips@[idx]) && final (
            store).snips@[idx].id == snippet_id && final (store).snips@[idx].doc == old(
                store,
            ).snips@[idx].doc && final (store).snips@[idx].text@ == snippet@ && appended_rows(
                crate::store::rows_without_snip(old(store).terms@, snippet_id),
                final (store).terms@,
                dedup(tfidf_terms(snippet@, stop_words@)),
                snippet_id,
            ) && appended_rows(
                crate::store::rows_without_snip(old(store).phrases@, snippet_id),
                final (store).phrases@,
                dedup(rake_phrases(snippet@, stop_words@)),
                snippet_id,
            ))
        }),
{
    if snippet.is_empty() {
        return store.delete_snippet(snippet_id);
    }
    let terms = crate::preprocess::tfidf_preprocess(snippet, clone_words(stop_words));
    let phrases = crate::preprocess::rake_preprocess(snippet, clone_words(stop_words));
    store.update_snippet(snippet_id, snippet, &terms, &phrases)
}

/// Filing a non-duplicate snippet adds exactly one snippet row, owned by
/// the receiving document.
pub proof fn lemma_submit_adds_one(
    pre: Store,
    post: Store,
    name: Seq<char>,
    text: Seq<char>,
    stops: Seq<String>,
    rid: int,
)
    requires
        filed(pre, post, name, text, stops, rid),
        !has_snip_text(pre.snips@, rid as i32, text),
    ensures
        post.snips@.len() == pre.snips@.len() + 1,
        post.snips@.last().doc as int == rid,
        post.snips@.last().text@ == text,
{
}

/// Two document tables of equal names find a name at the same position.
proof fn lemma_doc_index_congr(a: Seq<crate::store::DocRow>, b: Seq<crate::store::DocRow>,
    name: Seq<char>)
    requires
        a.len() == b.len(),
        forall|i: int| 0 <= i < a.len() ==> (#[trigger] a[i]).name@ == b[i].name@,
    ensures
        doc_index_by_name(a, name) == doc_index_by_name(b, name),
    decreases a.len(),
{
    if a.len() > 0 && a[0].name@ != name {
        assert(forall|i: int|
            0 <= i < a.drop_first().len() ==> (#[trigger] a.drop_first()[i]).name@
                == b.drop_first()[i].name@);
        lemma_doc_index_congr(a.drop_first(), b.drop_first(), name);
    }
}

/// Filing the identical text twice under the identical name does not
/// create a duplicate snippet row: the second filing leaves the snippet
/// table unchanged.
pub proof fn lemma_append_idempotent(
    pre: Store,
    mid: Store,
    post: Store,
    name: Seq<char>,
    text: Seq<char>,
    stops: Seq<String>,
    r1: int,
    r2: int,
)
    requires
        pre.wf(),
        filed(pre, mid, name, text, stops, r1),
        filed(mid, post, name, text, stops, r2),
    ensures
        post.snips@ == mid.snips@,
{
    let existed1 = has_doc_name(pre.docs@, name);
    if existed1 {
        let i1 = doc_index_by_name(pre.docs@, name);
        crate::store::lemma_doc_index_props(pre.docs@, name);
        assert(mid.docs@[i1].name@ == name);
        assert(has_doc_name(mid.docs@, name));
        lemma_doc_index_congr(pre.docs@, mid.docs@.subrange(0, pre.docs@.len() as int), name);
        assert(mid.docs@.subrange(0, pre.docs@.len() as int) =~= mid.docs@);
        assert(doc_index_by_name(mid.docs@, name) == i1);
        assert(r2 == mid.docs@[i1].id as int);
        assert(r2 == r1);
    } else {
        assert(mid.docs@.last().name@ == name);
        assert(mid.docs@[mid.docs@.len() - 1].name@ == name);
        assert(has_doc_name(mid.docs@, name));
        assert(forall|j: int|
            0 <= j < pre.docs@.len() ==> (#[trigger] mid.docs@[j]).name@ != name) by {
            assert(forall|j: int|
                0 <= j < pre.docs@.len() ==> (#[trigger] mid.docs@[j]).name@ == pre.docs@[j].name@);
        }
        lemma_doc_index_at_names(mid.docs@, pre.docs@.len() as int, name);
        assert(doc_index_by_name(mid.docs@, name) == pre.docs@.len());
        assert(r2 == mid.docs@.last().id as int);
        assert(r2 == pre.next_doc_id as int);
        assert(r2 == r1);
    }
    // after the first filing the text stands under the target document
    let inserted1 = !has_snip_text(pre.snips@, r1 as i32, text);
    if inserted1 {
        assert(mid.snips@.last().doc as int == r1 && mid.snips@.last().text@ == text);
        assert(mid.snips@[mid.snips@.len() - 1].doc as int == r1);
        assert(has_snip_text(mid.snips@, r2 as i32, text));
    } else {
        assert(mid.snips@ == pre.snips@);
        assert(has_snip_text(mid.snips@, r2 as i32, text));
    }
}

/// The first name match sits at `i` when everything before differs.
proof fn lemma_doc_index_at_names(docs: Seq<crate::store::DocRow>, i: int, name: Seq<char>)
    requires
        0 <= i < docs.len(),
        docs[i].name@ == name,
        forall|j: int| 0 <= j < i ==> (#[trigger] docs[j]).name@ != name,
    ensures
        doc_index_by_name(docs, name) == i,
    decreases i,
{
    if i > 0 {
        lemma_doc_index_at_names(docs.drop_first(), i - 1, name);
    }
}

} // verus!

verus! {

/// The flattened word count of a phrase list stays within `limit`.
fn word_count_within(phrases: &Vec<String>, limit: usize) -> (b: bool)
    ensures
        b == (words_of(views(phrases@)).len() <= limit),
{
    let ghost ph = views(phrases@);
    let mut cnt: usize = 0;
    let mut i: usize = 0;
    proof {
        assert(ph.subrange(0, 0) =~= Seq::<Seq<char>>::empty());
    }
    while i < phrases.len()
        invariant
            i <= phrases@.len(),
            ph == views(phrases@),
            cnt == words_of(ph.subrange(0, i as int)).len(),
            cnt <= limit,
        decreases phrases@.len() - i,
    {
        let cv = crate::preprocess::char_vec(phrases[i].as_str());
        let pw = crate::preprocess::split_tokens(&cv);
        proof {
            let pre = ph.subrange(0, i as int + 1);
            assert(pre.drop_last() =~= ph.subrange(0, i as int));
            assert(pre.last() == ph[i as int]);
            assert(views(pw@) == crate::rake::phrase_words(ph[i as int]));
            assert(words_of(pre).len() == cnt + pw@.len());
            crate::rake::lemma_words_prefix_len(ph, i as int + 1);
        }
        if pw.len() > limit - cnt {
            return false;
        }
        cnt = cnt + pw.len();
        i = i + 1;
    }
    proof {
        assert(ph.subrange(0, ph.len() as int) =~= ph);
    }
    true
}

/// The input snippet stays within the engine's machine limits.
fn input_size_ok(snippet: &str, stop_words: &Vec<String>) -> (b: bool)
    ensures
        b == input_within_limits(snippet@, stop_words@),
{
    let phrases = crate::preprocess::rake_preprocess(snippet, clone_words(stop_words));
    if phrases.len() > 0x10_0000 {
        proof {
            assert(views(phrases@).len() == phrases@.len());
        }
        return false;
    }
    proof {
        assert(views(phrases@).len() == phrases@.len());
    }
    word_count_within(&phrases, RAKE_TOKEN_LIMIT)
}

/// The stored corpus stays within the engine's machine limits.
fn corpus_size_ok(store: &Store) -> (b: bool)
    requires
        store.wf(),
    ensures
        b == corpus_within_limits(*store),
{
    if store.docs.len() > 0x8000 || store.terms.len() > 0x10_0000 || store.phrases.len()
        > 0x10_0000 {
        return false;
    }
    let cp = store.load_corpus_phrases();
    let mut i: usize = 0;
    while i < cp.len()
        invariant
            i <= cp@.len(),
            cp@.len() == store.docs@.len(),
            forall|j: int|
                0 <= j < cp@.len() ==> (#[trigger] cp@[j]).0@ == store.docs@[j].name@ && views(
                    cp@[j].1@,
                ) == keys_of_doc(store.phrases@, store.snips@, store.docs@[j].id),
            forall|j: int|
                0 <= j < i ==> words_of(
                    keys_of_doc(store.phrases@, store.snips@, (#[trigger] store.docs@[j]).id),
                ).len() <= RAKE_TOKEN_LIMIT,
        decreases cp@.len() - i,
    {
        if !word_count_within(&cp[i].1, RAKE_TOKEN_LIMIT) {
            return false;
        }
        i = i + 1;
    }
    true
}

/// File one snippet after checking the engine's machine limits at run
/// time: nothing and no change when the snippet or the corpus is too
/// large to score, otherwise exactly what [`submit_snippet`] does.
pub fn try_submit_snippet(store: &mut Store, snippet: &str, title: Option<&str>, stop_words: &Vec<
    String,
>, cfg: &Config) -> (r: Option<Option<i32>>)
    requires
        old(store).wf(),
        cfg.wf(),
        old(store).next_doc_id < i32::MAX,
        old(store).next_snip_id < i32::MAX,
    ensures
        final (store).wf(),
        r is None ==> *final (store) == *old(store) && !(corpus_within_limits(*old(store))
            && input_within_limits(snippet@, stop_words@)),
        r is Some ==> corpus_within_limits(*old(store)) && input_within_limits(
            snippet@,
            stop_words@,
        ) && submit_outcome(
            *old(store),
            *final (store),
            snippet@,
            title is Some,
            if title is Some {
                title->0@
            } else {
                Seq::empty()
            },
            stop_words@,
            *cfg,
            r->0,
        ),
{
    if !corpus_size_ok(store) || !input_size_ok(snippet, stop_words) {
        return None;
    }
    Some(submit_snippet(store, snippet, title, stop_words, cfg))
}

} // verus!
