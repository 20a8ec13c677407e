//! TF-IDF term scoring.
//!
//! A term scores its frequency within one document, weighted by its rarity
//! across the corpus: `tf` is occurrences over document length, `idf` the
//! natural logarithm of document count over containing-document count, both
//! in fixed point. A term present in every document weighs nothing; a term
//! unique to one document weighs the most the corpus size allows.

use crate::fixed::{ln_scaled, ln_scaled_u64, LN_MAX, SCALE};
use crate::preprocess::{views, CorpusSnippets};
use crate::rake::{count_in, dedup};
use crate::scores::{has_key, keys_distinct, keys_of, score_of, ScoreEntry, Scores};
use vstd::prelude::*;

verus! {

/// An upper bound on every TF-IDF score: no score reaches the logarithm's
/// own ceiling.
pub const TFIDF_SCORE_MAX: u64 = 44_361_408;

/// The term frequency of `term` in `doc`, in fixed point: occurrences over
/// length. An empty document scores zero.
pub open spec fn tf_scaled(doc: Seq<Seq<char>>, term: Seq<char>) -> nat {
    if doc.len() == 0 {
        0
    } else {
        count_in(doc, term) * (SCALE as nat) / doc.len()
    }
}

/// The number of corpus documents that contain `term`.
pub open spec fn df(c: Seq<(String, Vec<String>)>, term: Seq<char>) -> nat
    decreases c.len(),
{
    if c.len() == 0 {
        0
    } else {
        df(c.drop_last(), term) + if views(c.last().1@).contains(term) {
            1nat
        } else {
            0nat
        }
    }
}

/// The inverse document frequency of `term`, in fixed point: the natural
/// logarithm of document count over containing-document count.
pub open spec fn idf_scaled(c: Seq<(String, Vec<String>)>, term: Seq<char>) -> nat {
    ln_scaled(c.len(), df(c, term))
}

/// The TF-IDF score of `term` for a token list `doc` against corpus `c`.
pub open spec fn tfidf_scaled(doc: Seq<Seq<char>>, c: Seq<(String, Vec<String>)>, term: Seq<
    char,
>) -> nat {
    tf_scaled(doc, term) * idf_scaled(c, term) / (SCALE as nat)
}

/// Every token of every corpus document, in order, duplicates kept.
pub open spec fn corpus_words(c: Seq<(String, Vec<String>)>) -> Seq<Seq<char>>
    decreases c.len(),
{
    if c.len() == 0 {
        Seq::empty()
    } else {
        corpus_words(c.drop_last()) + views(c.last().1@)
    }
}

/// The corpus vocabulary: every distinct token, in first-occurrence order.
pub open spec fn vocab(c: Seq<(String, Vec<String>)>) -> Seq<Seq<char>> {
    dedup(corpus_words(c))
}

/// The score a token list receives at key `q`: the TF-IDF score over the
/// corpus vocabulary, zero off the vocabulary.
pub open spec fn vector_score(doc: Seq<Seq<char>>, c: Seq<(String, Vec<String>)>, q: Seq<
    char,
>) -> nat {
    if corpus_words(c).contains(q) {
        tfidf_scaled(doc, c, q)
    } else {
        0
    }
}

proof fn lemma_df_le(c: Seq<(String, Vec<String>)>, term: Seq<char>)
    ensures
        df(c, term) <= c.len(),
    decreases c.len(),
{
    if c.len() > 0 {
        lemma_df_le(c.drop_last(), term);
    }
}

proof fn lemma_df_pos(c: Seq<(String, Vec<String>)>, term: Seq<char>)
    requires
        corpus_words(c).contains(term),
    ensures
        df(c, term) >= 1,
    decreases c.len(),
{
    if c.len() > 0 {
        let k = choose|k: int| 0 <= k < corpus_words(c).len() && corpus_words(c)[k] == term;
        let pre = corpus_words(c.drop_last());
        if k < pre.len() {
            assert(pre[k] == term);
            assert(pre.contains(term));
            lemma_df_pos(c.drop_last(), term);
        } else {
            assert(views(c.last().1@)[k - pre.len()] == term);
            assert(views(c.last().1@).contains(term));
        }
    }
}

/// The term frequency of `search_term` in `document`, in fixed point.
pub fn tf(search_term: &String, document: &Vec<String>) -> (r: u64)
    ensures
        r as nat == tf_scaled(views(document@), search_term@),
        r <= SCALE,
{
    if document.len() == 0 {
        return 0;
    }
    let count = crate::rake::word_frequency_pub(document, search_term);
    proof {
        crate::rake::lemma_count_le_pub(views(document@), search_term@);
        assert(count as nat * (SCALE as nat) <= views(document@).len() * (SCALE as nat))
            by (nonlinear_arith)
            requires
                count as nat <= views(document@).len(),
        ;
        vstd::arithmetic::div_mod::lemma_multiply_divide_le(
            (count as nat * (SCALE as nat)) as int,
            views(document@).len() as int,
            SCALE as int,
        );
    }
    let r128: u128 = count * (SCALE as u128) / (document.len() as u128);
    r128 as u64
}

/// The inverse document frequency of `term` against the corpus, in fixed
/// point. The term must occur somewhere in the corpus.
pub fn idf(term: &String, corpus: &CorpusSnippets) -> (r: u64)
    requires
        df(corpus@, term@) >= 1,
    ensures
        r as nat == idf_scaled(corpus@, term@),
        r < LN_MAX,
{
    let mut n: u64 = 0;
    let mut i: usize = 0;
    proof {
        assert(corpus@.subrange(0, 0) =~= Seq::<(String, Vec<String>)>::empty());
    }
    while i < corpus.len()
        invariant
            i <= corpus@.len(),
            n as nat == df(corpus@.subrange(0, i as int), term@),
            n <= i,
        decreases corpus@.len() - i,
    {
        proof {
            assert(corpus@.subrange(0, i as int + 1).drop_last() =~= corpus@.subrange(0, i as int));
            assert(corpus@.subrange(0, i as int + 1).last() == corpus@[i as int]);
            crate::preprocess::lemma_word_in_views(corpus@[i as int].1@, term@);
        }
        if crate::preprocess::word_in_exec(&corpus[i].1, term) {
            n = n + 1;
        }
        i = i + 1;
    }
    proof {
        assert(corpus@.subrange(0, corpus@.len() as int) =~= corpus@);
        lemma_df_le(corpus@, term@);
    }
    ln_scaled_u64(corpus.len() as u64, n)
}

/// The TF-IDF score of `term` for `document` against the corpus, in fixed
/// point. The term must occur somewhere in the corpus.
pub fn tf_idf(term: &String, document: &Vec<String>, corpus: &CorpusSnippets) -> (r: u64)
    requires
        df(corpus@, term@) >= 1,
    ensures
        r as nat == tfidf_scaled(views(document@), corpus@, term@),
        r < TFIDF_SCORE_MAX,
{
    let t = tf(term, document);
    let f = idf(term, corpus);
    proof {
        assert(t as nat * (f as nat) <= (SCALE as nat) * (f as nat)) by (nonlinear_arith)
            requires
                t <= SCALE,
        ;
        vstd::arithmetic::div_mod::lemma_multiply_divide_lt(
            (t as nat * (f as nat)) as int,
            SCALE as int,
            ((f as nat) + 1) as int,
        );
        assert((SCALE as nat) * (f as nat) < (SCALE as nat) * ((f as nat) + 1)) by (nonlinear_arith);
    }
    t * f / SCALE
}

/// The corpus vocabulary, as strings, in first-occurrence order.
fn vocab_exec(corpus: &CorpusSnippets) -> (v: Vec<String>)
    ensures
        views(v@) == vocab(corpus@),
{
    let ghost c = corpus@;
    let mut all: Vec<String> = Vec::new();
    let mut i: usize = 0;
    proof {
        assert(c.subrange(0, 0) =~= Seq::<(String, Vec<String>)>::empty());
        assert(views(all@) =~= Seq::<Seq<char>>::empty());
    }
    while i < corpus.len()
        invariant
            i <= c.len(),
            c == corpus@,
            views(all@) == corpus_words(c.subrange(0, i as int)),
        decreases c.len() - i,
    {
        let doc: &Vec<String> = &corpus[i].1;
        let mut j: usize = 0;
        while j < doc.len()
            invariant
                j <= doc@.len(),
                i < c.len(),
                c == corpus@,
                doc@ == c[i as int].1@,
                views(all@) == corpus_words(c.subrange(0, i as int)) + views(doc@).subrange(
                    0,
                    j as int,
                ),
            decreases doc@.len() - j,
        {
            let w = doc[j].clone();
            let ghost old_all = all@;
            all.push(w);
            proof {
                crate::preprocess::lemma_views_push(old_all, doc@[j as int]);
                assert(views(all@) =~= corpus_words(c.subrange(0, i as int)) + views(
                    doc@,
                ).subrange(0, j as int + 1));
            }
            j = j + 1;
        }
        proof {
            assert(views(doc@).subrange(0, doc@.len() as int) =~= views(doc@));
            let pre = c.subrange(0, i as int + 1);
            assert(pre.drop_last() =~= c.subrange(0, i as int));
            assert(pre.last() == c[i as int]);
            assert(views(all@) == corpus_words(pre));
        }
        i = i + 1;
    }
    proof {
        assert(c.subrange(0, c.len() as int) =~= c);
    }
    // distinct tokens, in first-occurrence order
    let mut v: Vec<String> = Vec::new();
    i = 0;
    proof {
        assert(views(all@).subrange(0, 0) =~= Seq::<Seq<char>>::empty());
        assert(views(v@) =~= Seq::<Seq<char>>::empty());
    }
    while i < all.len()
        invariant
            i <= all@.len(),
            views(all@) == corpus_words(c),
            views(v@) == dedup(views(all@).subrange(0, i as int)),
        decreases all@.len() - i,
    {
        proof {
            assert(views(all@).subrange(0, i as int + 1).drop_last() =~= views(all@).subrange(
                0,
                i as int,
            ));
            assert(views(all@).subrange(0, i as int + 1).last() == all@[i as int]@);
            crate::preprocess::lemma_word_in_views(v@, all@[i as int]@);
        }
        if !crate::preprocess::word_in_exec(&v, &all[i]) {
            let ghost old_v = v@;
            let w = all[i].clone();
            v.push(w);
            proof {
                crate::preprocess::lemma_views_push(old_v, all@[i as int]);
            }
        }
        i = i + 1;
    }
    proof {
        assert(views(all@).subrange(0, all@.len() as int) =~= views(all@));
    }
    v
}

/// The TF-IDF vector of one token list over the whole corpus vocabulary.
fn doc_vector(document: &Vec<String>, corpus: &CorpusSnippets, terms: &Vec<String>) -> (r: Scores)
    requires
        views(terms@) == vocab(corpus@),
    ensures
        keys_distinct(r@),
        keys_of(r@) == vocab(corpus@),
        forall|q: Seq<char>|
            score_of(r@, q) == vector_score(views(document@), corpus@, q),
        forall|i: int| 0 <= i < r@.len() ==> (#[trigger] r@[i]).score < TFIDF_SCORE_MAX as u128,
{
    let ghost c = corpus@;
    let ghost vk = vocab(c);
    let mut r: Scores = Vec::new();
    let mut i: usize = 0;
    proof {
        assert(keys_of(r@) =~= vk.subrange(0, 0));
    }
    while i < terms.len()
        invariant
            i <= terms@.len(),
            c == corpus@,
            vk == vocab(c),
            views(terms@) == vk,
            r@.len() == i,
            keys_of(r@) == vk.subrange(0, i as int),
            forall|j: int|
                0 <= j < i ==> (#[trigger] r@[j]).score as nat == vector_score(
                    views(document@),
                    c,
                    r@[j].key@,
                ) && r@[j].score < TFIDF_SCORE_MAX as u128,
        decreases terms@.len() - i,
    {
        proof {
            crate::rake::lemma_dedup_props_pub(corpus_words(c));
            assert(terms@[i as int]@ == vk[i as int]);
            assert(vk.contains(vk[i as int]));
            assert(corpus_words(c).contains(terms@[i as int]@));
            lemma_df_pos(c, terms@[i as int]@);
        }
        let sc = tf_idf(&terms[i], document, corpus);
        let key = terms[i].clone();
        let ghost old_r = r@;
        r.push(ScoreEntry { key, score: sc as u128 });
        proof {
            assert(keys_of(r@) =~= keys_of(old_r).push(terms@[i as int]@));
            assert(keys_of(r@) =~= vk.subrange(0, i as int + 1));
            assert(corpus_words(c).contains(r@[i as int].key@));
        }
        i = i + 1;
    }
    proof {
        assert(vk.subrange(0, vk.len() as int) =~= vk);
        assert(keys_of(r@) == vk);
        crate::rake::lemma_dedup_props_pub(corpus_words(c));
        assert(keys_distinct(r@)) by {
            assert(forall|j: int| 0 <= j < r@.len() ==> (#[trigger] r@[j]).key@ == keys_of(r@)[j]);
        }
        assert forall|q: Seq<char>|
            score_of(r@, q) == vector_score(views(document@), c, q) by {
            if has_key(r@, q) {
                let j = choose|j: int| 0 <= j < r@.len() && (#[trigger] r@[j].key@) == q;
                assert(forall|l: int| 0 <= l < j ==> r@[l].key@ != q);
                crate::scores::lemma_score_at(r@, j);
            } else {
                crate::scores::lemma_score_absent(r@, q);
                if corpus_words(c).contains(q) {
                    assert(vk.contains(q));
                    let j = choose|j: int| 0 <= j < vk.len() && vk[j] == q;
                    assert(keys_of(r@)[j] == q);
                    assert(r@[j].key@ == q);
                    assert(false);
                }
            }
        }
    }
    r
}

/// The TF-IDF vector of the input token list against the corpus: one score
/// per vocabulary term.
pub fn tf_idf_hash(document: Vec<String>, corpus: &CorpusSnippets) -> (r: Scores)
    ensures
        keys_distinct(r@),
        keys_of(r@) == vocab(corpus@),
        forall|q: Seq<char>| score_of(r@, q) == vector_score(views(document@), corpus@, q),
        forall|i: int| 0 <= i < r@.len() ==> (#[trigger] r@[i]).score < TFIDF_SCORE_MAX as u128,
{
    let terms = vocab_exec(corpus);
    doc_vector(&document, corpus, &terms)
}

/// The TF-IDF vectors of every corpus document over the shared vocabulary.
pub fn corpus_tf_idf_hash(corpus: &CorpusSnippets) -> (out: Vec<(String, Scores)>)
    ensures
        out@.len() == corpus@.len(),
        forall|i: int|
            0 <= i < out@.len() ==> {
                let m = (#[trigger] out@[i]).1@;
                &&& out@[i].0@ == corpus@[i].0@
                &&& keys_distinct(m)
                &&& keys_of(m) == vocab(corpus@)
                &&& forall|q: Seq<char>|
                    score_of(m, q) == vector_score(views(corpus@[i].1@), corpus@, q)
                &&& forall|j: int|
                    0 <= j < m.len() ==> (#[trigger] m[j]).score < TFIDF_SCORE_MAX as u128
            },
{
    let terms = vocab_exec(corpus);
    let mut out: Vec<(String, Scores)> = Vec::new();
    let mut i: usize = 0;
    while i < corpus.len()
        invariant
            i <= corpus@.len(),
            out@.len() == i,
            views(terms@) == vocab(corpus@),
            forall|j: int|
                0 <= j < i ==> {
                    let m = (#[trigger] out@[j]).1@;
                    &&& out@[j].0@ == corpus@[j].0@
                    &&& keys_distinct(m)
                    &&& keys_of(m) == vocab(corpus@)
                    &&& forall|q: Seq<char>|
                        score_of(m, q) == vector_score(views(corpus@[j].1@), corpus@, q)
                    &&& forall|l: int|
                        0 <= l < m.len() ==> (#[trigger] m[l]).score < TFIDF_SCORE_MAX as u128
                },
        decreases corpus@.len() - i,
    {
        let name = corpus[i].0.clone();
        let m = doc_vector(&corpus[i].1, corpus, &terms);
        out.push((name, m));
        i = i + 1;
    }
    out
}

} // verus!

verus! {

/// A corpus of short documents flattens to a short word list.
pub proof fn lemma_corpus_words_len(c: Seq<(String, Vec<String>)>, m: nat)
    requires
        forall|i: int| 0 <= i < c.len() ==> views((#[trigger] c[i]).1@).len() <= m,
    ensures
        corpus_words(c).len() <= c.len() * m,
    decreases c.len(),
{
    if c.len() == 0 {
        assert(c.len() * m == 0) by (nonlinear_arith)
            requires
                c.len() == 0,
        ;
    } else {
        assert(forall|i: int|
            0 <= i < c.drop_last().len() ==> views((#[trigger] c.drop_last()[i]).1@).len() <= m);
        lemma_corpus_words_len(c.drop_last(), m);
        assert(views(c.last().1@).len() <= m);
        assert((c.len() - 1) * m + m == c.len() * m) by (nonlinear_arith);
    }
}

} // verus!

verus! {

/// A term that occurs in every corpus document weighs nothing: its
/// inverse document frequency is zero.
pub proof fn lemma_idf_ubiquitous(c: Seq<(String, Vec<String>)>, term: Seq<char>)
    requires
        c.len() >= 1,
        df(c, term) == c.len(),
    ensures
        idf_scaled(c, term) == 0,
        tfidf_scaled(views(c[0].1@), c, term) == 0,
{
    crate::fixed::lemma_ln_scaled_same(c.len());
    assert(tf_scaled(views(c[0].1@), term) * 0 == 0) by (nonlinear_arith);
    assert((0 as nat) / (SCALE as nat) == 0) by (nonlinear_arith);
}

} // verus!
