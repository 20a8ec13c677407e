//! RAKE keyword scoring.
//!
//! Candidate phrases are flattened into words. Each word's degree is the sum
//! of the lengths of the phrase occurrences it appears in; its frequency is
//! its raw occurrence count; its score is degree over frequency. A phrase
//! scores the sum of its words' scores. Word keys and phrase keys live in
//! one mapping, with the word score winning when a phrase is a single word.

use crate::fixed::SCALE;
use crate::preprocess::{views, ws_tokens, CorpusSnippets};
use crate::scores::{
    has_key, keys_distinct, keys_of, score_of, ScoreEntry, Scores,
};
use vstd::prelude::*;

verus! {

/// No document may flatten to more words than this: it keeps every RAKE
/// score within the fixed-width arithmetic of the similarity measures.
pub const RAKE_TOKEN_LIMIT: usize = 32768;

/// An upper bound on every RAKE score of a document within
/// [`RAKE_TOKEN_LIMIT`].
pub const RAKE_SCORE_MAX: u128 = 0x2_0000_0000_0000_0000;

/// The words of one phrase.
pub open spec fn phrase_words(p: Seq<char>) -> Seq<Seq<char>> {
    ws_tokens(p)
}

/// Every word of every phrase, in order, duplicates kept.
pub open spec fn words_of(ph: Seq<Seq<char>>) -> Seq<Seq<char>>
    decreases ph.len(),
{
    if ph.len() == 0 {
        Seq::empty()
    } else {
        words_of(ph.drop_last()) + phrase_words(ph.last())
    }
}

/// The occurrences of `w` in `ts`.
pub open spec fn count_in(ts: Seq<Seq<char>>, w: Seq<char>) -> nat
    decreases ts.len(),
{
    if ts.len() == 0 {
        0
    } else {
        count_in(ts.drop_last(), w) + if ts.last() == w {
            1nat
        } else {
            0nat
        }
    }
}

/// The raw occurrence count of `w` across all phrases.
pub open spec fn freq(ph: Seq<Seq<char>>, w: Seq<char>) -> nat {
    count_in(words_of(ph), w)
}

/// The co-occurrence degree of `w`: for every phrase occurrence containing
/// it, the phrase's length in words, counted once per occurrence of `w`.
pub open spec fn degree(ph: Seq<Seq<char>>, w: Seq<char>) -> nat
    decreases ph.len(),
{
    if ph.len() == 0 {
        0
    } else {
        degree(ph.drop_last(), w) + count_in(phrase_words(ph.last()), w) * phrase_words(
            ph.last(),
        ).len()
    }
}

/// The score of a word: degree over frequency, in fixed point.
pub open spec fn word_score(ph: Seq<Seq<char>>, w: Seq<char>) -> nat {
    degree(ph, w) * (SCALE as nat) / freq(ph, w)
}

/// The sum of the word scores of `ws`.
pub open spec fn phrase_sum(ws: Seq<Seq<char>>, ph: Seq<Seq<char>>) -> nat
    decreases ws.len(),
{
    if ws.len() == 0 {
        0
    } else {
        phrase_sum(ws.drop_last(), ph) + word_score(ph, ws.last())
    }
}

/// The score of a phrase: the sum of the scores of its words.
pub open spec fn phrase_score(ph: Seq<Seq<char>>, p: Seq<char>) -> nat {
    phrase_sum(phrase_words(p), ph)
}

/// `ts` with later duplicates dropped: first occurrences, in order.
pub open spec fn dedup(ts: Seq<Seq<char>>) -> Seq<Seq<char>>
    decreases ts.len(),
{
    if ts.len() == 0 {
        Seq::empty()
    } else {
        let rest = dedup(ts.drop_last());
        if rest.contains(ts.last()) {
            rest
        } else {
            rest.push(ts.last())
        }
    }
}

/// `ts` without the elements that occur in `others`.
pub open spec fn drop_contained(ts: Seq<Seq<char>>, others: Seq<Seq<char>>) -> Seq<Seq<char>>
    decreases ts.len(),
{
    if ts.len() == 0 {
        Seq::empty()
    } else {
        let rest = drop_contained(ts.drop_last(), others);
        if others.contains(ts.last()) {
            rest
        } else {
            rest.push(ts.last())
        }
    }
}

/// The keys of the RAKE mapping of `ph`: each distinct word, then each
/// distinct phrase that is not itself a word.
pub open spec fn rake_keys(ph: Seq<Seq<char>>) -> Seq<Seq<char>> {
    dedup(words_of(ph)) + drop_contained(dedup(ph), words_of(ph))
}

/// The RAKE score of any key: a word scores its word score (winning over
/// a phrase of the same spelling), a phrase its phrase score, anything
/// else zero.
pub open spec fn rake_score(ph: Seq<Seq<char>>, q: Seq<char>) -> nat {
    if words_of(ph).contains(q) {
        word_score(ph, q)
    } else if ph.contains(q) {
        phrase_score(ph, q)
    } else {
        0
    }
}

/// Deduplication keeps exactly the distinct elements, each once.
pub proof fn lemma_dedup_props_pub(ts: Seq<Seq<char>>)
    ensures
        forall|i: int, j: int| 0 <= i < j < dedup(ts).len() ==> dedup(ts)[i] != dedup(ts)[j],
        forall|q: Seq<char>| dedup(ts).contains(q) <==> ts.contains(q),
{
    lemma_dedup_props(ts);
}

proof fn lemma_dedup_props(ts: Seq<Seq<char>>)
    ensures
        forall|i: int, j: int|
            0 <= i < j < dedup(ts).len() ==> dedup(ts)[i] != dedup(ts)[j],
        forall|q: Seq<char>| dedup(ts).contains(q) <==> ts.contains(q),
    decreases ts.len(),
{
    if ts.len() > 0 {
        lemma_dedup_props(ts.drop_last());
        let rest = dedup(ts.drop_last());
        assert forall|q: Seq<char>| dedup(ts).contains(q) <==> ts.contains(q) by {
            if dedup(ts).contains(q) {
                if rest.contains(q) {
                    assert(ts.drop_last().contains(q));
                    let i = choose|i: int|
                        0 <= i < ts.drop_last().len() && ts.drop_last()[i] == q;
                    assert(ts[i] == q);
                } else {
                    assert(q == ts.last());
                    assert(ts[ts.len() - 1] == q);
                }
            }
            if ts.contains(q) {
                let i = choose|i: int| 0 <= i < ts.len() && ts[i] == q;
                if i < ts.len() - 1 {
                    assert(ts.drop_last()[i] == q);
                    assert(ts.drop_last().contains(q));
                    assert(rest.contains(q));
                    if !rest.contains(ts.last()) {
                        let j = choose|j: int| 0 <= j < rest.len() && rest[j] == q;
                        assert(dedup(ts)[j] == q);
                    }
                } else {
                    if rest.contains(q) {
                        let j = choose|j: int| 0 <= j < rest.len() && rest[j] == q;
                        assert(dedup(ts)[j] == q);
                    } else {
                        assert(dedup(ts).last() == q);
                    }
                }
            }
        }
    }
}

proof fn lemma_drop_contained_props(ts: Seq<Seq<char>>, others: Seq<Seq<char>>)
    requires
        forall|i: int, j: int| 0 <= i < j < ts.len() ==> ts[i] != ts[j],
    ensures
        forall|i: int, j: int|
            0 <= i < j < drop_contained(ts, others).len() ==> drop_contained(ts, others)[i]
                != drop_contained(ts, others)[j],
        forall|q: Seq<char>|
            drop_contained(ts, others).contains(q) <==> (ts.contains(q) && !others.contains(q)),
    decreases ts.len(),
{
    if ts.len() > 0 {
        assert(forall|i: int, j: int|
            0 <= i < j < ts.drop_last().len() ==> ts.drop_last()[i] != ts.drop_last()[j]);
        lemma_drop_contained_props(ts.drop_last(), others);
        let rest = drop_contained(ts.drop_last(), others);
        assert forall|q: Seq<char>|
            drop_contained(ts, others).contains(q) <==> (ts.contains(q) && !others.contains(q)) by {
            if drop_contained(ts, others).contains(q) {
                if rest.contains(q) {
                    assert(ts.drop_last().contains(q) && !others.contains(q));
                    let i = choose|i: int|
                        0 <= i < ts.drop_last().len() && ts.drop_last()[i] == q;
                    assert(ts[i] == q);
                } else {
                    assert(q == ts.last() && !others.contains(q));
                    assert(ts[ts.len() - 1] == q);
                }
            }
            if ts.contains(q) && !others.contains(q) {
                let i = choose|i: int| 0 <= i < ts.len() && ts[i] == q;
                if i < ts.len() - 1 {
                    assert(ts.drop_last()[i] == q);
                    assert(rest.contains(q));
                    if !others.contains(ts.last()) {
                        let j = choose|j: int| 0 <= j < rest.len() && rest[j] == q;
                        assert(drop_contained(ts, others)[j] == q);
                    }
                } else {
                    if !others.contains(ts.last()) {
                        assert(drop_contained(ts, others).last() == q);
                    }
                }
            }
            if drop_contained(ts, others).contains(q) && rest.contains(q) {
                let j = choose|j: int| 0 <= j < rest.len() && rest[j] == q;
                if !others.contains(ts.last()) {
                    assert(drop_contained(ts, others)[j] == q);
                }
            }
        }
    }
}

/// The occurrence count of a token never exceeds the list length.
pub proof fn lemma_count_le_pub(ts: Seq<Seq<char>>, w: Seq<char>)
    ensures
        count_in(ts, w) <= ts.len(),
{
    lemma_count_le(ts, w);
}

proof fn lemma_count_le(ts: Seq<Seq<char>>, w: Seq<char>)
    ensures
        count_in(ts, w) <= ts.len(),
    decreases ts.len(),
{
    if ts.len() > 0 {
        lemma_count_le(ts.drop_last(), w);
    }
}

proof fn lemma_count_pos(ts: Seq<Seq<char>>, w: Seq<char>)
    requires
        ts.contains(w),
    ensures
        count_in(ts, w) >= 1,
    decreases ts.len(),
{
    let i = choose|i: int| 0 <= i < ts.len() && ts[i] == w;
    if i < ts.len() - 1 {
        assert(ts.drop_last()[i] == w);
        lemma_count_pos(ts.drop_last(), w);
    }
}

proof fn lemma_degree_bound(ph: Seq<Seq<char>>, w: Seq<char>)
    ensures
        degree(ph, w) <= words_of(ph).len() * words_of(ph).len(),
    decreases ph.len(),
{
    if ph.len() > 0 {
        lemma_degree_bound(ph.drop_last(), w);
        lemma_count_le(phrase_words(ph.last()), w);
        let t = words_of(ph.drop_last()).len();
        let l = phrase_words(ph.last()).len();
        let c = count_in(phrase_words(ph.last()), w);
        assert(words_of(ph).len() == t + l);
        assert(degree(ph, w) <= t * t + c * l);
        assert(t * t + c * l <= (t + l) * (t + l)) by (nonlinear_arith)
            requires
                c <= l,
                t >= 0,
                l >= 0,
        ;
    }
}

proof fn lemma_word_score_bound(ph: Seq<Seq<char>>, w: Seq<char>)
    requires
        freq(ph, w) >= 1,
    ensures
        word_score(ph, w) <= words_of(ph).len() * words_of(ph).len() * (SCALE as nat),
{
    lemma_degree_bound(ph, w);
    let t2 = words_of(ph).len() * words_of(ph).len();
    assert(degree(ph, w) * (SCALE as nat) <= t2 * (SCALE as nat)) by (nonlinear_arith)
        requires
            degree(ph, w) <= t2,
    ;
    let f = freq(ph, w);
    assert(degree(ph, w) * (SCALE as nat) / f <= degree(ph, w) * (SCALE as nat) / 1) by {
        vstd::arithmetic::div_mod::lemma_div_is_ordered_by_denominator(
            (degree(ph, w) * (SCALE as nat)) as int,
            1,
            f as int,
        );
    }
}

proof fn lemma_phrase_sum_bound(ws: Seq<Seq<char>>, ph: Seq<Seq<char>>)
    requires
        forall|j: int| 0 <= j < ws.len() ==> words_of(ph).contains(#[trigger] ws[j]),
    ensures
        phrase_sum(ws, ph) <= ws.len() * (words_of(ph).len() * words_of(ph).len() * (SCALE as nat)),
    decreases ws.len(),
{
    let b = words_of(ph).len() * words_of(ph).len() * (SCALE as nat);
    if ws.len() > 0 {
        assert(forall|j: int|
            0 <= j < ws.drop_last().len() ==> words_of(ph).contains(#[trigger] ws.drop_last()[j]));
        lemma_phrase_sum_bound(ws.drop_last(), ph);
        assert(words_of(ph).contains(ws[ws.len() - 1]));
        lemma_count_pos(words_of(ph), ws.last());
        lemma_word_score_bound(ph, ws.last());
        assert((ws.len() - 1) * b + b == ws.len() * b) by (nonlinear_arith);
    }
}

/// Prefixes flatten to prefixes: the word count of a phrase prefix is at
/// most the whole document's.
pub proof fn lemma_words_prefix_len(ph: Seq<Seq<char>>, i: int)
    requires
        0 <= i <= ph.len(),
    ensures
        words_of(ph.subrange(0, i)).len() <= words_of(ph).len(),
    decreases ph.len() - i,
{
    if i == ph.len() {
        assert(ph.subrange(0, i) =~= ph);
    } else {
        lemma_words_prefix_len(ph, i + 1);
        let pre = ph.subrange(0, i + 1);
        assert(pre.drop_last() =~= ph.subrange(0, i));
        assert(words_of(pre) == words_of(ph.subrange(0, i)) + phrase_words(ph[i]));
    }
}

/// Each phrase's own word list is no longer than the whole document's.
proof fn lemma_phrase_len_le(ph: Seq<Seq<char>>, i: int)
    requires
        0 <= i < ph.len(),
    ensures
        phrase_words(ph[i]).len() <= words_of(ph).len(),
    decreases ph.len(),
{
    if i == ph.len() - 1 {
        assert(ph.last() == ph[i]);
    } else {
        assert(ph.drop_last()[i] == ph[i]);
        lemma_phrase_len_le(ph.drop_last(), i);
    }
}

/// Every word of every phrase occurs in the flattened word list.
proof fn lemma_words_of_contains(ph: Seq<Seq<char>>, i: int, j: int)
    requires
        0 <= i < ph.len(),
        0 <= j < phrase_words(ph[i]).len(),
    ensures
        words_of(ph).contains(phrase_words(ph[i])[j]),
    decreases ph.len(),
{
    if i == ph.len() - 1 {
        assert(ph.last() == ph[i]);
        let w = phrase_words(ph[i])[j];
        assert(words_of(ph)[words_of(ph.drop_last()).len() + j] == w);
    } else {
        assert(ph.drop_last()[i] == ph[i]);
        lemma_words_of_contains(ph.drop_last(), i, j);
        let w = phrase_words(ph[i])[j];
        let k = choose|k: int|
            0 <= k < words_of(ph.drop_last()).len() && words_of(ph.drop_last())[k] == w;
        assert(words_of(ph)[k] == w);
    }
}

} // verus!

verus! {

/// The distinct strings of a word list, in first-occurrence order.
pub fn distinct_words(words: &Vec<String>) -> (r: Vec<String>)
    ensures
        views(r@) == dedup(views(words@)),
{
    let mut r: Vec<String> = Vec::new();
    let mut i: usize = 0;
    proof {
        assert(views(words@).subrange(0, 0) =~= Seq::<Seq<char>>::empty());
        assert(views(r@) =~= Seq::<Seq<char>>::empty());
    }
    while i < words.len()
        invariant
            i <= words@.len(),
            views(r@) == dedup(views(words@).subrange(0, i as int)),
        decreases words@.len() - i,
    {
        proof {
            assert(views(words@).subrange(0, i as int + 1).drop_last() =~= views(words@).subrange(
                0,
                i as int,
            ));
            assert(views(words@).subrange(0, i as int + 1).last() == words@[i as int]@);
            crate::preprocess::lemma_word_in_views(r@, words@[i as int]@);
        }
        if !crate::preprocess::word_in_exec(&r, &words[i]) {
            let ghost old_r = r@;
            let w = words[i].clone();
            r.push(w);
            proof {
                crate::preprocess::lemma_views_push(old_r, words@[i as int]);
            }
        }
        i = i + 1;
    }
    proof {
        assert(views(words@).subrange(0, words@.len() as int) =~= views(words@));
    }
    r
}

/// The raw occurrence count of `w` in a word list.
pub fn word_frequency_pub(words: &Vec<String>, w: &String) -> (f: u128)
    ensures
        f as nat == count_in(views(words@), w@),
        f <= words@.len(),
{
    word_frequency(words, w)
}

/// The raw occurrence count of `w` in a word list.
fn word_frequency(words: &Vec<String>, w: &String) -> (f: u128)
    ensures
        f as nat == count_in(views(words@), w@),
        f <= words@.len(),
{
    let mut f: u128 = 0;
    let mut k: usize = 0;
    proof {
        assert(views(words@).subrange(0, 0) =~= Seq::<Seq<char>>::empty());
    }
    while k < words.len()
        invariant
            k <= words@.len(),
            f <= k,
            f as nat == count_in(views(words@).subrange(0, k as int), w@),
        decreases words@.len() - k,
    {
        proof {
            assert(views(words@).subrange(0, k as int + 1).drop_last() =~= views(
                words@,
            ).subrange(0, k as int));
            assert(views(words@).subrange(0, k as int + 1).last() == words@[k as int]@);
        }
        if words[k].eq(w) {
            f = f + 1;
        }
        k = k + 1;
    }
    proof {
        assert(views(words@).subrange(0, words@.len() as int) =~= views(words@));
    }
    f
}

/// The co-occurrence degree of `w` over the split phrases.
fn word_degree(splits: &Vec<Vec<String>>, w: &String, Ghost(ph): Ghost<Seq<Seq<char>>>) -> (deg:
    u128)
    requires
        splits@.len() == ph.len(),
        forall|j: int| 0 <= j < ph.len() ==> views((#[trigger] splits@[j])@) == phrase_words(ph[j]),
        words_of(ph).len() <= RAKE_TOKEN_LIMIT,
    ensures
        deg as nat == degree(ph, w@),
        deg as nat <= words_of(ph).len() * words_of(ph).len(),
{
    let mut deg: u128 = 0;
    let mut k: usize = 0;
    proof {
        assert(ph.subrange(0, 0) =~= Seq::<Seq<char>>::empty());
    }
    while k < splits.len()
        invariant
            k <= splits@.len(),
            splits@.len() == ph.len(),
            forall|j: int|
                0 <= j < ph.len() ==> views((#[trigger] splits@[j])@) == phrase_words(ph[j]),
            words_of(ph).len() <= RAKE_TOKEN_LIMIT,
            deg as nat == degree(ph.subrange(0, k as int), w@),
            deg as nat <= words_of(ph.subrange(0, k as int)).len() * words_of(
                ph.subrange(0, k as int),
            ).len(),
        decreases splits@.len() - k,
    {
        let pk: &Vec<String> = &splits[k];
        let mut c: u128 = 0;
        let mut t: usize = 0;
        proof {
            assert(views(pk@).subrange(0, 0) =~= Seq::<Seq<char>>::empty());
        }
        while t < pk.len()
            invariant
                t <= pk@.len(),
                c <= t,
                views(pk@) == phrase_words(ph[k as int]),
                k < ph.len(),
                c as nat == count_in(views(pk@).subrange(0, t as int), w@),
            decreases pk@.len() - t,
        {
            proof {
                assert(views(pk@).subrange(0, t as int + 1).drop_last() =~= views(pk@).subrange(
                    0,
                    t as int,
                ));
                assert(views(pk@).subrange(0, t as int + 1).last() == pk@[t as int]@);
            }
            if pk[t].eq(w) {
                c = c + 1;
            }
            t = t + 1;
        }
        proof {
            assert(views(pk@).subrange(0, pk@.len() as int) =~= views(pk@));
            assert(c as nat == count_in(phrase_words(ph[k as int]), w@));
            let pre = ph.subrange(0, k as int + 1);
            assert(pre.drop_last() =~= ph.subrange(0, k as int));
            assert(pre.last() == ph[k as int]);
            assert(words_of(pre) == words_of(ph.subrange(0, k as int)) + phrase_words(
                ph[k as int],
            ));
            lemma_degree_bound(pre, w@);
            lemma_words_prefix_len(ph, k as int + 1);
            assert(words_of(pre).len() * words_of(pre).len() <= words_of(ph).len() * words_of(
                ph,
            ).len()) by (nonlinear_arith)
                requires
                    words_of(pre).len() <= words_of(ph).len(),
            ;
            assert(words_of(ph).len() * words_of(ph).len() <= 32768 * 32768) by (nonlinear_arith)
                requires
                    words_of(ph).len() <= 32768,
            ;
        }
        deg = deg + c * (pk.len() as u128);
        k = k + 1;
    }
    proof {
        assert(ph.subrange(0, ph.len() as int) =~= ph);
        lemma_degree_bound(ph, w@);
    }
    deg
}

/// The RAKE score map of one document's phrase list: every distinct word
/// keyed to its word score, every distinct phrase that is not itself a
/// word keyed to its phrase score.
pub fn rake(document: Vec<String>) -> (r: Scores)
    requires
        words_of(views(document@)).len() <= RAKE_TOKEN_LIMIT,
    ensures
        keys_distinct(r@),
        keys_of(r@) == rake_keys(views(document@)),
        forall|q: Seq<char>| score_of(r@, q) == rake_score(views(document@), q),
        forall|i: int| 0 <= i < r@.len() ==> (#[trigger] r@[i]).score <= RAKE_SCORE_MAX,
{
    let ghost ph = views(document@);
    // the words of each phrase
    let mut splits: Vec<Vec<String>> = Vec::new();
    let mut i: usize = 0;
    while i < document.len()
        invariant
            i <= document@.len(),
            splits@.len() == i,
            ph == views(document@),
            forall|j: int| 0 <= j < i ==> views((#[trigger] splits@[j])@) == phrase_words(ph[j]),
        decreases document@.len() - i,
    {
        let cv = crate::preprocess::char_vec(document[i].as_str());
        let pw = crate::preprocess::split_tokens(&cv);
        splits.push(pw);
        i = i + 1;
    }
    // the flattened word list
    let mut words: Vec<String> = Vec::new();
    i = 0;
    proof {
        assert(ph.subrange(0, 0) =~= Seq::<Seq<char>>::empty());
        assert(views(words@) =~= Seq::<Seq<char>>::empty());
    }
    while i < splits.len()
        invariant
            i <= splits@.len(),
            splits@.len() == ph.len(),
            ph == views(document@),
            forall|j: int| 0 <= j < ph.len() ==> views((#[trigger] splits@[j])@) == phrase_words(ph[j]),
            views(words@) == words_of(ph.subrange(0, i as int)),
        decreases splits@.len() - i,
    {
        let mut j: usize = 0;
        while j < splits[i].len()
            invariant
                j <= splits@[i as int]@.len(),
                i < splits@.len(),
                splits@.len() == ph.len(),
                ph == views(document@),
                forall|l: int|
                    0 <= l < ph.len() ==> views((#[trigger] splits@[l])@) == phrase_words(ph[l]),
                views(words@) == words_of(ph.subrange(0, i as int)) + views(
                    splits@[i as int]@,
                ).subrange(0, j as int),
            decreases splits@[i as int]@.len() - j,
        {
            let w = splits[i][j].clone();
            let ghost old_words = words@;
            words.push(w);
            proof {
                crate::preprocess::lemma_views_push(old_words, splits@[i as int]@[j as int]);
                assert(views(words@) =~= words_of(ph.subrange(0, i as int)) + views(
                    splits@[i as int]@,
                ).subrange(0, j as int + 1));
            }
            j = j + 1;
        }
        proof {
            assert(views(splits@[i as int]@).subrange(
                0,
                splits@[i as int]@.len() as int,
            ) =~= views(splits@[i as int]@));
            let pre = ph.subrange(0, i as int + 1);
            assert(pre.drop_last() =~= ph.subrange(0, i as int));
            assert(pre.last() == ph[i as int]);
            assert(views(words@) == words_of(pre));
        }
        i = i + 1;
    }
    proof {
        assert(ph.subrange(0, ph.len() as int) =~= ph);
        assert(views(words@) == words_of(ph));
    }
    // the distinct words
    let mut uniq: Vec<String> = Vec::new();
    i = 0;
    proof {
        assert(views(words@).subrange(0, 0) =~= Seq::<Seq<char>>::empty());
        assert(views(uniq@) =~= Seq::<Seq<char>>::empty());
    }
    while i < words.len()
        invariant
            i <= words@.len(),
            views(words@) == words_of(ph),
            views(uniq@) == dedup(views(words@).subrange(0, i as int)),
        decreases words@.len() - i,
    {
        proof {
            assert(views(words@).subrange(0, i as int + 1).drop_last() =~= views(words@).subrange(
                0,
                i as int,
            ));
            assert(views(words@).subrange(0, i as int + 1).last() == words@[i as int]@);
            crate::preprocess::lemma_word_in_views(uniq@, words@[i as int]@);
        }
        if !crate::preprocess::word_in_exec(&uniq, &words[i]) {
            let ghost old_uniq = uniq@;
            let w = words[i].clone();
            uniq.push(w);
            proof {
                crate::preprocess::lemma_views_push(old_uniq, words@[i as int]);
            }
        }
        i = i + 1;
    }
    proof {
        assert(views(words@).subrange(0, words@.len() as int) =~= views(words@));
        assert(views(uniq@) == dedup(words_of(ph)));
        lemma_dedup_props(words_of(ph));
    }
    let ghost word_keys = dedup(words_of(ph));
    // one entry per distinct word
    let mut out: Scores = Vec::new();
    i = 0;
    proof {
        assert(keys_of(out@) =~= word_keys.subrange(0, 0));
    }
    while i < uniq.len()
        invariant
            i <= uniq@.len(),
            out@.len() == i,
            ph == views(document@),
            views(words@) == words_of(ph),
            views(uniq@) == word_keys,
            word_keys == dedup(words_of(ph)),
            words_of(ph).len() <= RAKE_TOKEN_LIMIT,
            splits@.len() == ph.len(),
            forall|j: int| 0 <= j < ph.len() ==> views((#[trigger] splits@[j])@) == phrase_words(ph[j]),
            keys_of(out@) == word_keys.subrange(0, i as int),
            forall|j: int|
                0 <= j < i ==> (#[trigger] out@[j]).score as nat == rake_score(ph, out@[j].key@)
                    && out@[j].score <= RAKE_SCORE_MAX,
        decreases uniq@.len() - i,
    {
        let f = word_frequency(&words, &uniq[i]);
        proof {
            lemma_dedup_props(words_of(ph));
            assert(uniq@[i as int]@ == word_keys[i as int]);
            assert(words_of(ph).contains(word_keys[i as int])) by {
                assert(word_keys.contains(word_keys[i as int]));
            }
            lemma_count_pos(words_of(ph), uniq@[i as int]@);
        }
        let deg = word_degree(&splits, &uniq[i], Ghost(ph));
        proof {
            assert(words_of(ph).len() * words_of(ph).len() <= 32768 * 32768) by (nonlinear_arith)
                requires
                    words_of(ph).len() <= 32768,
            ;
            assert(deg as nat * (SCALE as nat) <= (32768 * 32768) * (SCALE as nat))
                by (nonlinear_arith)
                requires
                    deg as nat <= words_of(ph).len() * words_of(ph).len(),
                    words_of(ph).len() * words_of(ph).len() <= 32768 * 32768,
            ;
        }
        let sc: u128 = deg * (SCALE as u128) / f;
        proof {
            assert(sc as nat == word_score(ph, uniq@[i as int]@));
            assert(rake_score(ph, uniq@[i as int]@) == word_score(ph, uniq@[i as int]@));
            vstd::arithmetic::div_mod::lemma_div_is_ordered_by_denominator(
                (deg as nat * (SCALE as nat)) as int,
                1,
                f as int,
            );
            assert(sc <= RAKE_SCORE_MAX);
        }
        let key = uniq[i].clone();
        let ghost old_out = out@;
        out.push(ScoreEntry { key, score: sc });
        proof {
            assert(keys_of(out@) =~= keys_of(old_out).push(uniq@[i as int]@));
            assert(keys_of(out@) =~= word_keys.subrange(0, i as int + 1));
        }
        i = i + 1;
    }
    proof {
        assert(word_keys.subrange(0, word_keys.len() as int) =~= word_keys);
        assert(keys_of(out@) == word_keys);
    }
    // the distinct phrases
    let mut uph: Vec<String> = Vec::new();
    i = 0;
    proof {
        assert(ph.subrange(0, 0) =~= Seq::<Seq<char>>::empty());
        assert(views(uph@) =~= Seq::<Seq<char>>::empty());
    }
    while i < document.len()
        invariant
            i <= document@.len(),
            ph == views(document@),
            views(uph@) == dedup(ph.subrange(0, i as int)),
        decreases document@.len() - i,
    {
        proof {
            assert(ph.subrange(0, i as int + 1).drop_last() =~= ph.subrange(0, i as int));
            assert(ph.subrange(0, i as int + 1).last() == document@[i as int]@);
            crate::preprocess::lemma_word_in_views(uph@, document@[i as int]@);
        }
        if !crate::preprocess::word_in_exec(&uph, &document[i]) {
            let ghost old_uph = uph@;
            let p = document[i].clone();
            uph.push(p);
            proof {
                crate::preprocess::lemma_views_push(old_uph, document@[i as int]);
            }
        }
        i = i + 1;
    }
    proof {
        assert(ph.subrange(0, ph.len() as int) =~= ph);
        assert(views(uph@) == dedup(ph));
        lemma_dedup_props(ph);
        lemma_dedup_props(words_of(ph));
        lemma_drop_contained_props(dedup(ph), words_of(ph));
        assert(drop_contained(dedup(ph).subrange(0, 0), words_of(ph)) =~= Seq::<Seq<char>>::empty());
        assert(keys_of(out@) =~= word_keys + drop_contained(
            dedup(ph).subrange(0, 0),
            words_of(ph),
        ));
        assert(forall|j: int| 0 <= j < out@.len() ==> (#[trigger] out@[j]).key@ == keys_of(out@)[j]);
        assert(keys_distinct(out@));
    }
    // one entry per distinct phrase that is not itself a word
    i = 0;
    while i < uph.len()
        invariant
            i <= uph@.len(),
            ph == views(document@),
            views(words@) == words_of(ph),
            views(uph@) == dedup(ph),
            word_keys == dedup(words_of(ph)),
            words_of(ph).len() <= RAKE_TOKEN_LIMIT,
            keys_of(out@) == word_keys + drop_contained(
                dedup(ph).subrange(0, i as int),
                words_of(ph),
            ),
            out@.len() >= word_keys.len(),
            forall|j: int|
                0 <= j < out@.len() ==> (#[trigger] out@[j]).score as nat == rake_score(
                    ph,
                    out@[j].key@,
                ) && out@[j].score <= RAKE_SCORE_MAX,
            keys_distinct(out@),
            forall|j: int| 0 <= j < word_keys.len() ==> (#[trigger] out@[j]).key@ == word_keys[j],
        decreases uph@.len() - i,
    {
        proof {
            lemma_dedup_props(ph);
            lemma_dedup_props(words_of(ph));
            assert(dedup(ph).subrange(0, i as int + 1).drop_last() =~= dedup(ph).subrange(
                0,
                i as int,
            ));
            assert(dedup(ph).subrange(0, i as int + 1).last() == uph@[i as int]@);
            crate::preprocess::lemma_word_in_views(words@, uph@[i as int]@);
        }
        if !crate::preprocess::word_in_exec(&words, &uph[i]) {
            let ghost p = uph@[i as int]@;
            proof {
                assert(dedup(ph).contains(p)) by {
                    assert(dedup(ph)[i as int] == p);
                }
                assert(ph.contains(p));
            }
            let cv = crate::preprocess::char_vec(uph[i].as_str());
            let pw = crate::preprocess::split_tokens(&cv);
            let ghost pws = phrase_words(p);
            proof {
                assert(views(pw@) == pws);
                let idx = choose|idx: int| 0 <= idx < ph.len() && ph[idx] == p;
                assert forall|j: int| 0 <= j < pws.len() implies words_of(ph).contains(
                    #[trigger] pws[j],
                ) by {
                    lemma_words_of_contains(ph, idx, j);
                }
            }
            let mut sum: u128 = 0;
            let mut t: usize = 0;
            proof {
                assert(pws.subrange(0, 0) =~= Seq::<Seq<char>>::empty());
            }
            while t < pw.len()
                invariant
                    t <= pw@.len(),
                    views(pw@) == pws,
                    ph.contains(p),
                    pws == phrase_words(p),
                    ph == views(document@),
                    views(words@) == words_of(ph),
                    word_keys == dedup(words_of(ph)),
                    words_of(ph).len() <= RAKE_TOKEN_LIMIT,
                    forall|j: int|
                        0 <= j < pws.len() ==> words_of(ph).contains(#[trigger] pws[j]),
                    sum as nat == phrase_sum(pws.subrange(0, t as int), ph),
                    keys_distinct(out@),
                    forall|j: int|
                        0 <= j < out@.len() ==> (#[trigger] out@[j]).score as nat == rake_score(
                            ph,
                            out@[j].key@,
                        ) && out@[j].score <= RAKE_SCORE_MAX,
                    forall|j: int|
                        0 <= j < word_keys.len() ==> (#[trigger] out@[j]).key@ == word_keys[j],
                    out@.len() >= word_keys.len(),
                decreases pw@.len() - t,
            {
                let ws_val = crate::scores::get_score(&out, &pw[t]);
                proof {
                    let w = pws[t as int];
                    assert(words_of(ph).contains(w));
                    lemma_dedup_props(words_of(ph));
                    assert(word_keys.contains(w));
                    let j = choose|j: int| 0 <= j < word_keys.len() && word_keys[j] == w;
                    assert(out@[j].key@ == w);
                    assert(forall|l: int| 0 <= l < j ==> out@[l].key@ != w);
                    crate::scores::lemma_score_at(out@, j);
                    assert(ws_val as nat == rake_score(ph, w));
                    assert(rake_score(ph, w) == word_score(ph, w));
                    // bound the running sum
                    assert(pws.subrange(0, t as int + 1).drop_last() =~= pws.subrange(0, t as int));
                    assert(pws.subrange(0, t as int + 1).last() == pws[t as int]);
                    assert(forall|l: int|
                        0 <= l < pws.subrange(0, t as int + 1).len() ==> words_of(ph).contains(
                            #[trigger] pws.subrange(0, t as int + 1)[l],
                        ));
                    lemma_phrase_sum_bound(pws.subrange(0, t as int + 1), ph);
                    assert(pws.subrange(0, t as int + 1).len() <= 32768) by {
                        lemma_count_pos(words_of(ph), w);
                        lemma_count_le(words_of(ph), w);
                        assert(pws.len() <= words_of(ph).len()) by {
                            let idx = choose|idx: int| 0 <= idx < ph.len() && ph[idx] == p;
                            lemma_phrase_len_le(ph, idx);
                        }
                    }
                    assert((t as nat + 1) * (words_of(ph).len() * words_of(ph).len() * (
                    SCALE as nat)) <= 32768 * (32768 * 32768 * 1_000_000)) by (nonlinear_arith)
                        requires
                            t as nat + 1 <= 32768,
                            words_of(ph).len() <= 32768,
                    ;
                }
                sum = sum + ws_val;
                t = t + 1;
            }
            proof {
                assert(pws.subrange(0, pws.len() as int) =~= pws);
                assert(sum as nat == phrase_score(ph, p));
                assert(rake_score(ph, p) == phrase_score(ph, p));
                lemma_phrase_sum_bound(pws, ph);
                assert(pws.len() <= 32768) by {
                    let idx = choose|idx: int| 0 <= idx < ph.len() && ph[idx] == p;
                    lemma_phrase_len_le(ph, idx);
                }
                let b = words_of(ph).len() * words_of(ph).len() * (SCALE as nat);
                assert(pws.len() * b <= 32768 * (32768 * 32768 * 1_000_000)) by (nonlinear_arith)
                    requires
                        pws.len() <= 32768,
                        b == words_of(ph).len() * words_of(ph).len() * (SCALE as nat),
                        words_of(ph).len() <= 32768,
                        SCALE == 1_000_000,
                ;
                assert(32768 * (32768 * 32768 * 1_000_000) < RAKE_SCORE_MAX as nat)
                    by (nonlinear_arith);
                assert(sum as nat <= RAKE_SCORE_MAX);
            }
            let key = uph[i].clone();
            let ghost old_out = out@;
            out.push(ScoreEntry { key, score: sum });
            proof {
                lemma_dedup_props(ph);
                assert(forall|a: int, b: int|
                    0 <= a < b < dedup(ph).subrange(0, i as int).len() ==> dedup(ph).subrange(
                        0,
                        i as int,
                    )[a] != dedup(ph).subrange(0, i as int)[b]);
                assert(keys_of(out@) =~= keys_of(old_out).push(p));
                assert(keys_of(out@) =~= word_keys + drop_contained(
                    dedup(ph).subrange(0, i as int + 1),
                    words_of(ph),
                ));
                // the new key is distinct from every earlier one
                lemma_dedup_props(words_of(ph));
                lemma_drop_contained_props(dedup(ph).subrange(0, i as int), words_of(ph));
                assert forall|l: int| 0 <= l < old_out.len() implies old_out[l].key@ != p by {
                    if l < word_keys.len() {
                        assert(old_out[l].key@ == word_keys[l]);
                        assert(word_keys.contains(word_keys[l]));
                        assert(words_of(ph).contains(word_keys[l]));
                    } else {
                        let dpart = drop_contained(dedup(ph).subrange(0, i as int), words_of(ph));
                        assert(keys_of(old_out)[l] == dpart[l - word_keys.len()]);
                        assert(dpart.contains(dpart[l - word_keys.len()]));
                        assert(dedup(ph).subrange(0, i as int).contains(old_out[l].key@));
                        let x = choose|x: int|
                            0 <= x < i && dedup(ph).subrange(0, i as int)[x] == old_out[l].key@;
                        assert(dedup(ph)[x] == old_out[l].key@);
                        assert(dedup(ph)[i as int] == p);
                    }
                }
            }
        } else {
            proof {
                assert(words_of(ph).contains(uph@[i as int]@));
            }
        }
        i = i + 1;
    }
    proof {
        assert(dedup(ph).subrange(0, dedup(ph).len() as int) =~= dedup(ph));
        assert(keys_of(out@) == rake_keys(ph));
        // every key scores as the specification says; every other key scores zero
        lemma_dedup_props(words_of(ph));
        lemma_dedup_props(ph);
        lemma_drop_contained_props(dedup(ph), words_of(ph));
        assert forall|q: Seq<char>| score_of(out@, q) == rake_score(ph, q) by {
            if has_key(out@, q) {
                let j = choose|j: int| 0 <= j < out@.len() && (#[trigger] out@[j].key@) == q;
                assert(forall|l: int| 0 <= l < j ==> out@[l].key@ != q);
                crate::scores::lemma_score_at(out@, j);
            } else {
                crate::scores::lemma_score_absent(out@, q);
                if words_of(ph).contains(q) {
                    assert(word_keys.contains(q));
                    let j = choose|j: int| 0 <= j < word_keys.len() && word_keys[j] == q;
                    assert(keys_of(out@)[j] == q);
                    assert(out@[j].key@ == q);
                    assert(false);
                } else if ph.contains(q) {
                    assert(dedup(ph).contains(q));
                    let dpart = drop_contained(dedup(ph), words_of(ph));
                    assert(dpart.contains(q));
                    let j = choose|j: int| 0 <= j < dpart.len() && dpart[j] == q;
                    assert(keys_of(out@)[word_keys.len() + j] == q);
                    assert(out@[word_keys.len() + j].key@ == q);
                    assert(false);
                }
            }
        }
    }
    out
}

/// The RAKE score maps of a whole corpus, one per document.
pub fn corpus_rake(corpus: &CorpusSnippets) -> (out: Vec<(String, Scores)>)
    requires
        forall|i: int|
            0 <= i < corpus@.len() ==> words_of(views((#[trigger] corpus@[i]).1@)).len()
                <= RAKE_TOKEN_LIMIT,
    ensures
        out@.len() == corpus@.len(),
        forall|i: int|
            0 <= i < out@.len() ==> {
                let m = (#[trigger] out@[i]).1@;
                let doc = views(corpus@[i].1@);
                &&& out@[i].0@ == corpus@[i].0@
                &&& keys_distinct(m)
                &&& keys_of(m) == rake_keys(doc)
                &&& forall|q: Seq<char>| score_of(m, q) == rake_score(doc, q)
                &&& forall|j: int| 0 <= j < m.len() ==> (#[trigger] m[j]).score <= RAKE_SCORE_MAX
            },
{
    let mut out: Vec<(String, Scores)> = Vec::new();
    let mut i: usize = 0;
    while i < corpus.len()
        invariant
            i <= corpus@.len(),
            out@.len() == i,
            forall|j: int|
                0 <= j < corpus@.len() ==> words_of(views((#[trigger] corpus@[j]).1@)).len()
                    <= RAKE_TOKEN_LIMIT,
            forall|j: int|
                0 <= j < i ==> {
                    let m = (#[trigger] out@[j]).1@;
                    let doc = views(corpus@[j].1@);
                    &&& out@[j].0@ == corpus@[j].0@
                    &&& keys_distinct(m)
                    &&& keys_of(m) == rake_keys(doc)
                    &&& forall|q: Seq<char>| score_of(m, q) == rake_score(doc, q)
                    &&& forall|l: int| 0 <= l < m.len() ==> (#[trigger] m[l]).score <= RAKE_SCORE_MAX
                },
        decreases corpus@.len() - i,
    {
        let name = corpus[i].0.clone();
        let doc = corpus[i].1.clone();
        proof {
            assert(views(doc@) == views(corpus@[i as int].1@));
        }
        let m = rake(doc);
        out.push((name, m));
        i = i + 1;
    }
    out
}

} // verus!

verus! {

/// Deduplication never lengthens a list.
pub proof fn lemma_dedup_len(ts: Seq<Seq<char>>)
    ensures
        dedup(ts).len() <= ts.len(),
    decreases ts.len(),
{
    if ts.len() > 0 {
        lemma_dedup_len(ts.drop_last());
    }
}

/// Dropping contained elements never lengthens a list.
pub proof fn lemma_drop_contained_len(ts: Seq<Seq<char>>, others: Seq<Seq<char>>)
    ensures
        drop_contained(ts, others).len() <= ts.len(),
    decreases ts.len(),
{
    if ts.len() > 0 {
        lemma_drop_contained_len(ts.drop_last(), others);
    }
}

/// A RAKE map holds at most one key per word occurrence plus one per
/// phrase.
pub proof fn lemma_rake_keys_len(ph: Seq<Seq<char>>)
    ensures
        rake_keys(ph).len() <= words_of(ph).len() + ph.len(),
{
    lemma_dedup_len(words_of(ph));
    lemma_dedup_len(ph);
    lemma_drop_contained_len(dedup(ph), words_of(ph));
}

} // verus!
