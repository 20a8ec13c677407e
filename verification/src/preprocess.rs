//! Text normalization: one raw snippet becomes two token streams.
//!
//! The flat term list feeds the TF-IDF scorer: lowercase, strip punctuation,
//! split on whitespace, drop stopwords, stem what remains. The phrase list
//! feeds the RAKE scorer: lowercase, strip punctuation, split on whitespace,
//! stem every token, then split the stemmed stream into phrases at stopword
//! boundaries and drop phrases that are themselves stopwords.

use vstd::prelude::*;

verus! {

/// A corpus as raw text: one `(document name, document text)` pair each.
pub type Corpus = Vec<(String, String)>;

/// A corpus as token streams: one `(document name, tokens)` pair each.
pub type CorpusSnippets = Vec<(String, Vec<String>)>;

/// The views of a list of strings.
pub open spec fn views(ss: Seq<String>) -> Seq<Seq<char>> {
    ss.map_values(|s: String| s@)
}

/// ASCII punctuation: the four runs `!`..`/`, `:`..`@`, `[`..`` ` `` and
/// `{`..`~`.
pub open spec fn is_punct(c: char) -> bool {
    (0x21 <= c as u32 <= 0x2f) || (0x3a <= c as u32 <= 0x40) || (0x5b <= c as u32 <= 0x60) || (0x7b
        <= c as u32 <= 0x7e)
}

/// Whitespace: the characters with the Unicode white space property.
pub open spec fn is_space(c: char) -> bool {
    (0x9 <= c as u32 <= 0xd) || c as u32 == 0x20 || c as u32 == 0x85 || c as u32 == 0xa0 || c
        as u32 == 0x1680 || (0x2000 <= c as u32 <= 0x200a) || c as u32 == 0x2028 || c as u32
        == 0x2029 || c as u32 == 0x202f || c as u32 == 0x205f || c as u32 == 0x3000
}

/// ASCII lowercasing of one character.
pub open spec fn lower_char(c: char) -> char {
    if 0x41 <= c as u32 <= 0x5a {
        (c as u32 + 0x20) as char
    } else {
        c
    }
}

/// `text`, lowercased, with every punctuation character removed.
pub open spec fn clean_text(s: Seq<char>) -> Seq<char>
    decreases s.len(),
{
    if s.len() == 0 {
        Seq::empty()
    } else {
        let rest = clean_text(s.drop_last());
        let l = lower_char(s.last());
        if is_punct(l) {
            rest
        } else {
            rest.push(l)
        }
    }
}

/// A whitespace scan: the completed tokens so far, and the unfinished one.
pub open spec fn ws_scan(s: Seq<char>) -> (Seq<Seq<char>>, Seq<char>)
    decreases s.len(),
{
    if s.len() == 0 {
        (Seq::empty(), Seq::empty())
    } else {
        let (toks, cur) = ws_scan(s.drop_last());
        let c = s.last();
        if is_space(c) {
            if cur.len() > 0 {
                (toks.push(cur), Seq::<char>::empty())
            } else {
                (toks, cur)
            }
        } else {
            (toks, cur.push(c))
        }
    }
}

/// `s` split on whitespace: its maximal runs of non-whitespace characters.
pub open spec fn ws_tokens(s: Seq<char>) -> Seq<Seq<char>> {
    let (toks, cur) = ws_scan(s);
    if cur.len() > 0 {
        toks.push(cur)
    } else {
        toks
    }
}

/// The cleaned, whitespace-split tokens of a raw text.
pub open spec fn tokenize(s: Seq<char>) -> Seq<Seq<char>> {
    ws_tokens(clean_text(s))
}

/// `w` occurs in the word list `ws`.
pub open spec fn word_in(ws: Seq<String>, w: Seq<char>) -> bool {
    exists|i: int| 0 <= i < ws.len() && #[trigger] ws[i]@ == w
}

/// What the Snowball English stemmer returns for one lowercase word;
/// a function of the word alone.
pub uninterp spec fn stem_of(w: Seq<char>) -> Seq<char>;

/// Each token of `ts`, stemmed.
pub open spec fn stemmed(ts: Seq<Seq<char>>) -> Seq<Seq<char>> {
    ts.map_values(|t: Seq<char>| stem_of(t))
}

/// `ts` with every element that occurs in the stopword list dropped.
pub open spec fn drop_stops(ts: Seq<Seq<char>>, stops: Seq<String>) -> Seq<Seq<char>>
    decreases ts.len(),
{
    if ts.len() == 0 {
        Seq::empty()
    } else {
        let rest = drop_stops(ts.drop_last(), stops);
        if word_in(stops, ts.last()) {
            rest
        } else {
            rest.push(ts.last())
        }
    }
}

/// The TF-IDF term stream of a raw text: tokens, stopwords dropped,
/// stemmed.
pub open spec fn tfidf_terms(text: Seq<char>, stops: Seq<String>) -> Seq<Seq<char>> {
    stemmed(drop_stops(tokenize(text), stops))
}

/// The words of a phrase, rejoined with single spaces.
pub open spec fn join_words(ws: Seq<Seq<char>>) -> Seq<char>
    decreases ws.len(),
{
    if ws.len() == 0 {
        Seq::empty()
    } else if ws.len() == 1 {
        ws[0]
    } else {
        join_words(ws.drop_last()) + seq![' '] + ws.last()
    }
}

/// A phrase scan over stemmed tokens: the completed phrases so far, and
/// the words of the unfinished one. A stopword closes the current phrase;
/// any other token extends it.
pub open spec fn phrase_scan(ts: Seq<Seq<char>>, stops: Seq<String>) -> (Seq<Seq<char>>, Seq<
    Seq<char>,
>)
    decreases ts.len(),
{
    if ts.len() == 0 {
        (Seq::empty(), Seq::empty())
    } else {
        let (ph, cur) = phrase_scan(ts.drop_last(), stops);
        let w = ts.last();
        if word_in(stops, w) {
            if cur.len() > 0 {
                (ph.push(join_words(cur)), Seq::<Seq<char>>::empty())
            } else {
                (ph, cur)
            }
        } else {
            (ph, cur.push(w))
        }
    }
}

/// The RAKE candidate phrases of a raw text: runs of stemmed non-stopword
/// tokens between stopword boundaries, rejoined with spaces, with phrases
/// that are themselves a stopword dropped.
pub open spec fn rake_phrases(text: Seq<char>, stops: Seq<String>) -> Seq<Seq<char>> {
    let (ph, cur) = phrase_scan(stemmed(tokenize(text)), stops);
    let all = if cur.len() > 0 {
        ph.push(join_words(cur))
    } else {
        ph
    };
    drop_stops(all, stops)
}

/// Relies on `String::push`: appends one character at the end.
#[verifier::external_body]
fn push_char(s: &mut String, c: char)
    ensures
        final (s)@ == old(s)@.push(c),
{
    s.push(c);
}

/// Relies on `rust_stemmers`: the Snowball English stemmer is a pure
/// function of its input string.
#[verifier::external_body]
fn stem_word(w: &String) -> (r: String)
    ensures
        r@ == stem_of(w@),
{
    let stemmer = rust_stemmers::Stemmer::create(rust_stemmers::Algorithm::English);
    stemmer.stem(w.as_str()).into_owned()
}

/// The characters of a string slice, as a vector.
pub fn char_vec(s: &str) -> (v: Vec<char>)
    ensures
        v@ == s@,
{
    let n = s.unicode_len();
    let mut v: Vec<char> = Vec::new();
    let mut i: usize = 0;
    while i < n
        invariant
            i <= n,
            n == s@.len(),
            v@ == s@.subrange(0, i as int),
        decreases n - i,
    {
        v.push(s.get_char(i));
        proof {
            assert(v@ =~= s@.subrange(0, i as int + 1));
        }
        i = i + 1;
    }
    proof {
        assert(v@ =~= s@);
    }
    v
}

/// A string with the characters of `v`.
pub fn string_of(v: &Vec<char>) -> (s: String)
    ensures
        s@ == v@,
{
    let mut s = String::new();
    let mut i: usize = 0;
    while i < v.len()
        invariant
            i <= v@.len(),
            s@ == v@.subrange(0, i as int),
        decreases v@.len() - i,
    {
        push_char(&mut s, v[i]);
        proof {
            assert(s@ =~= v@.subrange(0, i as int + 1));
        }
        i = i + 1;
    }
    proof {
        assert(s@ =~= v@);
    }
    s
}

fn is_punct_char(c: char) -> (r: bool)
    ensures
        r == is_punct(c),
{
    let u = c as u32;
    (0x21 <= u && u <= 0x2f) || (0x3a <= u && u <= 0x40) || (0x5b <= u && u <= 0x60) || (0x7b <= u
        && u <= 0x7e)
}

fn is_space_char(c: char) -> (r: bool)
    ensures
        r == is_space(c),
{
    let u = c as u32;
    (0x9 <= u && u <= 0xd) || u == 0x20 || u == 0x85 || u == 0xa0 || u == 0x1680 || (0x2000 <= u
        && u <= 0x200a) || u == 0x2028 || u == 0x2029 || u == 0x202f || u == 0x205f || u == 0x3000
}

fn lower_char_exec(c: char) -> (r: char)
    ensures
        r == lower_char(c),
{
    match c {
        'A' => 'a',
        'B' => 'b',
        'C' => 'c',
        'D' => 'd',
        'E' => 'e',
        'F' => 'f',
        'G' => 'g',
        'H' => 'h',
        'I' => 'i',
        'J' => 'j',
        'K' => 'k',
        'L' => 'l',
        'M' => 'm',
        'N' => 'n',
        'O' => 'o',
        'P' => 'p',
        'Q' => 'q',
        'R' => 'r',
        'S' => 's',
        'T' => 't',
        'U' => 'u',
        'V' => 'v',
        'W' => 'w',
        'X' => 'x',
        'Y' => 'y',
        'Z' => 'z',
        _ => c,
    }
}

/// `w` occurs in the word list `ws`.
pub fn word_in_exec(ws: &Vec<String>, w: &String) -> (r: bool)
    ensures
        r == word_in(ws@, w@),
{
    let mut i: usize = 0;
    while i < ws.len()
        invariant
            i <= ws@.len(),
            forall|j: int| 0 <= j < i ==> ws@[j]@ != w@,
        decreases ws@.len() - i,
    {
        if ws[i].eq(w) {
            proof {
                assert(ws@[i as int]@ == w@);
            }
            return true;
        }
        i = i + 1;
    }
    false
}

/// The text, lowercased and with punctuation removed.
fn clean_chars(text: &Vec<char>) -> (out: Vec<char>)
    ensures
        out@ == clean_text(text@),
{
    let mut out: Vec<char> = Vec::new();
    let mut i: usize = 0;
    proof {
        assert(text@.subrange(0, 0) =~= Seq::<char>::empty());
    }
    while i < text.len()
        invariant
            i <= text@.len(),
            out@ == clean_text(text@.subrange(0, i as int)),
        decreases text@.len() - i,
    {
        let l = lower_char_exec(text[i]);
        proof {
            assert(text@.subrange(0, i as int + 1).drop_last() =~= text@.subrange(0, i as int));
            assert(text@.subrange(0, i as int + 1).last() == text@[i as int]);
        }
        if !is_punct_char(l) {
            out.push(l);
        }
        i = i + 1;
    }
    proof {
        assert(text@.subrange(0, text@.len() as int) =~= text@);
    }
    out
}

/// The maximal whitespace-free runs of `s`, as strings.
pub fn split_tokens(s: &Vec<char>) -> (out: Vec<String>)
    ensures
        views(out@) == ws_tokens(s@),
{
    let mut out: Vec<String> = Vec::new();
    let mut cur: Vec<char> = Vec::new();
    let mut i: usize = 0;
    proof {
        assert(s@.subrange(0, 0) =~= Seq::<char>::empty());
        assert(views(out@) =~= Seq::<Seq<char>>::empty());
    }
    while i < s.len()
        invariant
            i <= s@.len(),
            views(out@) == ws_scan(s@.subrange(0, i as int)).0,
            cur@ == ws_scan(s@.subrange(0, i as int)).1,
        decreases s@.len() - i,
    {
        let c = s[i];
        proof {
            assert(s@.subrange(0, i as int + 1).drop_last() =~= s@.subrange(0, i as int));
            assert(s@.subrange(0, i as int + 1).last() == s@[i as int]);
        }
        if is_space_char(c) {
            if cur.len() > 0 {
                let w = string_of(&cur);
                let ghost old_out = out@;
                out.push(w);
                proof {
                    assert(views(out@) =~= views(old_out).push(w@));
                }
                cur = Vec::new();
            }
        } else {
            cur.push(c);
        }
        i = i + 1;
    }
    proof {
        assert(s@.subrange(0, s@.len() as int) =~= s@);
    }
    if cur.len() > 0 {
        let w = string_of(&cur);
        let ghost old_out = out@;
        out.push(w);
        proof {
            assert(views(out@) =~= views(old_out).push(w@));
        }
    }
    out
}

/// The TF-IDF term stream of one raw text: lowercase, strip punctuation,
/// split on whitespace, drop stopwords, stem.
pub fn tfidf_preprocess(document: &str, stop_words: Vec<String>) -> (out: Vec<String>)
    ensures
        views(out@) == tfidf_terms(document@, stop_words@),
{
    let chars = char_vec(document);
    let cleaned = clean_chars(&chars);
    let toks = split_tokens(&cleaned);
    let ghost tseq = tokenize(document@);
    proof {
        assert(views(toks@) == tseq);
    }
    let mut out: Vec<String> = Vec::new();
    let mut i: usize = 0;
    proof {
        assert(tseq.subrange(0, 0) =~= Seq::<Seq<char>>::empty());
        assert(views(out@) =~= stemmed(drop_stops(tseq.subrange(0, 0), stop_words@)));
    }
    while i < toks.len()
        invariant
            i <= toks@.len(),
            views(toks@) == tseq,
            views(out@) == stemmed(drop_stops(tseq.subrange(0, i as int), stop_words@)),
        decreases toks@.len() - i,
    {
        proof {
            assert(tseq.subrange(0, i as int + 1).drop_last() =~= tseq.subrange(0, i as int));
            assert(tseq.subrange(0, i as int + 1).last() == toks@[i as int]@);
        }
        if !word_in_exec(&stop_words, &toks[i]) {
            let s = stem_word(&toks[i]);
            let ghost old_out = out@;
            out.push(s);
            proof {
                let filtered = drop_stops(tseq.subrange(0, i as int + 1), stop_words@);
                assert(filtered == drop_stops(tseq.subrange(0, i as int), stop_words@).push(
                    toks@[i as int]@,
                ));
                assert(views(out@) =~= stemmed(filtered)) by {
                    assert(views(out@) =~= views(old_out).push(s@));
                    assert(stemmed(filtered) =~= stemmed(drop_stops(tseq.subrange(0, i as int),
                        stop_words@)).push(stem_of(toks@[i as int]@)));
                }
            }
        }
        i = i + 1;
    }
    proof {
        assert(tseq.subrange(0, tseq.len() as int) =~= tseq);
    }
    out
}

/// One string with the words of `ws` joined by single spaces.
fn join_exec(ws: &Vec<String>) -> (out: String)
    requires
        ws@.len() > 0,
    ensures
        out@ == join_words(views(ws@)),
{
    let mut chars: Vec<char> = char_vec(ws[0].as_str());
    let mut i: usize = 1;
    while i < ws.len()
        invariant
            1 <= i <= ws@.len(),
            chars@ == join_words(views(ws@).subrange(0, i as int)),
        decreases ws@.len() - i,
    {
        chars.push(' ');
        let wc = char_vec(ws[i].as_str());
        let mut j: usize = 0;
        while j < wc.len()
            invariant
                j <= wc@.len(),
                wc@ == ws@[i as int]@,
                i < ws@.len(),
                chars@ == join_words(views(ws@).subrange(0, i as int)) + seq![' '] + wc@.subrange(
                    0,
                    j as int,
                ),
            decreases wc@.len() - j,
        {
            chars.push(wc[j]);
            proof {
                assert(chars@ =~= join_words(views(ws@).subrange(0, i as int)) + seq![' ']
                    + wc@.subrange(0, j as int + 1));
            }
            j = j + 1;
        }
        proof {
            let pre = views(ws@).subrange(0, i as int + 1);
            assert(pre.drop_last() =~= views(ws@).subrange(0, i as int));
            assert(pre.last() == ws@[i as int]@);
            assert(wc@.subrange(0, wc@.len() as int) =~= wc@);
            assert(pre.len() >= 2);
            assert(chars@ == join_words(pre));
        }
        i = i + 1;
    }
    proof {
        assert(views(ws@).subrange(0, ws@.len() as int) =~= views(ws@));
    }
    string_of(&chars)
}

/// The RAKE candidate phrases of one raw text: lowercase, strip
/// punctuation, split on whitespace, stem every token, split the stemmed
/// stream into phrases at stopword boundaries, and drop phrases that are
/// themselves stopwords.
pub fn rake_preprocess(document: &str, stop_words: Vec<String>) -> (out: Vec<String>)
    ensures
        views(out@) == rake_phrases(document@, stop_words@),
{
    let chars = char_vec(document);
    let cleaned = clean_chars(&chars);
    let toks = split_tokens(&cleaned);
    let ghost tseq = tokenize(document@);
    // stem every token
    let mut st: Vec<String> = Vec::new();
    let mut i: usize = 0;
    proof {
        assert(views(st@) =~= stemmed(tseq.subrange(0, 0)));
    }
    while i < toks.len()
        invariant
            i <= toks@.len(),
            views(toks@) == tseq,
            views(st@) == stemmed(tseq.subrange(0, i as int)),
        decreases toks@.len() - i,
    {
        let s = stem_word(&toks[i]);
        let ghost old_st = st@;
        st.push(s);
        proof {
            assert(tseq.subrange(0, i as int + 1).drop_last() =~= tseq.subrange(0, i as int));
            assert(views(st@) =~= stemmed(tseq.subrange(0, i as int + 1))) by {
                assert(views(st@) =~= views(old_st).push(s@));
                assert(stemmed(tseq.subrange(0, i as int + 1)) =~= stemmed(tseq.subrange(
                    0,
                    i as int,
                )).push(stem_of(tseq[i as int])));
            }
        }
        i = i + 1;
    }
    proof {
        assert(tseq.subrange(0, tseq.len() as int) =~= tseq);
        assert(views(st@) == stemmed(tseq));
    }
    let ghost sseq = stemmed(tseq);
    // group into phrases at stopword boundaries
    let mut phrases: Vec<String> = Vec::new();
    let mut cur: Vec<String> = Vec::new();
    let mut k: usize = 0;
    proof {
        assert(sseq.subrange(0, 0) =~= Seq::<Seq<char>>::empty());
        assert(views(phrases@) =~= Seq::<Seq<char>>::empty());
        assert(views(cur@) =~= Seq::<Seq<char>>::empty());
    }
    while k < st.len()
        invariant
            k <= st@.len(),
            views(st@) == sseq,
            views(phrases@) == phrase_scan(sseq.subrange(0, k as int), stop_words@).0,
            views(cur@) == phrase_scan(sseq.subrange(0, k as int), stop_words@).1,
        decreases st@.len() - k,
    {
        proof {
            assert(sseq.subrange(0, k as int + 1).drop_last() =~= sseq.subrange(0, k as int));
            assert(sseq.subrange(0, k as int + 1).last() == st@[k as int]@);
        }
        if word_in_exec(&stop_words, &st[k]) {
            if cur.len() > 0 {
                let p = join_exec(&cur);
                let ghost old_ph = phrases@;
                phrases.push(p);
                proof {
                    assert(views(phrases@) =~= views(old_ph).push(p@));
                }
                cur = Vec::new();
                proof {
                    assert(views(cur@) =~= Seq::<Seq<char>>::empty());
                }
            }
        } else {
            let ghost old_cur = cur@;
            let w = st[k].clone();
            cur.push(w);
            proof {
                assert(views(cur@) =~= views(old_cur).push(st@[k as int]@));
            }
        }
        k = k + 1;
    }
    proof {
        assert(sseq.subrange(0, sseq.len() as int) =~= sseq);
    }
    let ghost scan = phrase_scan(sseq, stop_words@);
    if cur.len() > 0 {
        let p = join_exec(&cur);
        let ghost old_ph = phrases@;
        phrases.push(p);
        proof {
            assert(views(phrases@) =~= views(old_ph).push(p@));
        }
    }
    let ghost all = if scan.1.len() > 0 {
        scan.0.push(join_words(scan.1))
    } else {
        scan.0
    };
    proof {
        assert(views(phrases@) == all);
    }
    // drop phrases that are themselves stopwords
    let mut out: Vec<String> = Vec::new();
    let mut q: usize = 0;
    proof {
        assert(all.subrange(0, 0) =~= Seq::<Seq<char>>::empty());
        assert(views(out@) =~= drop_stops(all.subrange(0, 0), stop_words@));
    }
    while q < phrases.len()
        invariant
            q <= phrases@.len(),
            views(phrases@) == all,
            views(out@) == drop_stops(all.subrange(0, q as int), stop_words@),
        decreases phrases@.len() - q,
    {
        proof {
            assert(all.subrange(0, q as int + 1).drop_last() =~= all.subrange(0, q as int));
            assert(all.subrange(0, q as int + 1).last() == phrases@[q as int]@);
        }
        if !word_in_exec(&stop_words, &phrases[q]) {
            let ghost old_out = out@;
            let p = phrases[q].clone();
            out.push(p);
            proof {
                assert(views(out@) =~= views(old_out).push(phrases@[q as int]@));
            }
        }
        q = q + 1;
    }
    proof {
        assert(all.subrange(0, all.len() as int) =~= all);
    }
    out
}

/// The TF-IDF term streams of a whole corpus, document by document.
pub fn corpus_tfidf_preprocess(corpus: Corpus, stop_words: Vec<String>) -> (out: CorpusSnippets)
    ensures
        out@.len() == corpus@.len(),
        forall|i: int|
            0 <= i < out@.len() ==> (#[trigger] out@[i]).0@ == corpus@[i].0@ && views(out@[i].1@)
                == tfidf_terms(corpus@[i].1@, stop_words@),
{
    let mut out: CorpusSnippets = Vec::new();
    let mut i: usize = 0;
    while i < corpus.len()
        invariant
            i <= corpus@.len(),
            out@.len() == i,
            forall|j: int|
                0 <= j < i ==> (#[trigger] out@[j]).0@ == corpus@[j].0@ && views(out@[j].1@)
                    == tfidf_terms(corpus@[j].1@, stop_words@),
        decreases corpus@.len() - i,
    {
        let name = corpus[i].0.clone();
        let toks = tfidf_preprocess(corpus[i].1.as_str(), stop_words.clone());
        out.push((name, toks));
        i = i + 1;
    }
    out
}

/// The RAKE phrase streams of a whole corpus, document by document.
pub fn corpus_rake_preprocess(corpus: Corpus, stop_words: Vec<String>) -> (out: CorpusSnippets)
    ensures
        out@.len() == corpus@.len(),
        forall|i: int|
            0 <= i < out@.len() ==> (#[trigger] out@[i]).0@ == corpus@[i].0@ && views(out@[i].1@)
                == rake_phrases(corpus@[i].1@, stop_words@),
{
    let mut out: CorpusSnippets = Vec::new();
    let mut i: usize = 0;
    while i < corpus.len()
        invariant
            i <= corpus@.len(),
            out@.len() == i,
            forall|j: int|
                0 <= j < i ==> (#[trigger] out@[j]).0@ == corpus@[j].0@ && views(out@[j].1@)
                    == rake_phrases(corpus@[j].1@, stop_words@),
        decreases corpus@.len() - i,
    {
        let name = corpus[i].0.clone();
        let toks = rake_preprocess(corpus[i].1.as_str(), stop_words.clone());
        out.push((name, toks));
        i = i + 1;
    }
    out
}

} // verus!

verus! {

/// Relies on `str` equality: two slices are equal exactly when their
/// character sequences are.
pub assume_specification[ <str as std::cmp::PartialEq>::eq ](s: &str, other: &str) -> (r: bool)
    ensures
        r == (s@ == other@),
;

/// Pushing a string pushes its view.
pub proof fn lemma_views_push(ws: Seq<String>, x: String)
    ensures
        views(ws.push(x)) == views(ws).push(x@),
{
    assert(views(ws.push(x)) =~= views(ws).push(x@));
}

/// Membership in a word list is membership among its views.
pub proof fn lemma_word_in_views(ws: Seq<String>, w: Seq<char>)
    ensures
        word_in(ws, w) <==> views(ws).contains(w),
{
    if word_in(ws, w) {
        let i = choose|i: int| 0 <= i < ws.len() && (#[trigger] ws[i]@) == w;
        assert(views(ws)[i] == w);
    }
    if views(ws).contains(w) {
        let i = choose|i: int| 0 <= i < views(ws).len() && views(ws)[i] == w;
        assert(ws[i]@ == w);
    }
}

} // verus!

verus! {

/// The whitespace characters at the front of `s`.
pub open spec fn leading_ws(s: Seq<char>) -> nat
    decreases s.len(),
{
    if s.len() == 0 || !is_space(s[0]) {
        0
    } else {
        1 + leading_ws(s.drop_first())
    }
}

/// The whitespace characters at the back of `s`.
pub open spec fn trailing_ws(s: Seq<char>) -> nat
    decreases s.len(),
{
    if s.len() == 0 || !is_space(s.last()) {
        0
    } else {
        1 + trailing_ws(s.drop_last())
    }
}

/// `s` with leading and trailing whitespace removed.
pub open spec fn trim_view(s: Seq<char>) -> Seq<char> {
    if leading_ws(s) == s.len() {
        Seq::empty()
    } else {
        s.subrange(leading_ws(s) as int, s.len() - trailing_ws(s))
    }
}

/// The characters of `s` before its first line break.
pub open spec fn first_line(s: Seq<char>) -> Seq<char> {
    s.take(line_len(s) as int)
}

/// The position of the first line break in `s`, or its length.
pub open spec fn line_len(s: Seq<char>) -> nat
    decreases s.len(),
{
    if s.len() == 0 || s[0] == '\n' {
        0
    } else {
        1 + line_len(s.drop_first())
    }
}

proof fn lemma_leading_at(s: Seq<char>, i: int)
    requires
        0 <= i <= s.len(),
        forall|j: int| 0 <= j < i ==> is_space(s[j]),
        i < s.len() ==> !is_space(s[i]),
    ensures
        leading_ws(s) == i,
    decreases i,
{
    if i == 0 {
    } else {
        assert(is_space(s[0]));
        assert(forall|j: int| 0 <= j < i - 1 ==> s.drop_first()[j] == s[j + 1]);
        lemma_leading_at(s.drop_first(), i - 1);
    }
}

proof fn lemma_trailing_at(s: Seq<char>, i: int)
    requires
        0 <= i <= s.len(),
        forall|j: int| s.len() - i <= j < s.len() ==> is_space(s[j]),
        i < s.len() ==> !is_space(s[s.len() - i - 1]),
    ensures
        trailing_ws(s) == i,
    decreases i,
{
    if i == 0 {
    } else {
        assert(is_space(s.last()));
        assert(forall|j: int| 0 <= j < s.len() - 1 ==> s.drop_last()[j] == s[j]);
        lemma_trailing_at(s.drop_last(), i - 1);
    }
}

proof fn lemma_line_len_at(s: Seq<char>, i: int)
    requires
        0 <= i <= s.len(),
        forall|j: int| 0 <= j < i ==> s[j] != '\n',
        i < s.len() ==> s[i] == '\n',
    ensures
        line_len(s) == i,
    decreases i,
{
    if i > 0 {
        assert(s[0] != '\n');
        assert(forall|j: int| 0 <= j < i - 1 ==> s.drop_first()[j] == s[j + 1]);
        lemma_line_len_at(s.drop_first(), i - 1);
    }
}

/// `s` with surrounding whitespace removed, as [`trim_view`] defines it.
pub fn trim_str(s: &str) -> (r: String)
    ensures
        r@ == trim_view(s@),
{
    let chars = char_vec(s);
    let n = chars.len();
    let mut a: usize = 0;
    while a < n && is_space_char(chars[a])
        invariant
            a <= n,
            n == chars@.len(),
            chars@ == s@,
            forall|j: int| 0 <= j < a ==> is_space(s@[j]),
        decreases n - a,
    {
        a = a + 1;
    }
    proof {
        lemma_leading_at(s@, a as int);
    }
    if a == n {
        proof {
            assert(trim_view(s@) =~= Seq::<char>::empty());
        }
        return String::new();
    }
    let mut b: usize = 0;
    while b < n && is_space_char(chars[n - 1 - b])
        invariant
            b <= n,
            n == chars@.len(),
            chars@ == s@,
            a < n,
            !is_space(s@[a as int]),
            forall|j: int| n - b <= j < n ==> is_space(s@[j]),
        decreases n - b,
    {
        proof {
            if n - 1 - b == a {
                assert(false);
            }
        }
        b = b + 1;
    }
    proof {
        lemma_trailing_at(s@, b as int);
        assert(a + b < n) by {
            if n - b <= a {
                assert(is_space(s@[a as int]));
            }
        }
    }
    let mut out: Vec<char> = Vec::new();
    let mut i: usize = a;
    while i < n - b
        invariant
            a <= i <= n - b,
            b < n,
            n == chars@.len(),
            chars@ == s@,
            out@ == s@.subrange(a as int, i as int),
        decreases n - b - i,
    {
        out.push(chars[i]);
        proof {
            assert(out@ =~= s@.subrange(a as int, i as int + 1));
        }
        i = i + 1;
    }
    proof {
        assert(out@ =~= trim_view(s@));
    }
    string_of(&out)
}

/// The first line of `s`, as [`first_line`] defines it.
pub fn first_line_str(s: &str) -> (r: String)
    ensures
        r@ == first_line(s@),
{
    let chars = char_vec(s);
    let n = chars.len();
    let mut i: usize = 0;
    let mut out: Vec<char> = Vec::new();
    while i < n && chars[i] != '\n'
        invariant
            i <= n,
            n == chars@.len(),
            chars@ == s@,
            forall|j: int| 0 <= j < i ==> s@[j] != '\n',
            out@ == s@.subrange(0, i as int),
        decreases n - i,
    {
        out.push(chars[i]);
        proof {
            assert(out@ =~= s@.subrange(0, i as int + 1));
        }
        i = i + 1;
    }
    proof {
        lemma_line_len_at(s@, i as int);
        assert(out@ =~= first_line(s@));
    }
    string_of(&out)
}

} // verus!
