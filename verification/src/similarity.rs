//! Similarity measures over score maps, and their fusion.
//!
//! Cosine similarity compares two TF-IDF vectors over the union of their
//! keys; weighted Jaccard compares two RAKE score maps as the sum of
//! key-wise minimums over the sum of key-wise maximums, and is undefined
//! when both maps carry no mass. A combined score blends the two linearly
//! and adds a recency bonus for the most recently written document.

use crate::fixed::{lemma_sqrt_nat, sqrt_nat, SCALE};
use crate::rake::drop_contained;
use crate::scores::{
    has_key, keys_distinct, keys_of, score_of, ScoreEntry, Scores,
};
use vstd::prelude::*;

verus! {

/// The key-wise score bound under which cosine arithmetic stays exact.
pub const COSINE_SCORE_LIMIT: u128 = 0x400_0000;

/// The key-wise score bound under which Jaccard arithmetic stays exact.
pub const JACCARD_SCORE_LIMIT: u128 = 0x2_0000_0000_0000_0000;

/// The key-count bound under which similarity arithmetic stays exact.
pub const KEY_COUNT_LIMIT: u64 = 0x100_0000_0000;

/// The union of two key lists: `ka`, then the keys of `kb` not in `ka`.
pub open spec fn union_keys(ka: Seq<Seq<char>>, kb: Seq<Seq<char>>) -> Seq<Seq<char>> {
    ka + drop_contained(kb, ka)
}

/// The dot product of two score maps over the key list `ks`.
pub open spec fn dot_sum(ks: Seq<Seq<char>>, a: Seq<ScoreEntry>, b: Seq<ScoreEntry>) -> nat
    decreases ks.len(),
{
    if ks.len() == 0 {
        0
    } else {
        dot_sum(ks.drop_last(), a, b) + (score_of(a, ks.last()) as nat) * (score_of(b, ks.last()) as nat)
    }
}

/// The sum of key-wise minimums of two score maps over `ks`.
pub open spec fn min_sum(ks: Seq<Seq<char>>, a: Seq<ScoreEntry>, b: Seq<ScoreEntry>) -> nat
    decreases ks.len(),
{
    if ks.len() == 0 {
        0
    } else {
        let x = score_of(a, ks.last()) as nat;
        let y = score_of(b, ks.last()) as nat;
        min_sum(ks.drop_last(), a, b) + if x <= y {
            x
        } else {
            y
        }
    }
}

/// The sum of key-wise maximums of two score maps over `ks`.
pub open spec fn max_sum(ks: Seq<Seq<char>>, a: Seq<ScoreEntry>, b: Seq<ScoreEntry>) -> nat
    decreases ks.len(),
{
    if ks.len() == 0 {
        0
    } else {
        let x = score_of(a, ks.last()) as nat;
        let y = score_of(b, ks.last()) as nat;
        max_sum(ks.drop_last(), a, b) + if x <= y {
            y
        } else {
            x
        }
    }
}

/// The cosine similarity of two score maps, in fixed point: the dot
/// product over the product of the Euclidean norms, zero when either norm
/// is zero, clamped to one against rounding of the integer square roots.
pub open spec fn cosine_value(a: Seq<ScoreEntry>, b: Seq<ScoreEntry>) -> nat {
    let ks = union_keys(keys_of(a), keys_of(b));
    let dot = dot_sum(ks, a, b);
    let na = dot_sum(ks, a, a);
    let nb = dot_sum(ks, b, b);
    if na == 0 || nb == 0 {
        0
    } else {
        let d = sqrt_nat(na) * sqrt_nat(nb);
        let v = dot * (SCALE as nat) / d;
        if v > SCALE as nat {
            SCALE as nat
        } else {
            v
        }
    }
}

/// The weighted Jaccard similarity is defined only when the two maps
/// carry mass somewhere.
pub open spec fn jaccard_defined(a: Seq<ScoreEntry>, b: Seq<ScoreEntry>) -> bool {
    max_sum(union_keys(keys_of(a), keys_of(b)), a, b) > 0
}

/// The weighted Jaccard similarity of two score maps, in fixed point:
/// the sum of key-wise minimums over the sum of key-wise maximums.
pub open spec fn jaccard_value(a: Seq<ScoreEntry>, b: Seq<ScoreEntry>) -> nat {
    let ks = union_keys(keys_of(a), keys_of(b));
    min_sum(ks, a, b) * (SCALE as nat) / max_sum(ks, a, b)
}

/// Every entry of `m` scores at most `bound`.
pub open spec fn scores_bounded(m: Seq<ScoreEntry>, bound: u128) -> bool {
    forall|i: int| 0 <= i < m.len() ==> (#[trigger] m[i]).score <= bound
}

/// A looked-up score never exceeds the largest entry.
pub proof fn lemma_score_le(m: Seq<ScoreEntry>, k: Seq<char>, bound: u128)
    requires
        scores_bounded(m, bound),
    ensures
        score_of(m, k) <= bound,
    decreases m.len(),
{
    if m.len() > 0 {
        assert(m[0].score <= bound);
        assert(scores_bounded(m.drop_first(), bound)) by {
            assert(forall|i: int|
                0 <= i < m.drop_first().len() ==> (#[trigger] m.drop_first()[i]) == m[i + 1]);
        }
        lemma_score_le(m.drop_first(), k, bound);
    }
}

/// The union key list, as strings: the keys of `a`, then those of `b`
/// not in `a`.
fn union_keys_exec(a: &Scores, b: &Scores) -> (ks: Vec<String>)
    ensures
        crate::preprocess::views(ks@) == union_keys(keys_of(a@), keys_of(b@)),
        ks@.len() <= a@.len() + b@.len(),
{
    let mut ks: Vec<String> = Vec::new();
    let mut i: usize = 0;
    proof {
        assert(crate::preprocess::views(ks@) =~= Seq::<Seq<char>>::empty());
        assert(keys_of(a@).subrange(0, 0) =~= Seq::<Seq<char>>::empty());
    }
    while i < a.len()
        invariant
            i <= a@.len(),
            ks@.len() == i,
            crate::preprocess::views(ks@) == keys_of(a@).subrange(0, i as int),
        decreases a@.len() - i,
    {
        let ghost old_ks = ks@;
        let k = a[i].key.clone();
        ks.push(k);
        proof {
            crate::preprocess::lemma_views_push(old_ks, a@[i as int].key);
            assert(crate::preprocess::views(ks@) =~= keys_of(a@).subrange(0, i as int + 1));
        }
        i = i + 1;
    }
    proof {
        assert(keys_of(a@).subrange(0, keys_of(a@).len() as int) =~= keys_of(a@));
        assert(drop_contained(keys_of(b@).subrange(0, 0), keys_of(a@)) =~= Seq::<
            Seq<char>,
        >::empty());
        assert(crate::preprocess::views(ks@) =~= keys_of(a@) + drop_contained(
            keys_of(b@).subrange(0, 0),
            keys_of(a@),
        ));
    }
    let mut j: usize = 0;
    while j < b.len()
        invariant
            j <= b@.len(),
            ks@.len() <= a@.len() + j,
            crate::preprocess::views(ks@) == keys_of(a@) + drop_contained(
                keys_of(b@).subrange(0, j as int),
                keys_of(a@),
            ),
        decreases b@.len() - j,
    {
        proof {
            assert(keys_of(b@).subrange(0, j as int + 1).drop_last() =~= keys_of(b@).subrange(
                0,
                j as int,
            ));
            assert(keys_of(b@).subrange(0, j as int + 1).last() == b@[j as int].key@);
            if has_key(a@, b@[j as int].key@) {
                let l = choose|l: int| 0 <= l < a@.len() && (#[trigger] a@[l].key@) == b@[j as int].key@;
                assert(keys_of(a@)[l] == b@[j as int].key@);
            }
            if keys_of(a@).contains(b@[j as int].key@) {
                let l = choose|l: int|
                    0 <= l < keys_of(a@).len() && keys_of(a@)[l] == b@[j as int].key@;
                assert(a@[l].key@ == b@[j as int].key@);
            }
        }
        if !crate::scores::has_key_exec(a, &b[j].key) {
            let ghost old_ks = ks@;
            let k = b[j].key.clone();
            ks.push(k);
            proof {
                crate::preprocess::lemma_views_push(old_ks, b@[j as int].key);
            }
        }
        j = j + 1;
    }
    proof {
        assert(keys_of(b@).subrange(0, keys_of(b@).len() as int) =~= keys_of(b@));
    }
    ks
}

/// The cosine similarity of two TF-IDF vectors, exactly as
/// [`cosine_value`] defines it.
pub fn cosine_similarity_tuple(scores_1: &Scores, scores_2: &Scores) -> (r: u64)
    requires
        scores_bounded(scores_1@, COSINE_SCORE_LIMIT),
        scores_bounded(scores_2@, COSINE_SCORE_LIMIT),
        scores_1@.len() + scores_2@.len() <= KEY_COUNT_LIMIT,
    ensures
        r as nat == cosine_value(scores_1@, scores_2@),
        r <= SCALE,
{
    let ks = union_keys_exec(scores_1, scores_2);
    let ghost kseq = union_keys(keys_of(scores_1@), keys_of(scores_2@));
    let mut dot: u128 = 0;
    let mut na: u128 = 0;
    let mut nb: u128 = 0;
    let mut i: usize = 0;
    proof {
        assert(kseq.subrange(0, 0) =~= Seq::<Seq<char>>::empty());
    }
    while i < ks.len()
        invariant
            i <= ks@.len(),
            ks@.len() <= KEY_COUNT_LIMIT,
            crate::preprocess::views(ks@) == kseq,
            scores_bounded(scores_1@, COSINE_SCORE_LIMIT),
            scores_bounded(scores_2@, COSINE_SCORE_LIMIT),
            dot as nat == dot_sum(kseq.subrange(0, i as int), scores_1@, scores_2@),
            na as nat == dot_sum(kseq.subrange(0, i as int), scores_1@, scores_1@),
            nb as nat == dot_sum(kseq.subrange(0, i as int), scores_2@, scores_2@),
            dot as nat <= i * 0x10_0000_0000_0000,
            na as nat <= i * 0x10_0000_0000_0000,
            nb as nat <= i * 0x10_0000_0000_0000,
        decreases ks@.len() - i,
    {
        let x = crate::scores::get_score(scores_1, &ks[i]);
        let y = crate::scores::get_score(scores_2, &ks[i]);
        proof {
            lemma_score_le(scores_1@, ks@[i as int]@, COSINE_SCORE_LIMIT);
            lemma_score_le(scores_2@, ks@[i as int]@, COSINE_SCORE_LIMIT);
            assert(x as nat * (y as nat) <= 0x10_0000_0000_0000) by (nonlinear_arith)
                requires
                    x <= 0x400_0000,
                    y <= 0x400_0000,
            ;
            assert(x as nat * (x as nat) <= 0x10_0000_0000_0000) by (nonlinear_arith)
                requires
                    x <= 0x400_0000,
            ;
            assert(y as nat * (y as nat) <= 0x10_0000_0000_0000) by (nonlinear_arith)
                requires
                    y <= 0x400_0000,
            ;
            assert((i as nat + 1) * 0x10_0000_0000_0000 == i as nat * 0x10_0000_0000_0000
                + 0x10_0000_0000_0000) by (nonlinear_arith);
            assert((i as nat + 1) * 0x10_0000_0000_0000 <= (KEY_COUNT_LIMIT as nat)
                * 0x10_0000_0000_0000) by (nonlinear_arith)
                requires
                    i as nat + 1 <= KEY_COUNT_LIMIT as nat,
            ;
            assert(kseq.subrange(0, i as int + 1).drop_last() =~= kseq.subrange(0, i as int));
            assert(kseq.subrange(0, i as int + 1).last() == ks@[i as int]@);
        }
        dot = dot + x * y;
        na = na + x * x;
        nb = nb + y * y;
        i = i + 1;
    }
    proof {
        assert(kseq.subrange(0, kseq.len() as int) =~= kseq);
    }
    if na == 0 || nb == 0 {
        return 0;
    }
    let sa = crate::fixed::isqrt(na);
    let sb = crate::fixed::isqrt(nb);
    proof {
        assert(sa >= 1) by {
            if sa == 0 {
                assert((sa as nat + 1) * (sa as nat + 1) == 1) by (nonlinear_arith)
                    requires
                        sa == 0,
                ;
            }
        }
        assert(sb >= 1) by {
            if sb == 0 {
                assert((sb as nat + 1) * (sb as nat + 1) == 1) by (nonlinear_arith)
                    requires
                        sb == 0,
                ;
            }
        }
        assert((KEY_COUNT_LIMIT as nat) * 0x10_0000_0000_0000 <= 0x1000_0000_0000_0000_0000_0000)
            by (nonlinear_arith);
        assert(sa as nat <= 0x4000_0000_0000) by (nonlinear_arith)
            requires
                sa as nat * (sa as nat) <= na as nat,
                na as nat <= 0x1000_0000_0000_0000_0000_0000,
        ;
        assert(sb as nat <= 0x4000_0000_0000) by (nonlinear_arith)
            requires
                sb as nat * (sb as nat) <= nb as nat,
                nb as nat <= 0x1000_0000_0000_0000_0000_0000,
        ;
        assert(1 <= sa as nat * (sb as nat) <= 0x4000_0000_0000 * 0x4000_0000_0000)
            by (nonlinear_arith)
            requires
                1 <= sa as nat <= 0x4000_0000_0000,
                1 <= sb as nat <= 0x4000_0000_0000,
        ;
        assert(dot as nat * (SCALE as nat) <= 0x1000_0000_0000_0000_0000_0000 * 1_000_000)
            by (nonlinear_arith)
            requires
                dot as nat <= 0x1000_0000_0000_0000_0000_0000,
        ;
    }
    let d: u128 = sa * sb;
    let v: u128 = dot * (SCALE as u128) / d;
    if v > SCALE as u128 {
        SCALE
    } else {
        v as u64
    }
}

/// The weighted Jaccard similarity of two RAKE score maps, or nothing
/// when neither map carries mass (the caller must exclude such a pairing
/// from ranking rather than divide by zero).
pub fn weighted_jaccard_similarity(document_1_scores: &Scores, document_2_scores: &Scores) -> (r:
    Option<u64>)
    requires
        scores_bounded(document_1_scores@, JACCARD_SCORE_LIMIT),
        scores_bounded(document_2_scores@, JACCARD_SCORE_LIMIT),
        document_1_scores@.len() + document_2_scores@.len() <= KEY_COUNT_LIMIT,
    ensures
        r is Some <==> jaccard_defined(document_1_scores@, document_2_scores@),
        r is Some ==> r->0 as nat == jaccard_value(document_1_scores@, document_2_scores@)
            && r->0 <= SCALE,
{
    let a = document_1_scores;
    let b = document_2_scores;
    let ks = union_keys_exec(a, b);
    let ghost kseq = union_keys(keys_of(a@), keys_of(b@));
    let mut lo: u128 = 0;
    let mut hi: u128 = 0;
    let mut i: usize = 0;
    proof {
        assert(kseq.subrange(0, 0) =~= Seq::<Seq<char>>::empty());
    }
    while i < ks.len()
        invariant
            i <= ks@.len(),
            ks@.len() <= KEY_COUNT_LIMIT,
            crate::preprocess::views(ks@) == kseq,
            scores_bounded(a@, JACCARD_SCORE_LIMIT),
            scores_bounded(b@, JACCARD_SCORE_LIMIT),
            lo as nat == min_sum(kseq.subrange(0, i as int), a@, b@),
            hi as nat == max_sum(kseq.subrange(0, i as int), a@, b@),
            lo as nat <= i * (JACCARD_SCORE_LIMIT as nat),
            hi as nat <= i * (JACCARD_SCORE_LIMIT as nat),
            lo <= hi,
        decreases ks@.len() - i,
    {
        let x = crate::scores::get_score(a, &ks[i]);
        let y = crate::scores::get_score(b, &ks[i]);
        proof {
            lemma_score_le(a@, ks@[i as int]@, JACCARD_SCORE_LIMIT);
            lemma_score_le(b@, ks@[i as int]@, JACCARD_SCORE_LIMIT);
            assert((i as nat + 1) * (JACCARD_SCORE_LIMIT as nat) == i as nat * (
            JACCARD_SCORE_LIMIT as nat) + JACCARD_SCORE_LIMIT as nat) by (nonlinear_arith);
            assert((i as nat + 1) * (JACCARD_SCORE_LIMIT as nat) <= (KEY_COUNT_LIMIT as nat) * (
            JACCARD_SCORE_LIMIT as nat)) by (nonlinear_arith)
                requires
                    i as nat + 1 <= KEY_COUNT_LIMIT as nat,
            ;
            assert((KEY_COUNT_LIMIT as nat) * (JACCARD_SCORE_LIMIT as nat)
                <= 0x2_0000_0000_0000_0000_0000_0000_0000) by (nonlinear_arith);
            assert(kseq.subrange(0, i as int + 1).drop_last() =~= kseq.subrange(0, i as int));
            assert(kseq.subrange(0, i as int + 1).last() == ks@[i as int]@);
        }
        if x <= y {
            lo = lo + x;
            hi = hi + y;
        } else {
            lo = lo + y;
            hi = hi + x;
        }
        i = i + 1;
    }
    proof {
        assert(kseq.subrange(0, kseq.len() as int) =~= kseq);
    }
    if hi == 0 {
        return None;
    }
    proof {
        vstd::arithmetic::div_mod::lemma_multiply_divide_le(
            (lo as nat * (SCALE as nat)) as int,
            hi as int,
            SCALE as int,
        );
        assert(lo as nat * (SCALE as nat) <= hi as nat * (SCALE as nat)) by (nonlinear_arith)
            requires
                lo <= hi,
        ;
        assert(hi as nat * (SCALE as nat) == (SCALE as nat) * (hi as nat)) by (nonlinear_arith);
        assert(lo as nat * (SCALE as nat) <= 0x2_0000_0000_0000_0000_0000_0000_0000 * 1_000_000)
            by (nonlinear_arith)
            requires
                lo as nat <= 0x2_0000_0000_0000_0000_0000_0000_0000,
        ;
    }
    let v: u128 = lo * (SCALE as u128) / hi;
    Some(v as u64)
}

} // verus!

verus! {

/// Dropping from a list everything that the list itself contains leaves
/// nothing.
proof fn lemma_drop_contained_self(ks: Seq<Seq<char>>)
    ensures
        drop_contained(ks, ks) == Seq::<Seq<char>>::empty(),
{
    lemma_drop_all(ks, ks);
}

proof fn lemma_drop_all(ts: Seq<Seq<char>>, others: Seq<Seq<char>>)
    requires
        forall|i: int| 0 <= i < ts.len() ==> others.contains(#[trigger] ts[i]),
    ensures
        drop_contained(ts, others) == Seq::<Seq<char>>::empty(),
    decreases ts.len(),
{
    if ts.len() == 0 {
        assert(drop_contained(ts, others) =~= Seq::<Seq<char>>::empty());
    } else {
        assert(forall|i: int|
            0 <= i < ts.drop_last().len() ==> others.contains(#[trigger] ts.drop_last()[i]));
        lemma_drop_all(ts.drop_last(), others);
        assert(others.contains(ts[ts.len() - 1]));
    }
}

/// A squared score sum dominates each of its terms.
proof fn lemma_dot_term(ks: Seq<Seq<char>>, v: Seq<ScoreEntry>, k: Seq<char>)
    requires
        ks.contains(k),
    ensures
        dot_sum(ks, v, v) >= (score_of(v, k) as nat) * (score_of(v, k) as nat),
    decreases ks.len(),
{
    if ks.len() > 0 && ks.last() != k {
        let i = choose|i: int| 0 <= i < ks.len() && ks[i] == k;
        assert(ks.drop_last()[i] == k);
        assert(ks.drop_last().contains(k));
        lemma_dot_term(ks.drop_last(), v, k);
    }
}

/// A key-wise maximum sum dominates each key's own score.
proof fn lemma_max_term(ks: Seq<Seq<char>>, a: Seq<ScoreEntry>, b: Seq<ScoreEntry>, k: Seq<char>)
    requires
        ks.contains(k),
    ensures
        max_sum(ks, a, b) >= score_of(a, k),
    decreases ks.len(),
{
    if ks.len() > 0 && ks.last() != k {
        let i = choose|i: int| 0 <= i < ks.len() && ks[i] == k;
        assert(ks.drop_last()[i] == k);
        assert(ks.drop_last().contains(k));
        lemma_max_term(ks.drop_last(), a, b, k);
    }
}

/// Compared with itself, a map's minimum and maximum sums coincide.
proof fn lemma_minmax_self(ks: Seq<Seq<char>>, v: Seq<ScoreEntry>)
    ensures
        min_sum(ks, v, v) == max_sum(ks, v, v),
    decreases ks.len(),
{
    if ks.len() > 0 {
        lemma_minmax_self(ks.drop_last(), v);
    }
}

/// All-zero scores make every squared sum zero.
proof fn lemma_dot_zero(ks: Seq<Seq<char>>, z: Seq<ScoreEntry>)
    requires
        scores_bounded(z, 0),
    ensures
        dot_sum(ks, z, z) == 0,
    decreases ks.len(),
{
    if ks.len() > 0 {
        lemma_dot_zero(ks.drop_last(), z);
        lemma_score_le(z, ks.last(), 0);
        assert(score_of(z, ks.last()) == 0);
        assert((score_of(z, ks.last()) as nat) * (score_of(z, ks.last()) as nat) == 0)
            by (nonlinear_arith)
            requires
                score_of(z, ks.last()) == 0,
        ;
    }
}

/// The cosine similarity of a non-zero vector with itself is exactly one.
pub proof fn lemma_cosine_self(v: Seq<ScoreEntry>)
    requires
        keys_distinct(v),
        exists|i: int| 0 <= i < v.len() && (#[trigger] v[i]).score > 0,
    ensures
        cosine_value(v, v) == SCALE,
{
    let kv = keys_of(v);
    assert(forall|i: int| 0 <= i < kv.len() ==> kv.contains(#[trigger] kv[i]));
    lemma_drop_contained_self(kv);
    let ks = union_keys(kv, kv);
    assert(ks =~= kv);
    let i = choose|i: int| 0 <= i < v.len() && (#[trigger] v[i]).score > 0;
    let k = v[i].key@;
    assert(forall|j: int| 0 <= j < i ==> v[j].key@ != k);
    crate::scores::lemma_score_at(v, i);
    assert(kv[i] == k);
    assert(kv.contains(k));
    lemma_dot_term(ks, v, k);
    let na = dot_sum(ks, v, v);
    assert(na >= (v[i].score as nat) * (v[i].score as nat));
    assert((v[i].score as nat) * (v[i].score as nat) >= 1) by (nonlinear_arith)
        requires
            v[i].score >= 1,
    ;
    let s = sqrt_nat(na);
    lemma_sqrt_nat(na);
    assert(s >= 1) by {
        if s == 0 {
            assert((s + 1) * (s + 1) == 1) by (nonlinear_arith)
                requires
                    s == 0,
            ;
        }
    }
    let d = s * s;
    assert(d <= na);
    assert(d >= 1) by (nonlinear_arith)
        requires
            s >= 1,
            d == s * s,
    ;
    assert(na * (SCALE as nat) >= d * (SCALE as nat)) by (nonlinear_arith)
        requires
            d <= na,
    ;
    vstd::arithmetic::div_mod::lemma_div_is_ordered(
        (d * (SCALE as nat)) as int,
        (na * (SCALE as nat)) as int,
        d as int,
    );
    assert(d * (SCALE as nat) == d as int * (SCALE as int)) by (nonlinear_arith);
    vstd::arithmetic::div_mod::lemma_div_multiples_vanish(SCALE as int, d as int);
    assert((d as int * (SCALE as int)) / (d as int) == SCALE as int);
    assert(na * (SCALE as nat) / d >= SCALE as nat);
}

/// The cosine similarity against an all-zero vector is zero, either way
/// round.
pub proof fn lemma_cosine_zero(v: Seq<ScoreEntry>, z: Seq<ScoreEntry>)
    requires
        scores_bounded(z, 0),
    ensures
        cosine_value(v, z) == 0,
        cosine_value(z, v) == 0,
{
    lemma_dot_zero(union_keys(keys_of(v), keys_of(z)), z);
    lemma_dot_zero(union_keys(keys_of(z), keys_of(v)), z);
}

/// The weighted Jaccard similarity of a non-empty, positively scored map
/// with itself is defined and exactly one.
pub proof fn lemma_jaccard_self(s: Seq<ScoreEntry>)
    requires
        keys_distinct(s),
        s.len() > 0,
        forall|i: int| 0 <= i < s.len() ==> (#[trigger] s[i]).score >= 1,
    ensures
        jaccard_defined(s, s),
        jaccard_value(s, s) == SCALE,
{
    let kv = keys_of(s);
    assert(forall|i: int| 0 <= i < kv.len() ==> kv.contains(#[trigger] kv[i]));
    lemma_drop_contained_self(kv);
    let ks = union_keys(kv, kv);
    assert(ks =~= kv);
    let k = s[0].key@;
    crate::scores::lemma_score_at(s, 0);
    assert(kv[0] == k);
    assert(kv.contains(k));
    lemma_max_term(ks, s, s, k);
    lemma_minmax_self(ks, s);
    let m = max_sum(ks, s, s);
    assert(m >= 1);
    assert(m * (SCALE as nat) == (SCALE as int) * (m as int)) by (nonlinear_arith);
    vstd::arithmetic::div_mod::lemma_div_multiples_vanish(SCALE as int, m as int);
}

/// The combined similarity of one candidate document: the cosine and
/// Jaccard signals blended by the cosine weight, plus the recency bonus
/// when the candidate is the most recently written document.
pub open spec fn combined_value(cos: nat, jac: nat, is_latest: bool, cfg: crate::Config) -> nat {
    ((cfg.cosine_weight as nat) * cos + ((SCALE - cfg.cosine_weight) as nat) * jac) / (
    SCALE as nat) + if is_latest {
        cfg.latest_bias as nat
    } else {
        0
    }
}

/// The combined similarity, exactly as [`combined_value`] defines it.
pub fn combined_score(cos: u64, jac: u64, is_latest: bool, cfg: &crate::Config) -> (r: u64)
    requires
        cos <= SCALE,
        jac <= SCALE,
        cfg.wf(),
    ensures
        r as nat == combined_value(cos as nat, jac as nat, is_latest, *cfg),
        r <= 2 * SCALE,
{
    let w = cfg.cosine_weight;
    proof {
        assert(w as nat * (cos as nat) <= w as nat * (SCALE as nat)) by (nonlinear_arith)
            requires
                cos <= SCALE,
        ;
        assert((SCALE - w) as nat * (jac as nat) <= (SCALE - w) as nat * (SCALE as nat))
            by (nonlinear_arith)
            requires
                jac <= SCALE,
                w <= SCALE,
        ;
        assert(w as nat * (SCALE as nat) + (SCALE - w) as nat * (SCALE as nat) == (SCALE as nat) * (
        SCALE as nat)) by (nonlinear_arith)
            requires
                w <= SCALE,
        ;
        assert((SCALE as nat) * (SCALE as nat) <= 1_000_000 * 1_000_000) by (nonlinear_arith);
        vstd::arithmetic::div_mod::lemma_div_is_ordered(
            (w as nat * (cos as nat) + (SCALE - w) as nat * (jac as nat)) as int,
            ((SCALE as nat) * (SCALE as nat)) as int,
            SCALE as int,
        );
        assert((SCALE as nat) * (SCALE as nat) == (SCALE as int) * (SCALE as int))
            by (nonlinear_arith);
        vstd::arithmetic::div_mod::lemma_div_multiples_vanish(SCALE as int, SCALE as int);
    }
    let blend = (w * cos + (SCALE - w) * jac) / SCALE;
    if is_latest {
        blend + cfg.latest_bias
    } else {
        blend
    }
}

/// The best candidate among the first `i` documents: the lowest-index
/// document of maximal combined score, skipping documents whose Jaccard
/// comparison with the input is undefined. The result carries the index
/// and the score.
pub open spec fn scan_best(
    itf: Seq<ScoreEntry>,
    irk: Seq<ScoreEntry>,
    ctf: Seq<(String, Vec<ScoreEntry>)>,
    crk: Seq<(String, Vec<ScoreEntry>)>,
    latest: Option<String>,
    cfg: crate::Config,
    i: int,
) -> Option<(int, nat)>
    decreases i,
{
    if i <= 0 {
        None
    } else {
        let prev = scan_best(itf, irk, ctf, crk, latest, cfg, i - 1);
        if jaccard_defined(irk, crk[i - 1].1@) {
            let is_latest = latest is Some && latest->0@ == ctf[i - 1].0@;
            let sc = combined_value(
                cosine_value(itf, ctf[i - 1].1@),
                jaccard_value(irk, crk[i - 1].1@),
                is_latest,
                cfg,
            );
            match prev {
                Option::None => Option::Some((i - 1, sc)),
                Option::Some((j, bs)) => if sc > bs {
                    Option::Some((i - 1, sc))
                } else {
                    prev
                },
            }
        } else {
            prev
        }
    }
}

/// The best candidate document for the input: its index among the corpus
/// documents and its combined score, or nothing when no comparison is
/// defined. Ties keep the earliest document.
pub fn top_candidate(
    input_tf: &Scores,
    input_rake: &Scores,
    corpus_tf: &Vec<(String, Scores)>,
    corpus_rake: &Vec<(String, Scores)>,
    latest: &Option<String>,
    cfg: &crate::Config,
) -> (r: Option<(usize, u64)>)
    requires
        cfg.wf(),
        corpus_tf@.len() == corpus_rake@.len(),
        scores_bounded(input_tf@, COSINE_SCORE_LIMIT),
        scores_bounded(input_rake@, JACCARD_SCORE_LIMIT),
        forall|i: int|
            0 <= i < corpus_tf@.len() ==> scores_bounded(
                (#[trigger] corpus_tf@[i]).1@,
                COSINE_SCORE_LIMIT,
            ) && input_tf@.len() + corpus_tf@[i].1@.len() <= KEY_COUNT_LIMIT,
        forall|i: int|
            0 <= i < corpus_rake@.len() ==> scores_bounded(
                (#[trigger] corpus_rake@[i]).1@,
                JACCARD_SCORE_LIMIT,
            ) && input_rake@.len() + corpus_rake@[i].1@.len() <= KEY_COUNT_LIMIT,
    ensures
        ({
            let sb = scan_best(
                input_tf@,
                input_rake@,
                corpus_tf@,
                corpus_rake@,
                *latest,
                *cfg,
                corpus_tf@.len() as int,
            );
            &&& (r is Some <==> sb is Some)
            &&& (r is Some ==> (r->0).0 as int == (sb->0).0 && (r->0).1 as nat == (sb->0).1)
            &&& (r is Some ==> (r->0).0 < corpus_tf@.len() && (r->0).1 <= 2 * SCALE)
        }),
{
    let mut best: Option<(usize, u64)> = None;
    let mut i: usize = 0;
    while i < corpus_tf.len()
        invariant
            i <= corpus_tf@.len(),
            corpus_tf@.len() == corpus_rake@.len(),
            cfg.wf(),
            scores_bounded(input_tf@, COSINE_SCORE_LIMIT),
            scores_bounded(input_rake@, JACCARD_SCORE_LIMIT),
            forall|j: int|
                0 <= j < corpus_tf@.len() ==> scores_bounded(
                    (#[trigger] corpus_tf@[j]).1@,
                    COSINE_SCORE_LIMIT,
                ) && input_tf@.len() + corpus_tf@[j].1@.len() <= KEY_COUNT_LIMIT,
            forall|j: int|
                0 <= j < corpus_rake@.len() ==> scores_bounded(
                    (#[trigger] corpus_rake@[j]).1@,
                    JACCARD_SCORE_LIMIT,
                ) && input_rake@.len() + corpus_rake@[j].1@.len() <= KEY_COUNT_LIMIT,
            ({
                let sb = scan_best(
                    input_tf@,
                    input_rake@,
                    corpus_tf@,
                    corpus_rake@,
                    *latest,
                    *cfg,
                    i as int,
                );
                &&& (best is Some <==> sb is Some)
                &&& (best is Some ==> (best->0).0 as int == (sb->0).0 && (best->0).1 as nat == (sb->0).1)
                &&& (best is Some ==> (best->0).0 < i && (best->0).1 <= 2 * SCALE)
            }),
        decreases corpus_tf@.len() - i,
    {
        let jac_opt = weighted_jaccard_similarity(input_rake, &corpus_rake[i].1);
        if let Some(jac) = jac_opt {
            let cos = cosine_similarity_tuple(input_tf, &corpus_tf[i].1);
            let is_latest: bool = match latest {
                Some(l) => l.eq(&corpus_tf[i].0),
                None => false,
            };
            proof {
                if latest is Some {
                    assert(is_latest == (latest->0@ == corpus_tf@[i as int].0@));
                }
            }
            let sc = combined_score(cos, jac, is_latest, cfg);
            best = match best {
                Some((bj, bs)) => if sc > bs {
                    Some((i, sc))
                } else {
                    Some((bj, bs))
                },
                None => Some((i, sc)),
            };
        }
        i = i + 1;
    }
    best
}

} // verus!

verus! {

/// Scores are non-increasing along the list.
pub open spec fn sorted_desc(s: Seq<(String, u64)>) -> bool {
    forall|i: int, j: int| 0 <= i < j < s.len() ==> (#[trigger] s[i]).1 >= (#[trigger] s[j]).1
}

/// `sc` lists, in document order, one combined score per document among
/// the first `i` whose Jaccard comparison with the input is defined.
pub open spec fn scored_docs(
    sc: Seq<(String, u64)>,
    itf: Seq<ScoreEntry>,
    irk: Seq<ScoreEntry>,
    ctf: Seq<(String, Vec<ScoreEntry>)>,
    crk: Seq<(String, Vec<ScoreEntry>)>,
    lat: Option<String>,
    cfg: crate::Config,
    i: int,
) -> bool
    decreases i,
{
    if i <= 0 {
        sc.len() == 0
    } else {
        if jaccard_defined(irk, crk[i - 1].1@) {
            &&& sc.len() > 0
            &&& sc.last().0@ == ctf[i - 1].0@
            &&& sc.last().1 as nat == combined_value(
                cosine_value(itf, ctf[i - 1].1@),
                jaccard_value(irk, crk[i - 1].1@),
                lat is Some && lat->0@ == ctf[i - 1].0@,
                cfg,
            )
            &&& scored_docs(sc.drop_last(), itf, irk, ctf, crk, lat, cfg, i - 1)
        } else {
            scored_docs(sc, itf, irk, ctf, crk, lat, cfg, i - 1)
        }
    }
}

/// Sort candidate entries by score, descending, by repeated selection of
/// a maximum. The result holds exactly the given entries.
fn sort_desc(v: Vec<(String, u64)>) -> (r: Vec<(String, u64)>)
    ensures
        sorted_desc(r@),
        r@.to_multiset() == v@.to_multiset(),
{
    broadcast use vstd::seq_lib::group_to_multiset_ensures;

    let mut rest = v;
    let mut out: Vec<(String, u64)> = Vec::new();
    proof {
        assert(out@.to_multiset().add(rest@.to_multiset()) =~= rest@.to_multiset());
    }
    while rest.len() > 0
        invariant
            sorted_desc(out@),
            forall|k: int, j: int|
                0 <= k < out@.len() && 0 <= j < rest@.len() ==> (#[trigger] out@[k]).1 >= (
                #[trigger] rest@[j]).1,
            out@.to_multiset().add(rest@.to_multiset()) == v@.to_multiset(),
        decreases rest@.len(),
    {
        let mut mi: usize = 0;
        let mut k: usize = 1;
        while k < rest.len()
            invariant
                mi < k <= rest@.len(),
                rest@.len() > 0,
                forall|j: int| 0 <= j < k ==> (#[trigger] rest@[j]).1 <= rest@[mi as int].1,
            decreases rest@.len() - k,
        {
            if rest[k].1 > rest[mi].1 {
                mi = k;
            }
            k = k + 1;
        }
        let ghost old_out = out@;
        let ghost old_rest = rest@;
        let x = rest.remove(mi);
        out.push(x);
        proof {
            assert(old_rest[mi as int] == x);
            vstd::seq_lib::to_multiset_remove(old_rest, mi as int);
            vstd::seq_lib::to_multiset_build(old_out, x);
            assert(out@ == old_out.push(x));
            assert(out@.to_multiset() =~= old_out.to_multiset().insert(x));
            vstd::seq_lib::to_multiset_contains(old_rest, x);
            assert(old_rest.to_multiset().count(x) > 0) by {
                assert(old_rest.contains(x));
            }
            assert(out@.to_multiset().add(rest@.to_multiset()) =~= old_out.to_multiset().add(
                old_rest.to_multiset(),
            ));
            assert(forall|j: int|
                0 <= j < rest@.len() ==> (#[trigger] rest@[j]) == old_rest[
                    if j < mi as int {
                        j
                    } else {
                        j + 1
                    }
                ]);
        }
    }
    out
}

/// Every candidate document with a defined comparison, scored and sorted
/// by combined score, best first. Documents whose Jaccard comparison with
/// the input is undefined are excluded from the ranking.
pub fn rank_documents(
    input_tf: &Scores,
    input_rake: &Scores,
    corpus_tf: &Vec<(String, Scores)>,
    corpus_rake: &Vec<(String, Scores)>,
    latest: &Option<String>,
    cfg: &crate::Config,
) -> (r: Vec<(String, u64)>)
    requires
        cfg.wf(),
        corpus_tf@.len() == corpus_rake@.len(),
        scores_bounded(input_tf@, COSINE_SCORE_LIMIT),
        scores_bounded(input_rake@, JACCARD_SCORE_LIMIT),
        forall|i: int|
            0 <= i < corpus_tf@.len() ==> scores_bounded(
                (#[trigger] corpus_tf@[i]).1@,
                COSINE_SCORE_LIMIT,
            ) && input_tf@.len() + corpus_tf@[i].1@.len() <= KEY_COUNT_LIMIT,
        forall|i: int|
            0 <= i < corpus_rake@.len() ==> scores_bounded(
                (#[trigger] corpus_rake@[i]).1@,
                JACCARD_SCORE_LIMIT,
            ) && input_rake@.len() + corpus_rake@[i].1@.len() <= KEY_COUNT_LIMIT,
    ensures
        sorted_desc(r@),
        exists|sc: Seq<(String, u64)>|
            #![auto]
            scored_docs(
                sc,
                input_tf@,
                input_rake@,
                corpus_tf@,
                corpus_rake@,
                *latest,
                *cfg,
                corpus_tf@.len() as int,
            ) && r@.to_multiset() == sc.to_multiset(),
{
    let mut scored: Vec<(String, u64)> = Vec::new();
    let mut i: usize = 0;
    while i < corpus_tf.len()
        invariant
            i <= corpus_tf@.len(),
            corpus_tf@.len() == corpus_rake@.len(),
            cfg.wf(),
            scores_bounded(input_tf@, COSINE_SCORE_LIMIT),
            scores_bounded(input_rake@, JACCARD_SCORE_LIMIT),
            forall|j: int|
                0 <= j < corpus_tf@.len() ==> scores_bounded(
                    (#[trigger] corpus_tf@[j]).1@,
                    COSINE_SCORE_LIMIT,
                ) && input_tf@.len() + corpus_tf@[j].1@.len() <= KEY_COUNT_LIMIT,
            forall|j: int|
                0 <= j < corpus_rake@.len() ==> scores_bounded(
                    (#[trigger] corpus_rake@[j]).1@,
                    JACCARD_SCORE_LIMIT,
                ) && input_rake@.len() + corpus_rake@[j].1@.len() <= KEY_COUNT_LIMIT,
            scored_docs(
                scored@,
                input_tf@,
                input_rake@,
                corpus_tf@,
                corpus_rake@,
                *latest,
                *cfg,
                i as int,
            ),
        decreases corpus_tf@.len() - i,
    {
        let jac_opt = weighted_jaccard_similarity(input_rake, &corpus_rake[i].1);
        if let Some(jac) = jac_opt {
            let cos = cosine_similarity_tuple(input_tf, &corpus_tf[i].1);
            let is_latest: bool = match latest {
                Some(l) => l.eq(&corpus_tf[i].0),
                None => false,
            };
            proof {
                if latest is Some {
                    assert(is_latest == (latest->0@ == corpus_tf@[i as int].0@));
                }
            }
            let sc = combined_score(cos, jac, is_latest, cfg);
            let name = corpus_tf[i].0.clone();
            let ghost old_scored = scored@;
            scored.push((name, sc));
            proof {
                assert(scored@.drop_last() =~= old_scored);
            }
        }
        i = i + 1;
    }
    let ghost sc_seq = scored@;
    let r = sort_desc(scored);
    proof {
        assert(scored_docs(
            sc_seq,
            input_tf@,
            input_rake@,
            corpus_tf@,
            corpus_rake@,
            *latest,
            *cfg,
            corpus_tf@.len() as int,
        ) && r@.to_multiset() == sc_seq.to_multiset());
    }
    r
}

} // verus!
