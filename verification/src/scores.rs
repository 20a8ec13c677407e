//! Score maps: association lists from string keys to fixed-point scores.
//!
//! A key is either a single stemmed word or a full phrase string; both kinds
//! live in the same mapping, which downstream similarity measures rely on.
//! A map is viewed two ways: [`keys_of`] gives the key order, and [`as_map`]
//! gives the total score function, where an absent key scores zero.

use vstd::prelude::*;

verus! {

/// One key/score pair of a score map.
pub struct ScoreEntry {
    /// A stemmed word, or a phrase with its words joined by single spaces.
    pub key: String,
    /// The fixed-point score of the key.
    pub score: u128,
}

/// A score map: an association list with distinct keys.
pub type Scores = Vec<ScoreEntry>;

/// The keys of a score map, in order.
pub open spec fn keys_of(m: Seq<ScoreEntry>) -> Seq<Seq<char>> {
    m.map_values(|e: ScoreEntry| e.key@)
}

/// Some entry of `m` has key `k`.
pub open spec fn has_key(m: Seq<ScoreEntry>, k: Seq<char>) -> bool {
    exists|i: int| 0 <= i < m.len() && (#[trigger] m[i].key@) == k
}

/// The score of `k` in `m`: the first matching entry's score, or zero.
pub open spec fn score_of(m: Seq<ScoreEntry>, k: Seq<char>) -> u128
    decreases m.len(),
{
    if m.len() == 0 {
        0
    } else if m[0].key@ == k {
        m[0].score
    } else {
        score_of(m.drop_first(), k)
    }
}

/// The total score function of `m`: an absent key scores zero.
pub open spec fn as_map(m: Seq<ScoreEntry>) -> Map<Seq<char>, u128> {
    Map::new(|q: Seq<char>| true, |q: Seq<char>| score_of(m, q))
}

/// No two entries of `m` share a key.
pub open spec fn keys_distinct(m: Seq<ScoreEntry>) -> bool {
    forall|i: int, j: int| 0 <= i < j < m.len() ==> m[i].key@ != m[j].key@
}

/// When no entry before `i` has the same key, the score of `m[i].key` is
/// `m[i].score`.
pub proof fn lemma_score_at(m: Seq<ScoreEntry>, i: int)
    requires
        0 <= i < m.len(),
        forall|j: int| 0 <= j < i ==> m[j].key@ != m[i].key@,
    ensures
        score_of(m, m[i].key@) == m[i].score,
    decreases i,
{
    if i > 0 {
        lemma_score_at(m.drop_first(), i - 1);
    }
}

/// A key that no entry holds scores zero.
pub proof fn lemma_score_absent(m: Seq<ScoreEntry>, k: Seq<char>)
    requires
        !has_key(m, k),
    ensures
        score_of(m, k) == 0,
    decreases m.len(),
{
    if m.len() > 0 {
        assert(m[0].key@ != k);
        assert(!has_key(m.drop_first(), k)) by {
            if has_key(m.drop_first(), k) {
                let i = choose|i: int|
                    0 <= i < m.drop_first().len() && (#[trigger] m.drop_first()[i].key@) == k;
                assert(m[i + 1].key@ == k);
            }
        }
        lemma_score_absent(m.drop_first(), k);
    }
}

/// The score of `k` in `m`, by linear search.
pub fn get_score(m: &Scores, k: &String) -> (r: u128)
    ensures
        r == score_of(m@, k@),
{
    let mut i: usize = 0;
    while i < m.len()
        invariant
            i <= m@.len(),
            forall|j: int| 0 <= j < i ==> m@[j].key@ != k@,
        decreases m@.len() - i,
    {
        if m[i].key.eq(k) {
            proof {
                lemma_score_at(m@, i as int);
            }
            return m[i].score;
        }
        i = i + 1;
    }
    proof {
        lemma_score_absent(m@, k@);
    }
    0
}

/// Some entry of `m` has key `k`, by linear search.
pub fn has_key_exec(m: &Scores, k: &String) -> (r: bool)
    ensures
        r == has_key(m@, k@),
{
    let mut i: usize = 0;
    while i < m.len()
        invariant
            i <= m@.len(),
            forall|j: int| 0 <= j < i ==> m@[j].key@ != k@,
        decreases m@.len() - i,
    {
        if m[i].key.eq(k) {
            proof {
                assert(m@[i as int].key@ == k@);
            }
            return true;
        }
        i = i + 1;
    }
    false
}

} // verus!
