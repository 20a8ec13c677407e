use page_writer::fixed::{isqrt, ln_scaled_u64, SCALE};
use page_writer::rake::rake;
use page_writer::scores::{get_score, ScoreEntry, Scores};
use page_writer::similarity::{
    combined_score, cosine_similarity_tuple, rank_documents, weighted_jaccard_similarity,
};
use page_writer::tf_idf::{idf, tf, tf_idf_hash};
use page_writer::Config;

fn words(ws: &[&str]) -> Vec<String> {
    ws.iter().map(|w| w.to_string()).collect()
}

fn entries(kv: &[(&str, u128)]) -> Scores {
    kv.iter().map(|(k, v)| ScoreEntry { key: k.to_string(), score: *v }).collect()
}

#[test]
fn isqrt_exact_values() {
    assert_eq!(isqrt(0), 0);
    assert_eq!(isqrt(1), 1);
    assert_eq!(isqrt(15), 3);
    assert_eq!(isqrt(16), 4);
    assert_eq!(isqrt(1_000_000_000_000), 1_000_000);
}

#[test]
fn log_of_one_is_zero_and_doubling_adds_ln_two() {
    assert_eq!(ln_scaled_u64(1, 1), 0);
    assert_eq!(ln_scaled_u64(7, 7), 0);
    assert_eq!(ln_scaled_u64(2, 1), 693_147);
    assert_eq!(ln_scaled_u64(4, 1), 1_386_294);
    // ln 3 lies strictly between ln 2 and ln 4
    let l3 = ln_scaled_u64(3, 1);
    assert!(693_147 < l3 && l3 < 1_386_294);
}

#[test]
fn tf_is_count_over_length() {
    let doc = words(&["a", "b", "a", "c"]);
    assert_eq!(tf(&"a".to_string(), &doc), 500_000);
    assert_eq!(tf(&"b".to_string(), &doc), 250_000);
    assert_eq!(tf(&"z".to_string(), &doc), 0);
}

#[test]
fn idf_vanishes_for_ubiquitous_terms() {
    let corpus = vec![
        ("A".to_string(), words(&["x", "y"])),
        ("B".to_string(), words(&["x", "z"])),
    ];
    // x occurs in both documents: ln(2/2) == 0
    assert_eq!(idf(&"x".to_string(), &corpus), 0);
    // y occurs in one of two: ln(2/1) == ln 2
    assert_eq!(idf(&"y".to_string(), &corpus), 693_147);
}

#[test]
fn input_vector_covers_the_whole_vocabulary() {
    let corpus = vec![
        ("A".to_string(), words(&["x", "y"])),
        ("B".to_string(), words(&["x", "z"])),
    ];
    let v = tf_idf_hash(words(&["y", "y"]), &corpus);
    // vocabulary order is first occurrence: x, y, z
    assert_eq!(v.len(), 3);
    assert_eq!(get_score(&v, &"x".to_string()), 0);
    // tf(y) = 1, idf(y) = ln 2
    assert_eq!(get_score(&v, &"y".to_string()), 693_147);
    assert_eq!(get_score(&v, &"z".to_string()), 0);
}

#[test]
fn rake_scores_words_and_phrases() {
    // words: red apple red; freq red = 2, apple = 1
    // degree red = 2 (in "red apple") + 1 (alone) = 3; degree apple = 2
    let m = rake(words(&["red apple", "red"]));
    assert_eq!(get_score(&m, &"red".to_string()), 1_500_000);
    assert_eq!(get_score(&m, &"apple".to_string()), 2_000_000);
    // phrase score = sum of its word scores
    assert_eq!(get_score(&m, &"red apple".to_string()), 3_500_000);
    // the single-word phrase key carries the word score
    assert_eq!(m.len(), 3);
}

#[test]
fn cosine_of_vector_with_itself_is_one() {
    let v = entries(&[("a", 3), ("b", 4)]);
    let w = entries(&[("a", 3), ("b", 4)]);
    assert_eq!(cosine_similarity_tuple(&v, &w), SCALE);
}

#[test]
fn cosine_with_zero_vector_is_zero() {
    let v = entries(&[("a", 3), ("b", 4)]);
    let z = entries(&[]);
    assert_eq!(cosine_similarity_tuple(&v, &z), 0);
    assert_eq!(cosine_similarity_tuple(&z, &v), 0);
}

#[test]
fn cosine_of_orthogonal_vectors_is_zero() {
    let v = entries(&[("a", 5)]);
    let w = entries(&[("b", 7)]);
    assert_eq!(cosine_similarity_tuple(&v, &w), 0);
}

#[test]
fn jaccard_of_set_with_itself_is_one() {
    let s = entries(&[("a", 2_000_000), ("b c", 500_000)]);
    let t = entries(&[("a", 2_000_000), ("b c", 500_000)]);
    assert_eq!(weighted_jaccard_similarity(&s, &t), Some(SCALE));
}

#[test]
fn jaccard_of_empty_sets_is_undefined() {
    let s = entries(&[]);
    let t = entries(&[]);
    assert_eq!(weighted_jaccard_similarity(&s, &t), None);
}

#[test]
fn jaccard_exact_ratio() {
    let s = entries(&[("a", 2_000_000)]);
    let t = entries(&[("a", 1_000_000)]);
    // min 1e6 over max 2e6
    assert_eq!(weighted_jaccard_similarity(&s, &t), Some(500_000));
}

#[test]
fn combined_blends_and_adds_recency() {
    let cfg = Config::new();
    // 0.6 * 1 + 0.4 * 0 = 0.6
    assert_eq!(combined_score(SCALE, 0, false, &cfg), 600_000);
    // 0.6 * 0 + 0.4 * 1 = 0.4
    assert_eq!(combined_score(0, SCALE, false, &cfg), 400_000);
    // plus the 0.25 recency bonus
    assert_eq!(combined_score(0, SCALE, true, &cfg), 650_000);
}

#[test]
fn settings_resolve_with_defaults() {
    let s = page_writer::Settings { cosine_weight: Some(700_000), threshold: None, latest_bias: None };
    let c = s.resolve();
    assert_eq!(c.cosine_weight, 700_000);
    assert_eq!(c.threshold, 400_000);
    assert_eq!(c.latest_bias, 250_000);
}

#[test]
fn ranking_sorts_best_candidate_first() {
    let cfg = Config::new();
    let itf: Scores = entries(&[]);
    let irk = entries(&[("x", 1_000_000)]);
    let ctf = vec![
        ("A".to_string(), entries(&[])),
        ("B".to_string(), entries(&[])),
    ];
    let crk = vec![
        ("A".to_string(), entries(&[("y", 1_000_000)])),
        ("B".to_string(), entries(&[("x", 1_000_000)])),
    ];
    let r = rank_documents(&itf, &irk, &ctf, &crk, &None, &cfg);
    assert_eq!(r.len(), 2);
    assert_eq!(r[0], ("B".to_string(), 400_000));
    assert_eq!(r[1], ("A".to_string(), 0));
}

#[test]
fn ranking_excludes_undefined_comparisons() {
    let cfg = Config::new();
    let itf: Scores = entries(&[]);
    let irk: Scores = entries(&[]);
    let ctf = vec![
        ("A".to_string(), entries(&[])),
        ("C".to_string(), entries(&[])),
    ];
    let crk = vec![
        ("A".to_string(), entries(&[("y", 1_000_000)])),
        ("C".to_string(), entries(&[])),
    ];
    let r = rank_documents(&itf, &irk, &ctf, &crk, &None, &cfg);
    // C carries no mass on either side: its comparison is undefined
    assert_eq!(r.len(), 1);
    assert_eq!(r[0].0, "A");
}
