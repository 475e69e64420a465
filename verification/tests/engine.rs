//! The alignment cascade and the score formula on concrete inputs.

use meteor_dedup::align::{enum_align_words, generate_enums, match_enums};
use meteor_dedup::cache::{Stemmer, Synsets};
use meteor_dedup::meteor::{init_cache, meteor_score};
use meteor_dedup::provider::{TableStemProvider, TableSynonymProvider};
use meteor_dedup::score::{count_chunks, score_percent, Tuning};
use meteor_dedup::Error;

fn words(list: &[&str]) -> Vec<String> {
    list.iter().map(|w| w.to_string()).collect()
}

fn empty_caches() -> (Stemmer<TableStemProvider>, Synsets<TableSynonymProvider>) {
    (
        Stemmer::new(TableStemProvider::new(Vec::new())),
        Synsets::new(TableSynonymProvider::new(Vec::new())),
    )
}

/// Warm both caches for every word list given.
fn warm(
    lists: &[&Vec<String>],
    synsets: &mut Synsets<TableSynonymProvider>,
    stemmer: &mut Stemmer<TableStemProvider>,
) {
    for list in lists {
        init_cache(list, synsets, stemmer).unwrap();
    }
}

#[test]
fn lowercasing_enumerates_in_order() {
    let hyp = words(&["RUN", "Fast"]);
    let reference = words(&["x"]);
    let (eh, er) = generate_enums(&hyp, &reference);
    assert_eq!(eh, vec![(0, "run".to_string()), (1, "fast".to_string())]);
    assert_eq!(er, vec![(0, "x".to_string())]);
}

#[test]
fn exact_phase_prefers_later_positions() {
    // hypothesis=["a","b","a"], reference=["a","a"]: the exact phase finds
    // (2,1) first, then (0,0); leftover hypothesis is "b" at position 1.
    let hyp = vec![
        (0, "a".to_string()),
        (1, "b".to_string()),
        (2, "a".to_string()),
    ];
    let reference = vec![(0, "a".to_string()), (1, "a".to_string())];
    let (matches, left_h, left_r) = match_enums(hyp, reference);
    assert_eq!(matches, vec![(2, 1), (0, 0)]);
    assert_eq!(left_h, vec![(1, "b".to_string())]);
    assert_eq!(left_r, Vec::<(usize, String)>::new());
}

#[test]
fn cascade_sorts_matches_by_hypothesis_position() {
    let hyp = words(&["a", "b", "a"]);
    let reference = words(&["a", "a"]);
    let (mut stemmer, mut synsets) = (
        Stemmer::new(TableStemProvider::new(Vec::new())),
        Synsets::new(TableSynonymProvider::new(Vec::new())),
    );
    warm(&[&hyp, &reference], &mut synsets, &mut stemmer);
    let (eh, er) = generate_enums(&hyp, &reference);
    let (matches, left_h, left_r) = enum_align_words(eh, er, &synsets, &stemmer).unwrap();
    assert_eq!(matches, vec![(0, 0), (2, 1)]);
    assert_eq!(left_h, vec![(1, "b".to_string())]);
    assert!(left_r.is_empty());
}

#[test]
fn chunk_count_of_two_runs() {
    // matches [(0,0),(1,1),(3,5)] form 2 chunks.
    assert_eq!(count_chunks(&[(0, 0), (1, 1), (3, 5)]), 2);
}

#[test]
fn chunk_count_edges() {
    assert_eq!(count_chunks(&[]), 0);
    assert_eq!(count_chunks(&[(4, 7)]), 1);
    assert_eq!(count_chunks(&[(0, 0), (1, 1), (2, 2)]), 1);
}

#[test]
fn score_formula_exact_value() {
    // m=3 matches in 2 chunks, hypothesis 5 tokens, reference 6, default
    // tuning: score = (1 - 0.5*(2/3)^3) * fmean, fmean = 30/59;
    // 100*score = 138000/3186 = 43.31..., rounded to 43.
    let t = Tuning::default();
    let matches = vec![(0, 0), (1, 1), (3, 5)];
    assert_eq!(score_percent(5, 6, &matches, &t), 43);
}

#[test]
fn score_of_no_matches_is_zero() {
    let t = Tuning::default();
    assert_eq!(score_percent(7, 9, &Vec::new(), &t), 0);
}

#[test]
fn full_match_score_value() {
    // hypothesis == reference, 3 tokens: score = 1 - 0.5/27 = 0.98148...,
    // so the byte is 98.
    let doc = words(&["a", "b", "c"]);
    let (mut stemmer, mut synsets) = empty_caches();
    warm(&[&doc], &mut synsets, &mut stemmer);
    let t = Tuning::default();
    assert_eq!(meteor_score(&doc, &doc, &t, &synsets, &stemmer), Ok(98));
}

#[test]
fn disjoint_vocabularies_score_zero() {
    let hyp = words(&["xx", "yy"]);
    let reference = words(&["zz", "ww"]);
    let (mut stemmer, mut synsets) = empty_caches();
    warm(&[&hyp, &reference], &mut synsets, &mut stemmer);
    let t = Tuning::default();
    assert_eq!(meteor_score(&reference, &hyp, &t, &synsets, &stemmer), Ok(0));
}

#[test]
fn stem_phase_matches_morphological_variants() {
    // "running" and "ran" share the stem "run".
    let hyp = words(&["running"]);
    let reference = words(&["ran"]);
    let table = vec![
        ("running".to_string(), "run".to_string()),
        ("ran".to_string(), "run".to_string()),
    ];
    let mut stemmer = Stemmer::new(TableStemProvider::new(table));
    let mut synsets = Synsets::new(TableSynonymProvider::new(Vec::new()));
    warm(&[&hyp, &reference], &mut synsets, &mut stemmer);
    let t = Tuning::default();
    // one match of one token each side: score = (1 - 0.5) * 1 = 0.5.
    assert_eq!(meteor_score(&reference, &hyp, &t, &synsets, &stemmer), Ok(50));
}

#[test]
fn synonym_phase_matches_through_the_lexicon() {
    let hyp = words(&["car"]);
    let reference = words(&["auto"]);
    let syn_table = vec![(
        "car".to_string(),
        vec!["car".to_string(), "auto".to_string()],
    )];
    let mut stemmer = Stemmer::new(TableStemProvider::new(Vec::new()));
    let mut synsets = Synsets::new(TableSynonymProvider::new(syn_table));
    warm(&[&hyp, &reference], &mut synsets, &mut stemmer);
    let t = Tuning::default();
    assert_eq!(meteor_score(&reference, &hyp, &t, &synsets, &stemmer), Ok(50));
}

#[test]
fn unwarmed_cache_is_a_cache_miss() {
    let hyp = words(&["a"]);
    let reference = words(&["b"]);
    let (stemmer, synsets) = empty_caches();
    let t = Tuning::default();
    assert_eq!(
        meteor_score(&reference, &hyp, &t, &synsets, &stemmer),
        Err(Error::CacheMiss)
    );
}

#[test]
fn identical_inputs_give_identical_scores() {
    let hyp = words(&["the", "quick", "brown", "fox"]);
    let reference = words(&["the", "brown", "fox", "ran"]);
    let t = Tuning::default();

    let (mut stemmer, mut synsets) = empty_caches();
    warm(&[&hyp, &reference], &mut synsets, &mut stemmer);
    let first = meteor_score(&reference, &hyp, &t, &synsets, &stemmer);
    let second = meteor_score(&reference, &hyp, &t, &synsets, &stemmer);
    assert_eq!(first, second);

    // and across a fresh process state: fresh caches, same resources
    let (mut stemmer2, mut synsets2) = empty_caches();
    warm(&[&reference, &hyp, &hyp], &mut synsets2, &mut stemmer2);
    assert_eq!(meteor_score(&reference, &hyp, &t, &synsets2, &stemmer2), first);
}

#[test]
fn asymmetric_weighting_depends_on_argument_order() {
    // 2 of 2 hypothesis tokens match 2 of 4 reference tokens; swapping the
    // roles changes precision against recall and so the score.
    let a = words(&["x", "y"]);
    let b = words(&["x", "y", "u", "v"]);
    let t = Tuning::default();
    let (mut stemmer, mut synsets) = empty_caches();
    warm(&[&a, &b], &mut synsets, &mut stemmer);
    let ab = meteor_score(&b, &a, &t, &synsets, &stemmer).unwrap();
    let ba = meteor_score(&a, &b, &t, &synsets, &stemmer).unwrap();
    assert_ne!(ab, ba);
}
