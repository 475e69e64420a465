//! Bucketing, matrix construction, persistence and the duplicate filter
//! on concrete inputs.

use meteor_dedup::bucket::{assign, bucketize, BUCKET_COUNT};
use meteor_dedup::cache::{Stemmer, Synsets};
use meteor_dedup::document::{Document, Info, Stats};
use meteor_dedup::filter::{dedup_ids, filter_bucket, removal_list, DUPLICATE_THRESHOLD};
use meteor_dedup::matrix::{build_matrix, from_bytes, score_row, to_bytes, ScoreMatrix};
use meteor_dedup::meteor::warm_documents;
use meteor_dedup::provider::{TableStemProvider, TableSynonymProvider};
use meteor_dedup::score::Tuning;
use meteor_dedup::Error;

fn doc(id: u32, content: &str, jobs: u32, steps: u32) -> Document {
    Document {
        id,
        content: content.to_string(),
        info: Info {
            stats: Stats {
                num_of_jobs: jobs,
                total_num_of_steps: steps,
            },
        },
    }
}

fn empty_caches() -> (Stemmer<TableStemProvider>, Synsets<TableSynonymProvider>) {
    (
        Stemmer::new(TableStemProvider::new(Vec::new())),
        Synsets::new(TableSynonymProvider::new(Vec::new())),
    )
}

#[test]
fn zero_metric_documents_are_dropped() {
    assert_eq!(assign(0, 5), None);
    assert_eq!(assign(5, 0), None);
}

#[test]
fn grid_assignment_clamps_to_ten() {
    assert_eq!(assign(1, 1), Some(0));
    assert_eq!(assign(3, 4), Some(23));
    assert_eq!(assign(10, 10), Some(99));
    assert_eq!(assign(50, 50), Some(99));
}

#[test]
fn bucketize_groups_and_tokenizes() {
    let docs = vec![
        doc(1, "hello world", 1, 1),
        doc(2, "goodbye", 1, 1),
        doc(3, "dropped text", 0, 7),
        doc(4, "big one", 99, 99),
    ];
    let buckets = bucketize(&docs);
    assert_eq!(buckets.len(), BUCKET_COUNT);
    assert_eq!(
        buckets[0],
        vec![
            (1u64, vec!["hello".to_string(), "world".to_string()]),
            (2u64, vec!["goodbye".to_string()]),
        ]
    );
    assert_eq!(buckets[99], vec![(4u64, vec!["big".to_string(), "one".to_string()])]);
    let total: usize = buckets.iter().map(|b| b.len()).sum();
    assert_eq!(total, 3); // the zero-metric document is in no bucket
}

#[test]
fn cache_computes_each_key_once() {
    // two lookups of the same key invoke the provider exactly once and
    // return equal values.
    let table = vec![("running".to_string(), "run".to_string())];
    let mut stemmer = Stemmer::new(TableStemProvider::new(table));
    let first = stemmer.get_or_compute(&"running".to_string());
    let second = stemmer.get_or_compute(&"running".to_string());
    assert_eq!(first, "run");
    assert_eq!(first, second);
    assert_eq!(stemmer.provider.calls, 1);

    let mut synsets = Synsets::new(TableSynonymProvider::new(Vec::new()));
    let a = synsets.get_or_compute(&"run".to_string());
    let b = synsets.get_or_compute(&"run".to_string());
    assert_eq!(a, vec!["run".to_string()]); // always contains the word itself
    assert_eq!(a, b);
    assert_eq!(synsets.provider.calls, 1);
}

#[test]
fn cache_get_misses_before_warm_up() {
    let (stemmer, synsets) = empty_caches();
    assert_eq!(stemmer.get(&"word".to_string()), Err(Error::CacheMiss));
    assert!(synsets.get(&"word".to_string()).is_err());
}

#[test]
fn matrix_of_identical_documents() {
    let docs = vec![doc(1, "a b c", 1, 1), doc(2, "a b c", 1, 1)];
    let (mut stemmer, mut synsets) = empty_caches();
    warm_documents(&docs, &mut synsets, &mut stemmer).unwrap();
    let buckets = bucketize(&docs);
    let t = Tuning::default();
    let m = build_matrix(&buckets[0], &t, &synsets, &stemmer).unwrap();
    assert_eq!(m.n, 2);
    // row 0: [0, 98] (full match of 3 tokens scores 98); row 1: zeros.
    assert_eq!(m.bytes, vec![0, 98, 0, 0]);
}

#[test]
fn rows_computed_independently_agree_with_the_matrix() {
    let docs = vec![
        doc(1, "the quick brown fox", 2, 2),
        doc(2, "the slow brown fox", 2, 2),
        doc(3, "something else entirely", 2, 2),
    ];
    let (mut stemmer, mut synsets) = empty_caches();
    warm_documents(&docs, &mut synsets, &mut stemmer).unwrap();
    let buckets = bucketize(&docs);
    let bucket = &buckets[11];
    assert_eq!(bucket.len(), 3);
    let t = Tuning::default();
    let m = build_matrix(bucket, &t, &synsets, &stemmer).unwrap();
    let mut flat: Vec<u8> = Vec::new();
    for i in 0..bucket.len() {
        let mut row = score_row(bucket, i, &t, &synsets, &stemmer).unwrap();
        flat.append(&mut row);
    }
    assert_eq!(flat, m.bytes);
}

#[test]
fn matrix_round_trips_through_bytes() {
    let m = ScoreMatrix {
        n: 2,
        bytes: vec![0, 96, 0, 0],
    };
    let blob = to_bytes(&m);
    let m2 = from_bytes(2, blob).unwrap();
    assert_eq!(m2.n, m.n);
    assert_eq!(m2.bytes, m.bytes);
}

#[test]
fn wrong_sized_blob_is_an_io_failure() {
    assert_eq!(
        from_bytes(2, vec![1, 2, 3]).err(),
        Some(Error::IoFailure)
    );
}

#[test]
fn one_byte_above_threshold_flags_one_column() {
    // bucket of 3 documents, one byte 96 at flat offset 5: the document at
    // column 5 % 3 == 2 is flagged.
    let ids = vec![10u64, 20, 30];
    let mut bytes = vec![0u8; 9];
    bytes[5] = 96;
    assert_eq!(filter_bucket(&ids, &bytes, DUPLICATE_THRESHOLD), vec![30u64]);
}

#[test]
fn bytes_at_or_below_threshold_flag_nothing() {
    let ids = vec![10u64, 20, 30];
    let bytes = vec![95u8; 9];
    assert_eq!(filter_bucket(&ids, &bytes, DUPLICATE_THRESHOLD), Vec::<u64>::new());
}

#[test]
fn removal_list_deduplicates_keeping_first_occurrence() {
    assert_eq!(
        dedup_ids(vec![7, 3, 7, 9, 3, 7]),
        vec![7u64, 3, 9]
    );
    let bucket_a = (vec![1u64, 2], vec![0u8, 96, 0, 97]);
    let bucket_b = (vec![2u64, 5], vec![0u8, 99, 0, 0]);
    // bucket_a flags columns 1 % 2 = 1 and 3 % 2 = 1 -> id 2, twice;
    // bucket_b flags column 1 -> id 5.
    let out = removal_list(&vec![bucket_a, bucket_b], DUPLICATE_THRESHOLD);
    assert_eq!(out, vec![2u64, 5]);
}

#[test]
fn error_descriptions_name_the_failure() {
    assert_eq!(Error::CacheMiss.describe(), "lexical cache miss after warm-up");
    assert_eq!(Error::IoFailure.describe(), "matrix blob has the wrong size");
    assert_eq!(Error::MalformedInput.describe(), "dataset record failed to parse");
    assert_eq!(
        Error::ResourceUnavailable.describe(),
        "lexical resource provider unreachable"
    );
}
