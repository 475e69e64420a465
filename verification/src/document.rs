//! Dataset records.

use vstd::prelude::*;

verus! {

/// The coarse metrics a document is bucketed by.
#[derive(Debug, Clone)]
pub struct Stats {
    pub num_of_jobs: u32,
    pub total_num_of_steps: u32,
}

/// The metric envelope of a record.
#[derive(Debug, Clone)]
pub struct Info {
    pub stats: Stats,
}

/// One dataset record: an identifier, the free text whose
/// whitespace-delimited tokens are compared, and the bucketing metrics.
/// Immutable once loaded.
#[derive(Debug, Clone)]
pub struct Document {
    pub id: u32,
    pub content: String,
    pub info: Info,
}

} // verus!
