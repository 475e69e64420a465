//! Near-duplicate detection by an alignment-based similarity metric.
//!
//! Documents are compared by aligning their token sequences through a
//! three-stage cascade (exact, stemmed, synonym), scoring the alignment by
//! precision, recall and a fragmentation penalty, and flagging pairs whose
//! score exceeds a fixed threshold. Buckets bound the comparison scope; a
//! per-bucket score matrix is built, persisted as a flat byte blob, and
//! scanned by the duplicate filter.
//!
//! Scores are rational numbers; the pipeline only ever consumes the byte
//! `round(100 * score)`, so all score arithmetic here is exact integer
//! arithmetic over the tuning constants written as fractions.

use vstd::prelude::*;

pub mod align;
pub mod bucket;
pub mod cache;
pub mod document;
pub mod filter;
pub mod laws;
pub mod matrix;
pub mod meteor;
pub mod provider;
pub mod score;
pub mod text;

verus! {

/// The error taxonomy of the pipeline. Every error is fatal for the run
/// (or for the bucket, for `IoFailure`); none is retried.
#[derive(Clone, Copy, Debug, PartialEq, Eq, Structural)]
pub enum Error {
    /// A lexical lookup during the scoring phase hit a key that the warm-up
    /// pass never computed.
    CacheMiss,
    /// A persisted matrix blob does not have the expected size.
    IoFailure,
    /// A dataset record could not be parsed.
    MalformedInput,
    /// The external stem or synonym provider could not be reached.
    ResourceUnavailable,
}

impl Error {
    /// A short description, usable in the fatal message printed on abort.
    pub fn describe(&self) -> (r: &'static str)
        ensures
            r@ == match self {
                Error::CacheMiss => "lexical cache miss after warm-up"@,
                Error::IoFailure => "matrix blob has the wrong size"@,
                Error::MalformedInput => "dataset record failed to parse"@,
                Error::ResourceUnavailable => "lexical resource provider unreachable"@,
            },
    {
        match self {
            Error::CacheMiss => "lexical cache miss after warm-up",
            Error::IoFailure => "matrix blob has the wrong size",
            Error::MalformedInput => "dataset record failed to parse",
            Error::ResourceUnavailable => "lexical resource provider unreachable",
        }
    }
}

} // verus!
