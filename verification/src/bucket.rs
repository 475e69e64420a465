//! The bucketing policy: which documents are ever compared.
//!
//! The policy here is the fine 10-by-10 grid: both metrics are clamped to
//! `[1, 10]` and the pair indexes one of 100 buckets; a document whose
//! metrics include a zero is dropped from all further processing, not
//! placed in an overflow bucket. The function is total and deterministic:
//! the same document lands in the same bucket on every run.

use vstd::prelude::*;
use crate::align::words_view;
use crate::document::Document;
use crate::text::tokens_of;

verus! {

/// How many buckets the grid policy produces.
pub const BUCKET_COUNT: usize = 100;

/// A metric clamped to at most 10.
pub open spec fn clamp10(x: u32) -> int {
    if x <= 10 {
        x as int
    } else {
        10
    }
}

/// The bucket of a pair of metrics: none when either metric is zero, else
/// the grid cell of both metrics clamped to `[1, 10]`.
pub open spec fn bucket_of(jobs: u32, steps: u32) -> Option<usize> {
    if jobs == 0 || steps == 0 {
        Option::None
    } else {
        Option::Some((((clamp10(jobs) - 1) * 10) + (clamp10(steps) - 1)) as usize)
    }
}

/// Assigns a pair of metrics to its bucket, or to none.
pub fn assign(jobs: u32, steps: u32) -> (b: Option<usize>)
    ensures
        b == bucket_of(jobs, steps),
        match b {
            Option::Some(x) => x < BUCKET_COUNT,
            Option::None => jobs == 0 || steps == 0,
        },
{
    if jobs == 0 || steps == 0 {
        return None;
    }
    let jc: u32 = if jobs <= 10 {
        jobs
    } else {
        10
    };
    let sc: u32 = if steps <= 10 {
        steps
    } else {
        10
    };
    Some((((jc - 1) * 10) + (sc - 1)) as usize)
}

/// A bucket entry: the document's identifier and its token list.
pub open spec fn entries_view(s: Seq<(u64, Vec<String>)>) -> Seq<(u64, Seq<Seq<char>>)> {
    s.map_values(|e: (u64, Vec<String>)| (e.0, words_view(e.1@)))
}

/// The documents of `docs` that belong to bucket `b`, in dataset order,
/// each as (identifier, tokenized content).
pub open spec fn bucket_members(docs: Seq<Document>, b: int) -> Seq<(u64, Seq<Seq<char>>)>
    decreases docs.len(),
{
    if docs.len() == 0 {
        Seq::<(u64, Seq<Seq<char>>)>::empty()
    } else {
        let init = bucket_members(docs.drop_last(), b);
        let d = docs.last();
        if bucket_of(d.info.stats.num_of_jobs, d.info.stats.total_num_of_steps) == Option::Some(
            b as usize,
        ) {
            init.push((d.id as u64, tokens_of(d.content@)))
        } else {
            init
        }
    }
}

/// The members of one bucket, in dataset order.
fn collect_bucket(docs: &Vec<Document>, b: usize) -> (out: Vec<(u64, Vec<String>)>)
    requires
        b < BUCKET_COUNT,
    ensures
        entries_view(out@) == bucket_members(docs@, b as int),
{
    let mut out: Vec<(u64, Vec<String>)> = Vec::new();
    let mut i: usize = 0;
    while i < docs.len()
        invariant
            i <= docs@.len(),
            entries_view(out@) == bucket_members(docs@.take(i as int), b as int),
        decreases docs@.len() - i,
    {
        let ghost out_before = out@;
        let d = &docs[i];
        match assign(d.info.stats.num_of_jobs, d.info.stats.total_num_of_steps) {
            Some(x) => {
                if x == b {
                    let tokens = crate::text::tokenize(d.content.as_str());
                    out.push((d.id as u64, tokens));
                }
            },
            None => {},
        }
        proof {
            assert(docs@.take(i + 1).drop_last() =~= docs@.take(i as int));
            assert(docs@.take(i + 1).last() == docs@[i as int]);
            assert(entries_view(out@) =~= bucket_members(docs@.take(i + 1), b as int));
        }
        i = i + 1;
    }
    proof {
        assert(docs@.take(i as int) =~= docs@);
    }
    out
}

/// Groups the whole dataset into the 100 grid buckets; documents with a
/// zero metric appear in none of them.
pub fn bucketize(docs: &Vec<Document>) -> (buckets: Vec<Vec<(u64, Vec<String>)>>)
    ensures
        buckets@.len() == BUCKET_COUNT,
        forall|b: int|
            0 <= b < BUCKET_COUNT ==> entries_view((#[trigger] buckets@[b])@) == bucket_members(
                docs@,
                b,
            ),
{
    let mut buckets: Vec<Vec<(u64, Vec<String>)>> = Vec::new();
    let mut b: usize = 0;
    while b < BUCKET_COUNT
        invariant
            b <= BUCKET_COUNT,
            buckets@.len() == b,
            forall|x: int|
                0 <= x < b ==> entries_view((#[trigger] buckets@[x])@) == bucket_members(
                    docs@,
                    x,
                ),
        decreases BUCKET_COUNT - b,
    {
        let members = collect_bucket(docs, b);
        buckets.push(members);
        b = b + 1;
    }
    buckets
}

} // verus!
