//! The duplicate filter: scanning persisted matrices against the
//! threshold.
//!
//! A byte strictly above [`DUPLICATE_THRESHOLD`] flags a duplicate. The
//! index-recovery convention is fixed here once: a flagged byte at flat
//! offset `p` in a bucket of `N` documents flags the document at column
//! `p % N`. (The row is discarded; zero cells of the lower triangle never
//! flag anything, so only above-diagonal columns are ever named.) Flagged
//! identifiers are aggregated over all buckets into one list, deduplicated
//! keeping each identifier's first occurrence.

use vstd::prelude::*;

verus! {

/// A score byte strictly above this flags the column document as a
/// duplicate.
pub const DUPLICATE_THRESHOLD: u8 = 95;

/// The identifiers that a matrix blob flags, in flat-offset order: for
/// every byte above `thr` at offset `p`, the identifier at column
/// `p % ids.len()`.
pub open spec fn flagged(ids: Seq<u64>, bytes: Seq<u8>, thr: u8) -> Seq<u64>
    decreases bytes.len(),
{
    if bytes.len() == 0 {
        Seq::<u64>::empty()
    } else {
        let init = flagged(ids, bytes.drop_last(), thr);
        if bytes.last() > thr {
            init.push(ids[(bytes.len() - 1) % ids.len() as int])
        } else {
            init
        }
    }
}

/// A sequence with every element's later repeats removed: each identifier
/// keeps its first occurrence only, in order.
pub open spec fn dedup(s: Seq<u64>) -> Seq<u64>
    decreases s.len(),
{
    if s.len() == 0 {
        Seq::<u64>::empty()
    } else {
        let init = dedup(s.drop_last());
        if s.drop_last().contains(s.last()) {
            init
        } else {
            init.push(s.last())
        }
    }
}

/// What is deduplicated holds exactly the values of the input.
pub proof fn lemma_dedup_contains(s: Seq<u64>)
    ensures
        forall|x: u64| dedup(s).contains(x) <==> s.contains(x),
    decreases s.len(),
{
    if s.len() > 0 {
        lemma_dedup_contains(s.drop_last());
        assert forall|x: u64| s.contains(x) implies dedup(s).contains(x) by {
            let k = choose|k: int| 0 <= k < s.len() && s[k] == x;
            if k < s.len() - 1 {
                assert(s.drop_last()[k] == x);
                assert(s.drop_last().contains(x));
                assert(dedup(s.drop_last()).contains(x));
                if !s.drop_last().contains(s.last()) {
                    lemma_push_keeps(dedup(s.drop_last()), s.last(), x);
                }
            } else {
                if s.drop_last().contains(s.last()) {
                    assert(dedup(s.drop_last()).contains(x));
                } else {
                    assert(dedup(s)[dedup(s).len() - 1] == x);
                }
            }
        }
        assert forall|x: u64| dedup(s).contains(x) implies s.contains(x) by {
            if s.drop_last().contains(s.last()) {
                assert(s.drop_last().contains(x) ==> s.contains(x)) by {
                    lemma_sub_contains(s, x);
                }
            } else {
                let k = choose|k: int| 0 <= k < dedup(s).len() && dedup(s)[k] == x;
                if k < dedup(s).len() - 1 {
                    assert(dedup(s.drop_last())[k] == x);
                    lemma_sub_contains(s, x);
                } else {
                    assert(x == s.last());
                    assert(s[s.len() - 1] == x);
                }
            }
        }
    }
}

/// An element of a prefix is an element of the whole.
proof fn lemma_sub_contains(s: Seq<u64>, x: u64)
    requires
        s.len() > 0,
    ensures
        s.drop_last().contains(x) ==> s.contains(x),
{
    if s.drop_last().contains(x) {
        let k = choose|k: int| 0 <= k < s.len() - 1 && s.drop_last()[k] == x;
        assert(s[k] == x);
    }
}

/// Pushing keeps every element present.
proof fn lemma_push_keeps(s: Seq<u64>, e: u64, x: u64)
    requires
        s.contains(x),
    ensures
        s.push(e).contains(x),
{
    let k = choose|k: int| 0 <= k < s.len() && s[k] == x;
    assert(s.push(e)[k] == x);
}

/// Whether `v` holds `x`.
fn contains_id(v: &Vec<u64>, x: u64) -> (b: bool)
    ensures
        b == v@.contains(x),
{
    let mut i: usize = 0;
    while i < v.len()
        invariant
            i <= v@.len(),
            forall|k: int| 0 <= k < i ==> v@[k] != x,
        decreases v@.len() - i,
    {
        if v[i] == x {
            return true;
        }
        i = i + 1;
    }
    false
}

/// The identifiers one bucket's blob flags, in flat-offset order, repeats
/// kept. `ids` must not be empty unless the blob is (an empty bucket has
/// an empty matrix).
pub fn filter_bucket(ids: &Vec<u64>, bytes: &Vec<u8>, threshold: u8) -> (out: Vec<u64>)
    requires
        bytes@.len() > 0 ==> ids@.len() > 0,
    ensures
        out@ == flagged(ids@, bytes@, threshold),
{
    let mut out: Vec<u64> = Vec::new();
    let mut p: usize = 0;
    while p < bytes.len()
        invariant
            p <= bytes@.len(),
            bytes@.len() > 0 ==> ids@.len() > 0,
            out@ == flagged(ids@, bytes@.take(p as int), threshold),
        decreases bytes@.len() - p,
    {
        proof {
            assert(bytes@.take(p + 1).drop_last() =~= bytes@.take(p as int));
            assert(bytes@.take(p + 1).last() == bytes@[p as int]);
        }
        if bytes[p] > threshold {
            out.push(ids[p % ids.len()]);
        }
        p = p + 1;
    }
    proof {
        assert(bytes@.take(p as int) =~= bytes@);
    }
    out
}

/// The flagged identifiers of a whole run of buckets, concatenated in
/// bucket order.
pub open spec fn all_flagged(buckets: Seq<(Seq<u64>, Seq<u8>)>, thr: u8) -> Seq<u64>
    decreases buckets.len(),
{
    if buckets.len() == 0 {
        Seq::<u64>::empty()
    } else {
        all_flagged(buckets.drop_last(), thr) + flagged(
            buckets.last().0,
            buckets.last().1,
            thr,
        )
    }
}

/// View of a list of (identifier list, blob) pairs.
pub open spec fn buckets_view(s: Seq<(Vec<u64>, Vec<u8>)>) -> Seq<(Seq<u64>, Seq<u8>)> {
    s.map_values(|b: (Vec<u64>, Vec<u8>)| (b.0@, b.1@))
}

/// The removal list of a whole run: every identifier some bucket's blob
/// flags, each kept at its first occurrence, in bucket-then-offset order.
pub fn removal_list(buckets: &Vec<(Vec<u64>, Vec<u8>)>, threshold: u8) -> (out: Vec<u64>)
    requires
        forall|k: int|
            0 <= k < buckets@.len() && (#[trigger] buckets@[k]).1@.len() > 0 ==> buckets@[k].0@.len()
                > 0,
    ensures
        out@ == dedup(all_flagged(buckets_view(buckets@), threshold)),
{
    let ghost bv = buckets_view(buckets@);
    let mut raw: Vec<u64> = Vec::new();
    let mut k: usize = 0;
    while k < buckets.len()
        invariant
            bv == buckets_view(buckets@),
            k <= buckets@.len(),
            forall|x: int|
                0 <= x < buckets@.len() && (#[trigger] buckets@[x]).1@.len() > 0 ==> buckets@[x].0@
                    .len() > 0,
            raw@ == all_flagged(bv.take(k as int), threshold),
        decreases buckets@.len() - k,
    {
        proof {
            assert(bv.take(k + 1).drop_last() =~= bv.take(k as int));
            assert(bv.take(k + 1).last() == bv[k as int]);
            assert(bv[k as int] == (buckets@[k as int].0@, buckets@[k as int].1@));
        }
        let mut found = filter_bucket(&buckets[k].0, &buckets[k].1, threshold);
        raw.append(&mut found);
        k = k + 1;
    }
    proof {
        assert(bv.take(k as int) =~= bv);
    }
    dedup_ids(raw)
}

/// Keeps each identifier's first occurrence, in order.
pub fn dedup_ids(raw: Vec<u64>) -> (out: Vec<u64>)
    ensures
        out@ == dedup(raw@),
{
    let mut out: Vec<u64> = Vec::new();
    let mut i: usize = 0;
    while i < raw.len()
        invariant
            i <= raw@.len(),
            out@ == dedup(raw@.take(i as int)),
        decreases raw@.len() - i,
    {
        proof {
            assert(raw@.take(i + 1).drop_last() =~= raw@.take(i as int));
            assert(raw@.take(i + 1).last() == raw@[i as int]);
            lemma_dedup_contains(raw@.take(i as int));
        }
        let seen = contains_id(&out, raw[i]);
        if !seen {
            out.push(raw[i]);
        }
        i = i + 1;
    }
    proof {
        assert(raw@.take(i as int) =~= raw@);
    }
    out
}

/// The threshold law: a blob whose only byte above the threshold sits at
/// flat offset `p` flags exactly the identifier at column `p % N`, and a
/// blob with no byte above the threshold flags nothing.
pub proof fn lemma_single_flag(ids: Seq<u64>, bytes: Seq<u8>, thr: u8, p: int)
    requires
        ids.len() > 0,
        0 <= p < bytes.len(),
        bytes[p] > thr,
        forall|q: int| 0 <= q < bytes.len() && q != p ==> bytes[q] <= thr,
    ensures
        flagged(ids, bytes, thr) == seq![ids[p % ids.len() as int]],
    decreases bytes.len(),
{
    lemma_no_flags(ids, bytes.take(p), thr);
    if p == bytes.len() - 1 {
        assert(flagged(ids, bytes.drop_last(), thr) =~= Seq::<u64>::empty()) by {
            assert(bytes.drop_last() =~= bytes.take(p));
        }
        assert(flagged(ids, bytes, thr) =~= seq![ids[p % ids.len() as int]]);
    } else {
        lemma_single_flag(ids, bytes.drop_last(), thr, p);
        assert(bytes.last() <= thr);
        assert(flagged(ids, bytes, thr) == flagged(ids, bytes.drop_last(), thr));
    }
}

/// A blob with no byte above the threshold flags nothing.
pub proof fn lemma_no_flags(ids: Seq<u64>, bytes: Seq<u8>, thr: u8)
    requires
        forall|q: int| 0 <= q < bytes.len() ==> bytes[q] <= thr,
    ensures
        flagged(ids, bytes, thr) == Seq::<u64>::empty(),
    decreases bytes.len(),
{
    if bytes.len() > 0 {
        lemma_no_flags(ids, bytes.drop_last(), thr);
    }
}

} // verus!
