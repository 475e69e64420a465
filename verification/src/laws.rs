//! Cross-cutting laws of the engine, each proved once and for all inputs.

use vstd::prelude::*;
use crate::align::{
    align_ok, align_spec, enums_of, exact_greedy, exact_matcher, greedy, insert_sorted, last_hit,
    sort_matches, stemmed, syn_greedy, syn_matcher, MatchPair,
};
use crate::align::lemma_insert_sorted_split;
use crate::meteor::{lemma_last_hit_in_range, meteor_spec};
use crate::score::{
    chunk_count, fmean_den, fmean_num, round_centi, score_den, score_num, Tuning,
};
use crate::text::lower_of;
use vstd::arithmetic::power::pow;

verus! {

/// When no reference token is acceptable, no hit is found.
proof fn lemma_last_hit_none(
    r: Seq<(usize, Seq<char>)>,
    t: Seq<char>,
    matcher: spec_fn(Seq<char>, Seq<char>) -> bool,
)
    requires
        forall|j: int| 0 <= j < r.len() ==> !matcher(t, (#[trigger] r[j]).1),
    ensures
        last_hit(r, t, matcher) == -1,
    decreases r.len(),
{
    if r.len() > 0 {
        assert(forall|j: int| 0 <= j < r.len() - 1 ==> r.drop_last()[j] == r[j]);
        lemma_last_hit_none(r.drop_last(), t, matcher);
    }
}

/// A phase whose matcher accepts no pair matches nothing and leaves both
/// sides whole.
proof fn lemma_greedy_no_hits(
    h: Seq<(usize, Seq<char>)>,
    r: Seq<(usize, Seq<char>)>,
    matcher: spec_fn(Seq<char>, Seq<char>) -> bool,
)
    requires
        forall|i: int, j: int|
            0 <= i < h.len() && 0 <= j < r.len() ==> !matcher(
                (#[trigger] h[i]).1,
                (#[trigger] r[j]).1,
            ),
    ensures
        greedy(h, r, matcher) == (Seq::<MatchPair>::empty(), h, r),
    decreases h.len(),
{
    if h.len() > 0 {
        lemma_last_hit_none(r, h.last().1, matcher);
        assert(forall|i: int| 0 <= i < h.len() - 1 ==> h.drop_last()[i] == h[i]);
        lemma_greedy_no_hits(h.drop_last(), r, matcher);
        assert(h.drop_last().push(h.last()) =~= h);
    }
}

/// The zero-match law: when the two token lists share nothing — no equal
/// text, no equal stem, no stem in the other side's stem's synonym list —
/// the cascade matches nothing and the score is exactly zero, whatever the
/// tuning.
pub proof fn lemma_disjoint_score_zero(
    h: Seq<(usize, Seq<char>)>,
    r: Seq<(usize, Seq<char>)>,
    st: Map<Seq<char>, Seq<char>>,
    syn: Map<Seq<char>, Seq<Seq<char>>>,
    t: Tuning,
)
    requires
        forall|i: int, j: int|
            0 <= i < h.len() && 0 <= j < r.len() ==> (#[trigger] h[i]).1 != (#[trigger] r[j]).1,
        forall|i: int, j: int|
            0 <= i < h.len() && 0 <= j < r.len() ==> st[(#[trigger] h[i]).1] != st[(
            #[trigger] r[j]).1],
        forall|i: int, j: int|
            0 <= i < h.len() && 0 <= j < r.len() ==> !syn[st[(#[trigger] h[i]).1]].contains(
                st[(#[trigger] r[j]).1],
            ),
    ensures
        align_spec(h, r, st, syn).0 == Seq::<MatchPair>::empty(),
        align_spec(h, r, st, syn).1 == stemmed(h, st),
        align_spec(h, r, st, syn).2 == stemmed(r, st),
        meteor_spec(h, r, st, syn, t) == 0,
{
    lemma_greedy_no_hits(h, r, exact_matcher());
    let e = exact_greedy(h, r);
    assert(e.1 == h && e.2 == r);
    let sh = stemmed(h, st);
    let sr = stemmed(r, st);
    assert(forall|i: int| 0 <= i < h.len() ==> (#[trigger] sh[i]) == (h[i].0, st[h[i].1]));
    assert(forall|j: int| 0 <= j < r.len() ==> (#[trigger] sr[j]) == (r[j].0, st[r[j].1]));
    lemma_greedy_no_hits(sh, sr, exact_matcher());
    let sm = exact_greedy(sh, sr);
    assert(sm.1 == sh && sm.2 == sr);
    lemma_greedy_no_hits(sh, sr, syn_matcher(syn));
    assert(e.0 + sm.0 + syn_greedy(sh, sr, syn).0 =~= Seq::<MatchPair>::empty());
}

} // verus!

verus! {

/// The matches of a perfect alignment of length `n`, sorted: token `k`
/// with token `k`.
pub open spec fn identity_pairs(n: int) -> Seq<MatchPair> {
    Seq::new(n as nat, |k: int| (k as usize, k as usize))
}

/// The same matches in the order the exact phase finds them: last first.
pub open spec fn reverse_pairs(n: int) -> Seq<MatchPair> {
    Seq::new(n as nat, |k: int| ((n - 1 - k) as usize, (n - 1 - k) as usize))
}

/// Aligning a position-indexed token list with itself matches every token
/// with itself, from the last down, and leaves nothing over.
proof fn lemma_greedy_self(h: Seq<(usize, Seq<char>)>)
    requires
        h.len() <= usize::MAX,
        forall|i: int| 0 <= i < h.len() ==> (#[trigger] h[i]).0 == i,
    ensures
        exact_greedy(h, h).0 == reverse_pairs(h.len() as int),
        exact_greedy(h, h).1 == Seq::<(usize, Seq<char>)>::empty(),
        exact_greedy(h, h).2 == Seq::<(usize, Seq<char>)>::empty(),
    decreases h.len(),
{
    if h.len() == 0 {
        assert(reverse_pairs(0) =~= Seq::<MatchPair>::empty());
    } else {
        let n = h.len() as int;
        let hd = h.last();
        assert(exact_matcher()(hd.1, h.last().1));
        assert(last_hit(h, hd.1, exact_matcher()) == n - 1);
        assert(h.remove(n - 1) =~= h.drop_last());
        assert(forall|i: int| 0 <= i < n - 1 ==> (#[trigger] h.drop_last()[i]).0 == i);
        lemma_greedy_self(h.drop_last());
        assert(exact_greedy(h, h).0 =~= reverse_pairs(n)) by {
            assert(exact_greedy(h, h).0 == seq![(hd.0, hd.0)] + reverse_pairs(n - 1));
        }
    }
}

/// Sorting the exact phase's last-first self-matches yields them first to
/// last.
proof fn lemma_sort_reverse(n: int)
    requires
        0 <= n <= usize::MAX,
    ensures
        sort_matches(reverse_pairs(n)) == identity_pairs(n),
    decreases n,
{
    if n == 0 {
        assert(reverse_pairs(0) =~= Seq::<MatchPair>::empty());
        assert(identity_pairs(0) =~= Seq::<MatchPair>::empty());
    } else {
        assert(reverse_pairs(n).drop_first() =~= reverse_pairs(n - 1));
        lemma_sort_reverse(n - 1);
        let m = ((n - 1) as usize, (n - 1) as usize);
        assert(reverse_pairs(n)[0] == m);
        assert(forall|k: int| 0 <= k < n - 1 ==> (#[trigger] identity_pairs(n - 1)[k]).0 < m.0);
        lemma_insert_sorted_split(m, identity_pairs(n - 1), n - 1);
        assert(identity_pairs(n - 1).take(n - 1) + seq![m] + identity_pairs(n - 1).skip(n - 1)
            =~= identity_pairs(n));
    }
}

/// A perfect alignment is one single chunk.
proof fn lemma_chunk_identity(n: int)
    requires
        1 <= n <= usize::MAX,
    ensures
        chunk_count(identity_pairs(n)) == 1,
    decreases n,
{
    if n == 1 {
    } else {
        assert(identity_pairs(n).drop_last() =~= identity_pairs(n - 1));
        lemma_chunk_identity(n - 1);
    }
}

/// The full-match law: a document aligned with itself, length `n`,
/// matches every token with itself, in one chunk; precision and recall
/// are 1, so the f-mean is 1 (its numerator and denominator coincide);
/// and the score is exactly `1 - gamma * (1/n)^beta`, stated as a
/// cross-multiplied identity of the exact rationals.
pub proof fn lemma_full_match_score(
    ws: Seq<Seq<char>>,
    st: Map<Seq<char>, Seq<char>>,
    syn: Map<Seq<char>, Seq<Seq<char>>>,
    t: Tuning,
)
    requires
        1 <= ws.len() <= usize::MAX,
        t.wf(),
    ensures
        ({
            let h = enums_of(ws);
            let n = ws.len();
            &&& align_spec(h, h, st, syn).0 == identity_pairs(n as int)
            &&& align_spec(h, h, st, syn).1 == Seq::<(usize, Seq<char>)>::empty()
            &&& align_spec(h, h, st, syn).2 == Seq::<(usize, Seq<char>)>::empty()
            &&& chunk_count(identity_pairs(n as int)) == 1
            &&& fmean_num(n, t) == fmean_den(n, n, t)
            &&& meteor_spec(h, h, st, syn, t) == round_centi(
                score_num(n, 1, t),
                score_den(n, n, n, t),
            )
            &&& score_num(n, 1, t) * (t.gamma_den * pow(n as int, t.beta as nat)) == (t.gamma_den
                * pow(n as int, t.beta as nat) - t.gamma_num) * score_den(n, n, n, t)
        }),
{
    let h = enums_of(ws);
    let n = ws.len();
    assert(forall|i: int| 0 <= i < h.len() ==> (#[trigger] h[i]).0 == i);
    lemma_greedy_self(h);
    let e = exact_greedy(h, h);
    let empty_toks = Seq::<(usize, Seq<char>)>::empty();
    assert(stemmed(empty_toks, st) =~= empty_toks);
    let sm = exact_greedy(empty_toks, empty_toks);
    let w = syn_greedy(empty_toks, empty_toks, syn);
    assert(sm.0 =~= Seq::<MatchPair>::empty());
    assert(e.0 + sm.0 + w.0 =~= reverse_pairs(n as int));
    lemma_sort_reverse(n as int);
    lemma_chunk_identity(n as int);
    crate::meteor::lemma_sort_matches_len(reverse_pairs(n as int));
    assert(fmean_num(n, t) == fmean_den(n, n, t)) by (nonlinear_arith)
        requires
            t.alpha_num <= t.alpha_den,
    ;
    let p = pow(n as int, t.beta as nat);
    vstd::arithmetic::power::lemma1_pow(t.beta as nat);
    assert(score_num(n, 1, t) * (t.gamma_den * p) == (t.gamma_den * p - t.gamma_num) * score_den(
        n,
        n,
        n,
        t,
    )) by (nonlinear_arith)
        requires
            score_num(n, 1, t) == (t.gamma_den * p - t.gamma_num * pow(1, t.beta as nat)) * (
            t.alpha_den * n),
            score_den(n, n, n, t) == (t.gamma_den * p) * (t.alpha_num * n + (t.alpha_den
                - t.alpha_num) * n),
            pow(1, t.beta as nat) == 1,
    ;
}

} // verus!

verus! {

/// Leftover tokens of a phase are tokens of its inputs.
proof fn lemma_greedy_leftovers_from(
    h: Seq<(usize, Seq<char>)>,
    r: Seq<(usize, Seq<char>)>,
    matcher: spec_fn(Seq<char>, Seq<char>) -> bool,
)
    ensures
        forall|x: (usize, Seq<char>)|
            #[trigger] greedy(h, r, matcher).1.contains(x) ==> h.contains(x),
        forall|x: (usize, Seq<char>)|
            #[trigger] greedy(h, r, matcher).2.contains(x) ==> r.contains(x),
    decreases h.len(),
{
    if h.len() > 0 {
        let hd = h.last();
        let j = last_hit(r, hd.1, matcher);
        if j >= 0 {
            lemma_last_hit_in_range(r, hd.1, matcher);
            lemma_greedy_leftovers_from(h.drop_last(), r.remove(j), matcher);
            let g = greedy(h, r, matcher);
            let rest = greedy(h.drop_last(), r.remove(j), matcher);
            assert(g.1 == rest.1 && g.2 == rest.2);
            assert forall|x: (usize, Seq<char>)| #[trigger] g.1.contains(x) implies h.contains(
                x,
            ) by {
                assert(rest.1.contains(x));
                assert(h.drop_last().contains(x));
                let k = choose|k: int| 0 <= k < h.len() - 1 && h.drop_last()[k] == x;
                assert(h[k] == x);
            }
            assert forall|x: (usize, Seq<char>)| #[trigger] g.2.contains(x) implies r.contains(
                x,
            ) by {
                assert(rest.2.contains(x));
                assert(r.remove(j).contains(x));
                let k = choose|k: int| 0 <= k < r.len() - 1 && r.remove(j)[k] == x;
                if k < j {
                    assert(r[k] == x);
                } else {
                    assert(r[k + 1] == x);
                }
            }
        } else {
            lemma_greedy_leftovers_from(h.drop_last(), r, matcher);
            let g = greedy(h, r, matcher);
            let rest0 = greedy(h.drop_last(), r, matcher);
            assert(g.2 == rest0.2);
            assert forall|x: (usize, Seq<char>)| #[trigger] g.2.contains(x) implies r.contains(
                x,
            ) by {
                assert(rest0.2.contains(x));
            }
            assert forall|x: (usize, Seq<char>)| #[trigger] g.1.contains(x) implies h.contains(
                x,
            ) by {
                let rest = greedy(h.drop_last(), r, matcher);
                let k = choose|k: int| 0 <= k < g.1.len() && g.1[k] == x;
                if k < g.1.len() - 1 {
                    assert(rest.1[k] == x);
                    assert(rest.1.contains(x));
                    let k2 = choose|k2: int| 0 <= k2 < h.len() - 1 && h.drop_last()[k2] == x;
                    assert(h[k2] == x);
                } else {
                    assert(x == hd);
                    assert(h[h.len() - 1] == x);
                }
            }
        }
    }
}

/// The warm-up adequacy law: once the stem cache holds the lowercase form
/// of every word on both sides, and the synonym cache holds each
/// hypothesis word's cached stem, the cascade cannot miss — which is why a
/// single warm-up pass makes the parallel scoring phase read-only and
/// total. (Conversely, a [`crate::Error::CacheMiss`] from the scoring
/// phase always means an incomplete warm-up.)
pub proof fn lemma_warmed_align_ok(
    hw: Seq<Seq<char>>,
    rw: Seq<Seq<char>>,
    st: Map<Seq<char>, Seq<char>>,
    syn: Map<Seq<char>, Seq<Seq<char>>>,
)
    requires
        forall|i: int| 0 <= i < hw.len() ==> st.contains_key(lower_of(#[trigger] hw[i])),
        forall|i: int| 0 <= i < rw.len() ==> st.contains_key(lower_of(#[trigger] rw[i])),
        forall|i: int| 0 <= i < hw.len() ==> syn.contains_key(st[lower_of(#[trigger] hw[i])]),
    ensures
        align_ok(enums_of(hw), enums_of(rw), st, syn),
{
    let h = enums_of(hw);
    let r = enums_of(rw);
    let e = exact_greedy(h, r);
    lemma_greedy_leftovers_from(h, r, exact_matcher());
    assert forall|i: int| 0 <= i < e.1.len() implies st.contains_key((#[trigger] e.1[i]).1) by {
        assert(e.1.contains(e.1[i]));
        assert(h.contains(e.1[i]));
        let k = choose|k: int| 0 <= k < h.len() && h[k] == e.1[i];
        assert(e.1[i].1 == lower_of(hw[k]));
    }
    assert forall|i: int| 0 <= i < e.2.len() implies st.contains_key((#[trigger] e.2[i]).1) by {
        assert(e.2.contains(e.2[i]));
        assert(r.contains(e.2[i]));
        let k = choose|k: int| 0 <= k < r.len() && r[k] == e.2[i];
        assert(e.2[i].1 == lower_of(rw[k]));
    }
    let sh = stemmed(e.1, st);
    let sr = stemmed(e.2, st);
    let sm = exact_greedy(sh, sr);
    lemma_greedy_leftovers_from(sh, sr, exact_matcher());
    assert forall|i: int| 0 <= i < sm.1.len() implies syn.contains_key((#[trigger] sm.1[i]).1) by {
        assert(sm.1.contains(sm.1[i]));
        assert(sh.contains(sm.1[i]));
        let k = choose|k: int| 0 <= k < sh.len() && sh[k] == sm.1[i];
        assert(sh[k] == (e.1[k].0, st[e.1[k].1]));
        assert(e.1.contains(e.1[k]));
        assert(h.contains(e.1[k]));
        let k2 = choose|k2: int| 0 <= k2 < h.len() && h[k2] == e.1[k];
        assert(e.1[k].1 == lower_of(hw[k2]));
        assert(sm.1[i].1 == st[lower_of(hw[k2])]);
    }
}

} // verus!

verus! {

/// Sorted ascending by hypothesis position.
pub open spec fn sorted_by_hyp(s: Seq<MatchPair>) -> bool {
    forall|a: int, b: int| 0 <= a < b < s.len() ==> (#[trigger] s[a]).0 <= (#[trigger] s[b]).0
}

/// Insertion keeps a sorted match list sorted, and begins with the
/// smaller of the new match and the old head.
proof fn lemma_insert_sorted_order(m: MatchPair, s: Seq<MatchPair>)
    requires
        sorted_by_hyp(s),
    ensures
        sorted_by_hyp(insert_sorted(m, s)),
        insert_sorted(m, s).len() == s.len() + 1,
        insert_sorted(m, s)[0].0 == if s.len() == 0 || m.0 <= s[0].0 {
            m.0 as int
        } else {
            s[0].0 as int
        },
    decreases s.len(),
{
    if s.len() == 0 {
        assert(insert_sorted(m, s) =~= seq![m]);
    } else if m.0 <= s[0].0 {
        let out = seq![m] + s;
        assert forall|a: int, b: int| 0 <= a < b < out.len() implies (#[trigger] out[a]).0 <= (
        #[trigger] out[b]).0 by {
            if a == 0 {
                assert(out[b] == s[b - 1]);
                if b > 1 {
                    assert(s[0].0 <= s[b - 1].0);
                }
            } else {
                assert(out[a] == s[a - 1] && out[b] == s[b - 1]);
            }
        }
    } else {
        let tail = s.drop_first();
        assert(forall|k: int| 0 <= k < tail.len() ==> (#[trigger] tail[k]) == s[k + 1]);
        lemma_insert_sorted_order(m, tail);
        let rest = insert_sorted(m, tail);
        let out = seq![s[0]] + rest;
        assert(insert_sorted(m, s) == out);
        assert(s[0].0 <= rest[0].0);
        assert forall|a: int, b: int| 0 <= a < b < out.len() implies (#[trigger] out[a]).0 <= (
        #[trigger] out[b]).0 by {
            if a == 0 {
                assert(out[b] == rest[b - 1]);
                if b > 1 {
                    assert(rest[0].0 <= rest[b - 1].0);
                }
            } else {
                assert(out[a] == rest[a - 1] && out[b] == rest[b - 1]);
            }
        }
    }
}

/// The sorted merge really is sorted.
proof fn lemma_sort_matches_sorted(s: Seq<MatchPair>)
    ensures
        sorted_by_hyp(sort_matches(s)),
    decreases s.len(),
{
    if s.len() > 0 {
        lemma_sort_matches_sorted(s.drop_first());
        lemma_insert_sorted_order(s[0], sort_matches(s.drop_first()));
    }
}

/// The ordering invariant of an alignment result: whatever the inputs and
/// caches, the cascade's merged match list is sorted ascending by
/// hypothesis position.
pub proof fn lemma_align_matches_sorted(
    h: Seq<(usize, Seq<char>)>,
    r: Seq<(usize, Seq<char>)>,
    st: Map<Seq<char>, Seq<char>>,
    syn: Map<Seq<char>, Seq<Seq<char>>>,
)
    ensures
        sorted_by_hyp(align_spec(h, r, st, syn).0),
{
    let e = exact_greedy(h, r);
    let sm = exact_greedy(stemmed(e.1, st), stemmed(e.2, st));
    let w = syn_greedy(sm.1, sm.2, syn);
    lemma_sort_matches_sorted(e.0 + sm.0 + w.0);
}

} // verus!

verus! {

/// The pipeline law: after [`crate::meteor::warm_documents`] over a
/// dataset — whose postcondition is exactly this lemma's premise — the
/// cascade can run for every pair of its documents, so the parallel
/// scoring phase never sees a [`crate::Error::CacheMiss`] and
/// [`crate::matrix::build_matrix`] succeeds on every bucket drawn from the
/// dataset.
pub proof fn lemma_warmed_documents_align_ok<P: crate::provider::StemProvider>(
    docs: Seq<crate::document::Document>,
    stemmer: &crate::cache::Stemmer<P>,
    syn: Map<Seq<char>, Seq<Seq<char>>>,
    d1: int,
    d2: int,
)
    requires
        stemmer.wf(),
        forall|d: int, k: int|
            #![trigger crate::text::tokens_of(docs[d].content@)[k]]
            0 <= d < docs.len() && 0 <= k < crate::text::tokens_of(docs[d].content@).len()
                ==> stemmer@.contains_key(
                lower_of(crate::text::tokens_of(docs[d].content@)[k]),
            ) && syn.contains_key(
                stemmer.provider.stem_map(
                    lower_of(crate::text::tokens_of(docs[d].content@)[k]),
                ),
            ),
        0 <= d1 < docs.len(),
        0 <= d2 < docs.len(),
    ensures
        align_ok(
            enums_of(crate::text::tokens_of(docs[d1].content@)),
            enums_of(crate::text::tokens_of(docs[d2].content@)),
            stemmer@,
            syn,
        ),
{
    crate::cache::lemma_stemmer_coherent(stemmer);
    let hw = crate::text::tokens_of(docs[d1].content@);
    let rw = crate::text::tokens_of(docs[d2].content@);
    assert forall|i: int| 0 <= i < hw.len() implies syn.contains_key(
        stemmer@[lower_of(#[trigger] hw[i])],
    ) by {
        assert(stemmer@.contains_key(lower_of(hw[i])));
        assert(stemmer@[lower_of(hw[i])] == stemmer.provider.stem_map(lower_of(hw[i])));
    }
    lemma_warmed_align_ok(hw, rw, stemmer@, syn);
}

} // verus!

verus! {

/// No two matches share a hypothesis position.
pub open spec fn distinct_firsts(s: Seq<MatchPair>) -> bool {
    forall|a: int, b: int| 0 <= a < b < s.len() ==> (#[trigger] s[a]).0 != (#[trigger] s[b]).0
}

/// No two matches share a reference position.
pub open spec fn distinct_seconds(s: Seq<MatchPair>) -> bool {
    forall|a: int, b: int| 0 <= a < b < s.len() ==> (#[trigger] s[a]).1 != (#[trigger] s[b]).1
}

/// Some token of `l` sits at position `p`.
pub open spec fn has_pos(l: Seq<(usize, Seq<char>)>, p: usize) -> bool {
    exists|i: int| 0 <= i < l.len() && (#[trigger] l[i]).0 == p
}

/// No two tokens of `l` share a position.
pub open spec fn distinct_pos(l: Seq<(usize, Seq<char>)>) -> bool {
    forall|a: int, b: int| 0 <= a < b < l.len() ==> (#[trigger] l[a]).0 != (#[trigger] l[b]).0
}

/// Position bookkeeping of one greedy phase over position-distinct
/// inputs: matches take one hypothesis and one reference position each,
/// all distinct, and never one that a leftover still holds.
proof fn lemma_greedy_positions(
    h: Seq<(usize, Seq<char>)>,
    r: Seq<(usize, Seq<char>)>,
    matcher: spec_fn(Seq<char>, Seq<char>) -> bool,
)
    requires
        distinct_pos(h),
        distinct_pos(r),
    ensures
        ({
            let g = greedy(h, r, matcher);
            &&& forall|k: int|
                0 <= k < g.0.len() ==> has_pos(h, (#[trigger] g.0[k]).0) && has_pos(r, g.0[k].1)
            &&& distinct_firsts(g.0)
            &&& distinct_seconds(g.0)
            &&& distinct_pos(g.1)
            &&& distinct_pos(g.2)
            &&& forall|k: int| 0 <= k < g.1.len() ==> has_pos(h, (#[trigger] g.1[k]).0)
            &&& forall|k: int| 0 <= k < g.2.len() ==> has_pos(r, (#[trigger] g.2[k]).0)
            &&& forall|k: int, l: int|
                0 <= k < g.0.len() && 0 <= l < g.1.len() ==> (#[trigger] g.0[k]).0 != (
                #[trigger] g.1[l]).0
            &&& forall|k: int, l: int|
                0 <= k < g.0.len() && 0 <= l < g.2.len() ==> (#[trigger] g.0[k]).1 != (
                #[trigger] g.2[l]).0
        }),
    decreases h.len(),
{
    let g = greedy(h, r, matcher);
    if h.len() == 0 {
    } else {
        let hd = h.last();
        let hp = h.drop_last();
        assert(forall|i: int| 0 <= i < hp.len() ==> hp[i] == h[i]);
        assert(distinct_pos(hp));
        // the last position is fresh among the prefix
        assert(forall|i: int| 0 <= i < hp.len() ==> (#[trigger] hp[i]).0 != hd.0);
        let j = last_hit(r, hd.1, matcher);
        if j >= 0 {
            lemma_last_hit_in_range(r, hd.1, matcher);
            let rr = r.remove(j);
            assert(forall|i: int|
                0 <= i < rr.len() ==> #[trigger] rr[i] == (if i < j {
                    r[i]
                } else {
                    r[i + 1]
                }));
            assert(distinct_pos(rr));
            assert(forall|i: int| 0 <= i < rr.len() ==> (#[trigger] rr[i]).0 != r[j].0);
            lemma_greedy_positions(hp, rr, matcher);
            let rest = greedy(hp, rr, matcher);
            let p0 = (hd.0, r[j].0);
            assert(g.0 == seq![p0] + rest.0 && g.1 == rest.1 && g.2 == rest.2);
            assert(forall|k: int| 0 <= k < rest.0.len() ==> g.0[k + 1] == (#[trigger] rest.0[k]));
            assert(g.0[0] == p0);
            // positions lift from the prefix and the shrunk reference
            assert forall|p: usize| has_pos(hp, p) implies has_pos(h, p) by {
                let i = choose|i: int| 0 <= i < hp.len() && hp[i].0 == p;
                assert(h[i].0 == p);
            }
            assert forall|p: usize| has_pos(rr, p) implies has_pos(r, p) by {
                let i = choose|i: int| 0 <= i < rr.len() && rr[i].0 == p;
                if i < j {
                    assert(r[i].0 == p);
                } else {
                    assert(r[i + 1].0 == p);
                }
            }
            // a position of the shrunk lists is not the consumed one
            assert forall|p: usize| has_pos(hp, p) implies p != hd.0 by {
                let i = choose|i: int| 0 <= i < hp.len() && hp[i].0 == p;
            }
            assert forall|p: usize| has_pos(rr, p) implies p != r[j].0 by {
                let i = choose|i: int| 0 <= i < rr.len() && rr[i].0 == p;
            }
            assert(has_pos(h, hd.0)) by {
                assert(h[h.len() - 1].0 == hd.0);
            }
            assert(has_pos(r, r[j].0));
        } else {
            lemma_greedy_positions(hp, r, matcher);
            let rest = greedy(hp, r, matcher);
            assert(g.0 == rest.0 && g.1 == rest.1.push(hd) && g.2 == rest.2);
            assert(forall|k: int| 0 <= k < rest.1.len() ==> g.1[k] == (#[trigger] rest.1[k]));
            assert(g.1[g.1.len() - 1] == hd);
            assert forall|p: usize| has_pos(hp, p) implies has_pos(h, p) && p != hd.0 by {
                let i = choose|i: int| 0 <= i < hp.len() && hp[i].0 == p;
                assert(h[i].0 == p);
            }
            assert(has_pos(h, hd.0)) by {
                assert(h[h.len() - 1].0 == hd.0);
            }
            assert(distinct_pos(g.1)) by {
                assert forall|a: int, b: int|
                    0 <= a < b < g.1.len() implies (#[trigger] g.1[a]).0 != (
                #[trigger] g.1[b]).0 by {
                    if b == g.1.len() - 1 {
                        assert(has_pos(hp, rest.1[a].0));
                    }
                }
            }
        }
    }
}

} // verus!

verus! {

/// Insertion adds exactly the new match to the list's elements.
proof fn lemma_insert_sorted_elems(m: MatchPair, s: Seq<MatchPair>)
    ensures
        forall|x: MatchPair|
            #![trigger insert_sorted(m, s).contains(x)]
            insert_sorted(m, s).contains(x) <==> x == m || s.contains(x),
    decreases s.len(),
{
    if s.len() == 0 {
        assert(insert_sorted(m, s)[0] == m);
    } else if m.0 <= s[0].0 {
        let out = seq![m] + s;
        assert forall|x: MatchPair| out.contains(x) implies x == m || s.contains(x) by {
            let k = choose|k: int| 0 <= k < out.len() && out[k] == x;
            if k > 0 {
                assert(s[k - 1] == x);
            }
        }
        assert forall|x: MatchPair| x == m || s.contains(x) implies out.contains(x) by {
            if x == m {
                assert(out[0] == x);
            } else {
                let k = choose|k: int| 0 <= k < s.len() && s[k] == x;
                assert(out[k + 1] == x);
            }
        }
    } else {
        let tail = s.drop_first();
        assert(forall|k: int| 0 <= k < tail.len() ==> (#[trigger] tail[k]) == s[k + 1]);
        lemma_insert_sorted_elems(m, tail);
        let rest = insert_sorted(m, tail);
        let out = seq![s[0]] + rest;
        assert(insert_sorted(m, s) == out);
        assert forall|x: MatchPair| out.contains(x) implies x == m || s.contains(x) by {
            let k = choose|k: int| 0 <= k < out.len() && out[k] == x;
            if k == 0 {
                assert(s[0] == x);
            } else {
                assert(rest[k - 1] == x);
                assert(rest.contains(x));
                if x != m {
                    assert(tail.contains(x));
                    let k2 = choose|k2: int| 0 <= k2 < tail.len() && tail[k2] == x;
                    assert(s[k2 + 1] == x);
                }
            }
        }
        assert forall|x: MatchPair| x == m || s.contains(x) implies out.contains(x) by {
            if x == m {
                assert(rest.contains(x));
                let k = choose|k: int| 0 <= k < rest.len() && rest[k] == x;
                assert(out[k + 1] == x);
            } else {
                let k = choose|k: int| 0 <= k < s.len() && s[k] == x;
                if k == 0 {
                    assert(out[0] == x);
                } else {
                    assert(tail[k - 1] == x);
                    assert(rest.contains(x));
                    let k2 = choose|k2: int| 0 <= k2 < rest.len() && rest[k2] == x;
                    assert(out[k2 + 1] == x);
                }
            }
        }
    }
}

/// Insertion of a match with fresh positions keeps both distinctness
/// properties.
proof fn lemma_insert_sorted_distinct(m: MatchPair, s: Seq<MatchPair>)
    requires
        distinct_firsts(s),
        distinct_seconds(s),
        forall|k: int| 0 <= k < s.len() ==> (#[trigger] s[k]).0 != m.0 && s[k].1 != m.1,
    ensures
        distinct_firsts(insert_sorted(m, s)),
        distinct_seconds(insert_sorted(m, s)),
    decreases s.len(),
{
    if s.len() == 0 {
    } else if m.0 <= s[0].0 {
        let out = seq![m] + s;
        assert forall|a: int, b: int| 0 <= a < b < out.len() implies (#[trigger] out[a]).0 != (
        #[trigger] out[b]).0 && out[a].1 != out[b].1 by {
            if a == 0 {
                assert(out[b] == s[b - 1]);
            } else {
                assert(out[a] == s[a - 1] && out[b] == s[b - 1]);
            }
        }
    } else {
        let tail = s.drop_first();
        assert(forall|k: int| 0 <= k < tail.len() ==> (#[trigger] tail[k]) == s[k + 1]);
        lemma_insert_sorted_distinct(m, tail);
        lemma_insert_sorted_elems(m, tail);
        let rest = insert_sorted(m, tail);
        let out = seq![s[0]] + rest;
        assert(insert_sorted(m, s) == out);
        assert forall|a: int, b: int| 0 <= a < b < out.len() implies (#[trigger] out[a]).0 != (
        #[trigger] out[b]).0 && out[a].1 != out[b].1 by {
            if a == 0 {
                assert(out[b] == rest[b - 1]);
                let x = rest[b - 1];
                assert(rest.contains(x));
                if x != m {
                    assert(tail.contains(x));
                    let k2 = choose|k2: int| 0 <= k2 < tail.len() && tail[k2] == x;
                    assert(s[k2 + 1] == x);
                    assert(x.0 != s[0].0 && x.1 != s[0].1);
                }
            } else {
                assert(out[a] == rest[a - 1] && out[b] == rest[b - 1]);
            }
        }
    }
}

/// Sorting a position-distinct match list keeps distinctness and the
/// elements.
proof fn lemma_sort_matches_distinct(s: Seq<MatchPair>)
    requires
        distinct_firsts(s),
        distinct_seconds(s),
    ensures
        distinct_firsts(sort_matches(s)),
        distinct_seconds(sort_matches(s)),
        forall|x: MatchPair|
            #![trigger sort_matches(s).contains(x)]
            sort_matches(s).contains(x) <==> s.contains(x),
    decreases s.len(),
{
    if s.len() > 0 {
        let tail = s.drop_first();
        assert(forall|k: int| 0 <= k < tail.len() ==> (#[trigger] tail[k]) == s[k + 1]);
        lemma_sort_matches_distinct(tail);
        let sorted_tail = sort_matches(tail);
        assert forall|k: int|
            0 <= k < sorted_tail.len() implies (#[trigger] sorted_tail[k]).0 != s[0].0
            && sorted_tail[k].1 != s[0].1 by {
            assert(sorted_tail.contains(sorted_tail[k]));
            assert(tail.contains(sorted_tail[k]));
            let k2 = choose|k2: int| 0 <= k2 < tail.len() && tail[k2] == sorted_tail[k];
            assert(s[k2 + 1] == sorted_tail[k]);
        }
        lemma_insert_sorted_distinct(s[0], sorted_tail);
        lemma_insert_sorted_elems(s[0], sorted_tail);
        assert forall|x: MatchPair| sort_matches(s).contains(x) implies s.contains(x) by {
            if x == s[0] {
                assert(s.contains(x));
            } else {
                assert(tail.contains(x));
                let k = choose|k: int| 0 <= k < tail.len() && tail[k] == x;
                assert(s[k + 1] == x);
            }
        }
        assert forall|x: MatchPair| s.contains(x) implies sort_matches(s).contains(x) by {
            assert(sort_matches(s) == insert_sorted(s[0], sorted_tail));
            let k = choose|k: int| 0 <= k < s.len() && s[k] == x;
            if k > 0 {
                assert(tail[k - 1] == x);
                assert(tail.contains(x));
                assert(sorted_tail.contains(x));
                assert(insert_sorted(s[0], sorted_tail).contains(x));
            } else {
                assert(x == s[0]);
                assert(insert_sorted(s[0], sorted_tail).contains(x));
            }
        }
    }
}

} // verus!

verus! {

/// Stemming keeps positions: both lists cover the same position set.
proof fn lemma_stemmed_positions(l: Seq<(usize, Seq<char>)>, st: Map<Seq<char>, Seq<char>>)
    ensures
        stemmed(l, st).len() == l.len(),
        forall|i: int| 0 <= i < l.len() ==> (#[trigger] stemmed(l, st)[i]).0 == l[i].0,
        distinct_pos(l) ==> distinct_pos(stemmed(l, st)),
        forall|p: usize| has_pos(stemmed(l, st), p) <==> #[trigger] has_pos(l, p),
{
    assert forall|p: usize| has_pos(stemmed(l, st), p) implies has_pos(l, p) by {
        let i = choose|i: int| 0 <= i < stemmed(l, st).len() && stemmed(l, st)[i].0 == p;
        assert(l[i].0 == p);
    }
    assert forall|p: usize| has_pos(l, p) implies has_pos(stemmed(l, st), p) by {
        let i = choose|i: int| 0 <= i < l.len() && l[i].0 == p;
        assert(stemmed(l, st)[i].0 == p);
    }
}

/// The structural invariant of an alignment result over position-distinct
/// inputs — which the enumerated token lists of any two documents are:
/// the cascade's merged, sorted matches are strictly increasing in
/// hypothesis position, and no two share a reference position.
pub proof fn lemma_align_matches_strict(
    h: Seq<(usize, Seq<char>)>,
    r: Seq<(usize, Seq<char>)>,
    st: Map<Seq<char>, Seq<char>>,
    syn: Map<Seq<char>, Seq<Seq<char>>>,
)
    requires
        distinct_pos(h),
        distinct_pos(r),
    ensures
        ({
            let ms = align_spec(h, r, st, syn).0;
            &&& forall|a: int, b: int|
                0 <= a < b < ms.len() ==> (#[trigger] ms[a]).0 < (#[trigger] ms[b]).0
            &&& distinct_seconds(ms)
        }),
{
    let e = exact_greedy(h, r);
    lemma_greedy_positions(h, r, exact_matcher());
    let sh = stemmed(e.1, st);
    let sr = stemmed(e.2, st);
    lemma_stemmed_positions(e.1, st);
    lemma_stemmed_positions(e.2, st);
    lemma_greedy_positions(sh, sr, exact_matcher());
    let sm = exact_greedy(sh, sr);
    lemma_greedy_positions(sm.1, sm.2, syn_matcher(syn));
    let w = syn_greedy(sm.1, sm.2, syn);

    // every later-phase hypothesis position is a position of the exact
    // phase's hypothesis leftovers, and so differs from every exact match
    assert forall|k: int| 0 <= k < sm.0.len() implies has_pos(e.1, (#[trigger] sm.0[k]).0) by {
        assert(has_pos(sh, sm.0[k].0));
    }
    assert forall|k: int| 0 <= k < w.0.len() implies has_pos(e.1, (#[trigger] w.0[k]).0) by {
        assert(has_pos(sm.1, w.0[k].0));
        let i = choose|i: int| 0 <= i < sm.1.len() && sm.1[i].0 == w.0[k].0;
        assert(has_pos(sh, sm.1[i].0));
    }
    assert forall|k: int| 0 <= k < sm.0.len() implies has_pos(e.2, (#[trigger] sm.0[k]).1) by {
        assert(has_pos(sr, sm.0[k].1));
    }
    assert forall|k: int| 0 <= k < w.0.len() implies has_pos(e.2, (#[trigger] w.0[k]).1) by {
        assert(has_pos(sm.2, w.0[k].1));
        let i = choose|i: int| 0 <= i < sm.2.len() && sm.2[i].0 == w.0[k].1;
        assert(has_pos(sr, sm.2[i].0));
    }
    // an exact match never shares a position with a leftover
    assert forall|k: int, p: usize|
        #![trigger e.0[k], has_pos(e.1, p)]
        0 <= k < e.0.len() && has_pos(e.1, p) implies e.0[k].0 != p by {
        let l = choose|l: int| 0 <= l < e.1.len() && (#[trigger] e.1[l]).0 == p;
    }
    assert forall|k: int, p: usize|
        #![trigger e.0[k], has_pos(e.2, p)]
        0 <= k < e.0.len() && has_pos(e.2, p) implies e.0[k].1 != p by {
        let l = choose|l: int| 0 <= l < e.2.len() && (#[trigger] e.2[l]).0 == p;
    }
    // a stem match never shares a position with a stem-phase leftover
    assert forall|k: int, p: usize|
        #![trigger sm.0[k], has_pos(sm.1, p)]
        0 <= k < sm.0.len() && has_pos(sm.1, p) implies sm.0[k].0 != p by {
        let l = choose|l: int| 0 <= l < sm.1.len() && (#[trigger] sm.1[l]).0 == p;
    }
    assert forall|k: int, p: usize|
        #![trigger sm.0[k], has_pos(sm.2, p)]
        0 <= k < sm.0.len() && has_pos(sm.2, p) implies sm.0[k].1 != p by {
        let l = choose|l: int| 0 <= l < sm.2.len() && (#[trigger] sm.2[l]).0 == p;
    }

    let all = e.0 + sm.0 + w.0;
    let n1 = e.0.len() as int;
    let n2 = sm.0.len() as int;
    assert(forall|k: int| 0 <= k < n1 ==> (#[trigger] all[k]) == e.0[k]);
    assert(forall|k: int| n1 <= k < n1 + n2 ==> (#[trigger] all[k]) == sm.0[k - n1]);
    assert(forall|k: int|
        n1 + n2 <= k < all.len() ==> (#[trigger] all[k]) == w.0[k - n1 - n2]);

    assert forall|a: int, b: int| 0 <= a < b < all.len() implies (#[trigger] all[a]).0 != (
    #[trigger] all[b]).0 && all[a].1 != all[b].1 by {
        if b < n1 {
            // both exact
        } else if a < n1 && b < n1 + n2 {
            assert(has_pos(e.1, sm.0[b - n1].0) && has_pos(e.2, sm.0[b - n1].1));
        } else if a < n1 {
            assert(has_pos(e.1, w.0[b - n1 - n2].0) && has_pos(e.2, w.0[b - n1 - n2].1));
        } else if a < n1 + n2 && b < n1 + n2 {
            // both stem
        } else if a < n1 + n2 {
            assert(has_pos(sm.1, w.0[b - n1 - n2].0) && has_pos(sm.2, w.0[b - n1 - n2].1));
        } else {
            // both synonym
        }
    }
    lemma_sort_matches_distinct(all);
    lemma_sort_matches_sorted(all);
    let ms = align_spec(h, r, st, syn).0;
    assert(ms == sort_matches(all));
    assert forall|a: int, b: int| 0 <= a < b < ms.len() implies (#[trigger] ms[a]).0 < (
    #[trigger] ms[b]).0 by {
        assert(ms[a].0 <= ms[b].0);
        assert(ms[a].0 != ms[b].0);
    }
}

} // verus!

verus! {

/// Every bucket entry is some document of the dataset, tokenized.
proof fn lemma_bucket_members_from_docs(docs: Seq<crate::document::Document>, b: int)
    ensures
        forall|k: int|
            0 <= k < crate::bucket::bucket_members(docs, b).len() ==> exists|d: int|
                0 <= d < docs.len() && #[trigger] crate::bucket::bucket_members(docs, b)[k] == (
                docs[d].id as u64,
                crate::text::tokens_of(docs[d].content@),
                ),
    decreases docs.len(),
{
    if docs.len() > 0 {
        lemma_bucket_members_from_docs(docs.drop_last(), b);
        let members = crate::bucket::bucket_members(docs, b);
        let init = crate::bucket::bucket_members(docs.drop_last(), b);
        assert forall|k: int| 0 <= k < members.len() implies exists|d: int|
            0 <= d < docs.len() && #[trigger] members[k] == (
            docs[d].id as u64,
            crate::text::tokens_of(docs[d].content@),
            ) by {
            if k < init.len() {
                assert(members[k] == init[k]);
                let d = choose|d: int|
                    0 <= d < docs.len() - 1 && init[k] == (
                    docs.drop_last()[d].id as u64,
                    crate::text::tokens_of(docs.drop_last()[d].content@),
                    );
                assert(docs.drop_last()[d] == docs[d]);
                assert(members[k] == (docs[d].id as u64, crate::text::tokens_of(docs[d].content@)));
            } else {
                let d = docs.len() - 1;
                assert(docs.last() == docs[d]);
                assert(members[k] == (docs[d].id as u64, crate::text::tokens_of(docs[d].content@)));
            }
        }
    }
}

/// The end-to-end pipeline law: after the warm-up pass over a dataset,
/// every pair inside every bucket that [`crate::bucket::bucketize`]
/// produces from that dataset can run the cascade — so the matrix stage
/// never fails with a cache miss.
pub proof fn lemma_warmed_bucket_align_ok<P: crate::provider::StemProvider>(
    docs: Seq<crate::document::Document>,
    stemmer: &crate::cache::Stemmer<P>,
    syn: Map<Seq<char>, Seq<Seq<char>>>,
    b: int,
    i: int,
    j: int,
)
    requires
        stemmer.wf(),
        forall|d: int, k: int|
            #![trigger crate::text::tokens_of(docs[d].content@)[k]]
            0 <= d < docs.len() && 0 <= k < crate::text::tokens_of(docs[d].content@).len()
                ==> stemmer@.contains_key(
                lower_of(crate::text::tokens_of(docs[d].content@)[k]),
            ) && syn.contains_key(
                stemmer.provider.stem_map(
                    lower_of(crate::text::tokens_of(docs[d].content@)[k]),
                ),
            ),
        0 <= i < crate::bucket::bucket_members(docs, b).len(),
        0 <= j < crate::bucket::bucket_members(docs, b).len(),
    ensures
        align_ok(
            enums_of(crate::bucket::bucket_members(docs, b)[i].1),
            enums_of(crate::bucket::bucket_members(docs, b)[j].1),
            stemmer@,
            syn,
        ),
{
    lemma_bucket_members_from_docs(docs, b);
    let members = crate::bucket::bucket_members(docs, b);
    let d1 = choose|d: int|
        0 <= d < docs.len() && members[i] == (
        docs[d].id as u64,
        crate::text::tokens_of(docs[d].content@),
        );
    let d2 = choose|d: int|
        0 <= d < docs.len() && members[j] == (
        docs[d].id as u64,
        crate::text::tokens_of(docs[d].content@),
        );
    lemma_warmed_documents_align_ok(docs, stemmer, syn, d1, d2);
}

} // verus!
