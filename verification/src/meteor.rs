//! The whole metric: enumerate, align, score; and the cache warm-up pass.
//!
//! The matrix builder's convention is that the row document is the
//! hypothesis and the column document the reference; `meteor_score` takes
//! the reference first, and every call site follows the row convention.
//! Because the weighting of precision against recall is asymmetric,
//! swapping the two changes the score.

use vstd::prelude::*;
use vstd::arithmetic::power::pow;
use crate::Error;
use crate::align::{
    align_ok, align_spec, enum_align_words, enums_of, exact_greedy, generate_enums, greedy,
    insert_sorted, sort_matches, stemmed, syn_greedy, toks_view, words_view, MatchPair, Token,
};
use crate::cache::{Stemmer, Synsets};
use crate::provider::{StemProvider, SynonymProvider};
use crate::score::{score_percent, score_percent_spec, Tuning, POW_LIMIT};

verus! {

/// Matches and leftovers of one greedy phase partition each side: matches
/// plus hypothesis leftovers count the hypothesis tokens, matches plus
/// reference leftovers the reference tokens.
pub proof fn lemma_greedy_counts(
    h: Seq<(usize, Seq<char>)>,
    r: Seq<(usize, Seq<char>)>,
    matcher: spec_fn(Seq<char>, Seq<char>) -> bool,
)
    ensures
        greedy(h, r, matcher).0.len() + greedy(h, r, matcher).1.len() == h.len(),
        greedy(h, r, matcher).0.len() + greedy(h, r, matcher).2.len() == r.len(),
    decreases h.len(),
{
    if h.len() > 0 {
        let hd = h.last();
        let j = crate::align::last_hit(r, hd.1, matcher);
        if j >= 0 {
            lemma_last_hit_in_range(r, hd.1, matcher);
            lemma_greedy_counts(h.drop_last(), r.remove(j), matcher);
        } else {
            lemma_greedy_counts(h.drop_last(), r, matcher);
        }
    }
}

/// A found hit index is a valid index.
pub proof fn lemma_last_hit_in_range(
    r: Seq<(usize, Seq<char>)>,
    t: Seq<char>,
    matcher: spec_fn(Seq<char>, Seq<char>) -> bool,
)
    ensures
        crate::align::last_hit(r, t, matcher) >= 0 ==> crate::align::last_hit(r, t, matcher)
            < r.len(),
    decreases r.len(),
{
    if r.len() > 0 {
        lemma_last_hit_in_range(r.drop_last(), t, matcher);
    }
}

/// Insertion grows a match list by one.
proof fn lemma_insert_sorted_len(m: MatchPair, s: Seq<MatchPair>)
    ensures
        insert_sorted(m, s).len() == s.len() + 1,
    decreases s.len(),
{
    if s.len() > 0 && !(m.0 <= s[0].0) {
        lemma_insert_sorted_len(m, s.drop_first());
    }
}

/// Sorting keeps the length.
pub proof fn lemma_sort_matches_len(s: Seq<MatchPair>)
    ensures
        sort_matches(s).len() == s.len(),
    decreases s.len(),
{
    if s.len() > 0 {
        lemma_sort_matches_len(s.drop_first());
        lemma_insert_sorted_len(s[0], sort_matches(s.drop_first()));
    }
}

/// The whole cascade never matches more tokens than either side has: its
/// match count plus each side's leftover count equals that side's length.
pub proof fn lemma_align_spec_counts(
    h: Seq<(usize, Seq<char>)>,
    r: Seq<(usize, Seq<char>)>,
    st: Map<Seq<char>, Seq<char>>,
    syn: Map<Seq<char>, Seq<Seq<char>>>,
)
    ensures
        align_spec(h, r, st, syn).0.len() + align_spec(h, r, st, syn).1.len() == h.len(),
        align_spec(h, r, st, syn).0.len() + align_spec(h, r, st, syn).2.len() == r.len(),
{
    let e = exact_greedy(h, r);
    let sm = exact_greedy(stemmed(e.1, st), stemmed(e.2, st));
    let w = syn_greedy(sm.1, sm.2, syn);
    lemma_greedy_counts(h, r, crate::align::exact_matcher());
    lemma_greedy_counts(stemmed(e.1, st), stemmed(e.2, st), crate::align::exact_matcher());
    lemma_greedy_counts(sm.1, sm.2, crate::align::syn_matcher(syn));
    lemma_sort_matches_len(e.0 + sm.0 + w.0);
}

/// The scaled score of two documents against the given caches: the
/// cascade's matches of [`align_spec`], scored by [`score_percent_spec`].
pub open spec fn meteor_spec(
    h: Seq<(usize, Seq<char>)>,
    r: Seq<(usize, Seq<char>)>,
    st: Map<Seq<char>, Seq<char>>,
    syn: Map<Seq<char>, Seq<Seq<char>>>,
    t: Tuning,
) -> int {
    score_percent_spec(h.len(), r.len(), align_spec(h, r, st, syn).0, t)
}

/// The similarity of `hypothesis` against `reference`, scaled to a byte:
/// `round(100 * score)`, or 0 exactly when the cascade matches nothing.
/// Fails with [`Error::CacheMiss`] exactly when a needed stem or synonym
/// list was never warmed. The length bounds keep the exact score
/// arithmetic inside 128 bits.
pub fn meteor_score<P: StemProvider, Q: SynonymProvider>(
    reference: &Vec<String>,
    hypothesis: &Vec<String>,
    t: &Tuning,
    synsets: &Synsets<Q>,
    stemmer: &Stemmer<P>,
) -> (r: Result<u8, Error>)
    requires
        stemmer.wf(),
        synsets.wf(),
        t.wf(),
        hypothesis@.len() < 0x1_0000_0000,
        reference@.len() < 0x1_0000_0000,
        ({
            let shorter = if hypothesis@.len() <= reference@.len() {
                hypothesis@.len()
            } else {
                reference@.len()
            };
            pow(shorter as int, t.beta as nat) <= POW_LIMIT
        }),
    ensures
        ({
            let hv = enums_of(words_view(hypothesis@));
            let rv = enums_of(words_view(reference@));
            match r {
                Ok(s) => {
                    &&& align_ok(hv, rv, stemmer@, synsets@)
                    &&& s as int == meteor_spec(hv, rv, stemmer@, synsets@, *t)
                    &&& s <= 100
                },
                Err(e) => e == Error::CacheMiss && !align_ok(hv, rv, stemmer@, synsets@),
            }
        }),
{
    let (enum_hypothesis, enum_reference) = generate_enums(hypothesis, reference);
    let translation_length = hypothesis.len();
    let reference_length = reference.len();

    let (matches, _leftover_hypothesis, _leftover_reference) = match enum_align_words(
        enum_hypothesis,
        enum_reference,
        synsets,
        stemmer,
    ) {
        Ok(v) => v,
        Err(e) => {
            return Err(e);
        },
    };

    proof {
        let hv = enums_of(words_view(hypothesis@));
        let rv = enums_of(words_view(reference@));
        lemma_align_spec_counts(hv, rv, stemmer@, synsets@);
        assert(hv.len() == hypothesis@.len());
        assert(rv.len() == reference@.len());
        let shorter: nat = if hypothesis@.len() <= reference@.len() {
            hypothesis@.len()
        } else {
            reference@.len()
        };
        crate::score::lemma_pow_base_le(matches@.len(), shorter, t.beta as nat);
    }
    Ok(score_percent(translation_length, reference_length, &matches, t))
}

/// Warms both caches for every word of one document: each word is
/// lowercased and stemmed through [`Stemmer::get_or_compute`], and the
/// synonym list of each resulting stem is computed through
/// [`Synsets::get_or_compute`]. Never fails; the table of results only
/// grows, and nothing already cached is recomputed.
pub fn init_cache<P: StemProvider, Q: SynonymProvider>(
    hypothesis: &Vec<String>,
    synsets: &mut Synsets<Q>,
    stemmer: &mut Stemmer<P>,
) -> (r: Result<(), Error>)
    requires
        old(stemmer).wf(),
        old(synsets).wf(),
    ensures
        r is Ok,
        final(stemmer).wf(),
        final(synsets).wf(),
        old(stemmer)@.submap_of(final(stemmer)@),
        old(synsets)@.submap_of(final(synsets)@),
        forall|w: Seq<char>| #[trigger]
            final(stemmer).provider.stem_map(w) == old(stemmer).provider.stem_map(w),
        forall|w: Seq<char>| #[trigger]
            final(synsets).provider.syn_map(w) == old(synsets).provider.syn_map(w),
        forall|k: int|
            0 <= k < hypothesis@.len() ==> final(stemmer)@.contains_key(
                lower_of_word(hypothesis@, k),
            ) && final(synsets)@.contains_key(
                old(stemmer).provider.stem_map(lower_of_word(hypothesis@, k)),
            ),
{
    let reference: Vec<String> = vec![String::new()];
    let (enum_hypothesis, _) = generate_enums(hypothesis, &reference);
    let ghost ev = toks_view(enum_hypothesis@);

    init_enum_align_words(enum_hypothesis, synsets, stemmer);
    proof {
        assert forall|k: int| 0 <= k < hypothesis@.len() implies final(stemmer)@.contains_key(
            lower_of_word(hypothesis@, k),
        ) && final(synsets)@.contains_key(
            old(stemmer).provider.stem_map(lower_of_word(hypothesis@, k)),
        ) by {
            assert(ev.len() == hypothesis@.len());
            assert(ev[k].1 == lower_of_word(hypothesis@, k));
            assert(final(stemmer)@.contains_key(ev[k].1));
            assert(final(synsets)@.contains_key(old(stemmer).provider.stem_map(ev[k].1)));
        }
    }
    Ok(())
}

/// The lowercase form of the word at index `k`.
pub open spec fn lower_of_word(words: Seq<String>, k: int) -> Seq<char> {
    crate::text::lower_of(words[k]@)
}

/// Warm-up over an enumerated token list: stems every token's text, then
/// computes the synonym list of every stem.
fn init_enum_align_words<P: StemProvider, Q: SynonymProvider>(
    enum_hypothesis_list: Vec<Token>,
    synsets: &mut Synsets<Q>,
    stemmer: &mut Stemmer<P>,
)
    requires
        old(stemmer).wf(),
        old(synsets).wf(),
    ensures
        final(stemmer).wf(),
        final(synsets).wf(),
        old(stemmer)@.submap_of(final(stemmer)@),
        old(synsets)@.submap_of(final(synsets)@),
        forall|w: Seq<char>| #[trigger]
            final(stemmer).provider.stem_map(w) == old(stemmer).provider.stem_map(w),
        forall|w: Seq<char>| #[trigger]
            final(synsets).provider.syn_map(w) == old(synsets).provider.syn_map(w),
        forall|k: int|
            0 <= k < enum_hypothesis_list@.len() ==> final(stemmer)@.contains_key(
                toks_view(enum_hypothesis_list@)[k].1,
            ) && final(synsets)@.contains_key(
                old(stemmer).provider.stem_map(toks_view(enum_hypothesis_list@)[k].1),
            ),
{
    let ghost hv = toks_view(enum_hypothesis_list@);
    let list = enum_hypothesis_list;
    let mut i: usize = 0;
    while i < list.len()
        invariant
            hv == toks_view(list@),
            i <= list@.len(),
            stemmer.wf(),
            synsets.wf(),
            old(stemmer)@.submap_of(stemmer@),
            old(synsets)@.submap_of(synsets@),
            forall|w: Seq<char>| #[trigger]
                stemmer.provider.stem_map(w) == old(stemmer).provider.stem_map(w),
            forall|w: Seq<char>| #[trigger]
                synsets.provider.syn_map(w) == old(synsets).provider.syn_map(w),
            forall|k: int|
                0 <= k < i ==> stemmer@.contains_key((#[trigger] hv[k]).1)
                    && synsets@.contains_key(old(stemmer).provider.stem_map(hv[k].1)),
        decreases list@.len() - i,
    {
        let ghost stem_before = stemmer@;
        let ghost syn_before = synsets@;
        let word_stem = stemmer.get_or_compute(&list[i].1);
        synsets.get_or_compute(&word_stem);
        proof {
            assert(hv[i as int] == (list@[i as int].0, list@[i as int].1@));
            assert(stem_before.submap_of(stemmer@)) by {
                assert(stemmer@ == stem_before.insert(list@[i as int].1@, word_stem@));
                if stem_before.contains_key(list@[i as int].1@) {
                    assert(stem_before[list@[i as int].1@] == word_stem@);
                }
            }
            assert(syn_before.submap_of(synsets@)) by {
                if syn_before.contains_key(word_stem@) {
                    assert(syn_before[word_stem@] == synsets.provider.syn_map(word_stem@));
                }
            }
        }
        i = i + 1;
    }
}

} // verus!

verus! {

/// The single-threaded warm-up pass of the batch pipeline: every token of
/// every document — bucketed or dropped alike — is lowercased, stemmed,
/// and its stem's synonym list computed, so that the parallel scoring
/// phase only ever reads the caches. Never fails, and the caches only
/// grow.
pub fn warm_documents<P: StemProvider, Q: SynonymProvider>(
    docs: &Vec<crate::document::Document>,
    synsets: &mut Synsets<Q>,
    stemmer: &mut Stemmer<P>,
) -> (r: Result<(), Error>)
    requires
        old(stemmer).wf(),
        old(synsets).wf(),
    ensures
        r is Ok,
        final(stemmer).wf(),
        final(synsets).wf(),
        old(stemmer)@.submap_of(final(stemmer)@),
        old(synsets)@.submap_of(final(synsets)@),
        forall|w: Seq<char>| #[trigger]
            final(stemmer).provider.stem_map(w) == old(stemmer).provider.stem_map(w),
        forall|w: Seq<char>| #[trigger]
            final(synsets).provider.syn_map(w) == old(synsets).provider.syn_map(w),
        forall|d: int, k: int|
            #![trigger crate::text::tokens_of(docs@[d].content@)[k]]
            0 <= d < docs@.len() && 0 <= k < crate::text::tokens_of(docs@[d].content@).len()
                ==> final(stemmer)@.contains_key(
                crate::text::lower_of(crate::text::tokens_of(docs@[d].content@)[k]),
            ) && final(synsets)@.contains_key(
                old(stemmer).provider.stem_map(
                    crate::text::lower_of(crate::text::tokens_of(docs@[d].content@)[k]),
                ),
            ),
{
    let mut d: usize = 0;
    while d < docs.len()
        invariant
            d <= docs@.len(),
            stemmer.wf(),
            synsets.wf(),
            old(stemmer)@.submap_of(stemmer@),
            old(synsets)@.submap_of(synsets@),
            forall|w: Seq<char>| #[trigger]
                stemmer.provider.stem_map(w) == old(stemmer).provider.stem_map(w),
            forall|w: Seq<char>| #[trigger]
                synsets.provider.syn_map(w) == old(synsets).provider.syn_map(w),
            forall|x: int, k: int|
                #![trigger crate::text::tokens_of(docs@[x].content@)[k]]
                0 <= x < d && 0 <= k < crate::text::tokens_of(docs@[x].content@).len()
                    ==> stemmer@.contains_key(
                    crate::text::lower_of(crate::text::tokens_of(docs@[x].content@)[k]),
                ) && synsets@.contains_key(
                    old(stemmer).provider.stem_map(
                        crate::text::lower_of(crate::text::tokens_of(docs@[x].content@)[k]),
                    ),
                ),
        decreases docs@.len() - d,
    {
        let ghost stem_before = stemmer@;
        let ghost syn_before = synsets@;
        let tokens = crate::text::tokenize(docs[d].content.as_str());
        let ghost tv = tokens@;
        match init_cache(&tokens, synsets, stemmer) {
            Ok(()) => {},
            Err(_) => {},
        }
        proof {
            vstd::map_lib::lemma_submap_of_trans(old(stemmer)@, stem_before, stemmer@);
            vstd::map_lib::lemma_submap_of_trans(old(synsets)@, syn_before, synsets@);
            assert forall|x: int, k: int|
                0 <= x < d + 1 && 0 <= k < crate::text::tokens_of(
                    docs@[x].content@,
                ).len() implies stemmer@.contains_key(
                crate::text::lower_of(#[trigger] crate::text::tokens_of(docs@[x].content@)[k]),
            ) && synsets@.contains_key(
                old(stemmer).provider.stem_map(
                    crate::text::lower_of(crate::text::tokens_of(docs@[x].content@)[k]),
                ),
            ) by {
                let word = crate::text::tokens_of(docs@[x].content@)[k];
                if x < d {
                    assert(stem_before.contains_key(crate::text::lower_of(word)));
                    assert(stemmer@.contains_key(crate::text::lower_of(word)));
                    assert(syn_before.contains_key(
                        old(stemmer).provider.stem_map(crate::text::lower_of(word)),
                    ));
                    assert(synsets@.contains_key(
                        old(stemmer).provider.stem_map(crate::text::lower_of(word)),
                    ));
                } else {
                    assert(words_view(tv) == crate::text::tokens_of(docs@[d as int].content@));
                    assert(tv[k]@ == word);
                    assert(lower_of_word(tv, k) == crate::text::lower_of(word));
                    assert(stemmer@.contains_key(crate::text::lower_of(word)));
                    assert(synsets@.contains_key(
                        old(stemmer).provider.stem_map(crate::text::lower_of(word)),
                    ));
                }
            }
        }
        d = d + 1;
    }
    Ok(())
}

} // verus!
