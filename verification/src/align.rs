//! The alignment engine: the exact / stemmed / synonym match cascade.
//!
//! Every phase scans hypothesis positions from last to first and, for each
//! hypothesis token, reference positions from last to first, consuming both
//! tokens of the first hit. This right-to-left, first-hit-wins policy is a
//! deliberate tie-break (later positions win ties) and is pinned exactly by
//! the recursive [`greedy`] specification, so that every caller — and every
//! degree of parallelism above — sees one deterministic result.

use vstd::prelude::*;
use crate::Error;
use crate::cache::{Stemmer, Synsets};
use crate::provider::{StemProvider, SynonymProvider, contains_string};
use crate::text::lower_of;

verus! {

/// A matched pair: (hypothesis position, reference position).
pub type MatchPair = (usize, usize);

/// An enumerated token: (original position, current text). The position
/// never changes; the text starts as the lowercased word and becomes the
/// stem during the stem phase.
pub type Token = (usize, String);

/// View of a token list: positions kept, texts viewed as character
/// sequences.
pub open spec fn toks_view(s: Seq<Token>) -> Seq<(usize, Seq<char>)> {
    s.map_values(|t: Token| (t.0, t.1@))
}

/// View of a word list.
pub open spec fn words_view(s: Seq<String>) -> Seq<Seq<char>> {
    s.map_values(|w: String| w@)
}

/// The enumerated, lowercased token list of a word list.
pub open spec fn enums_of(ws: Seq<Seq<char>>) -> Seq<(usize, Seq<char>)> {
    Seq::new(ws.len(), |i: int| (i as usize, lower_of(ws[i])))
}

/// The matcher of the exact phase: texts must be equal.
pub open spec fn exact_matcher() -> spec_fn(Seq<char>, Seq<char>) -> bool {
    |h_text: Seq<char>, r_text: Seq<char>| h_text == r_text
}

/// The matcher of the synonym phase: the reference text must be a member
/// of the synonym list of the hypothesis text.
pub open spec fn syn_matcher(syn: Map<Seq<char>, Seq<Seq<char>>>) -> spec_fn(
    Seq<char>,
    Seq<char>,
) -> bool {
    |h_text: Seq<char>, r_text: Seq<char>| syn[h_text].contains(r_text)
}

/// The index of the last token of `r` that `matcher` accepts against the
/// hypothesis text `t`, or -1 when none does.
pub open spec fn last_hit(
    r: Seq<(usize, Seq<char>)>,
    t: Seq<char>,
    matcher: spec_fn(Seq<char>, Seq<char>) -> bool,
) -> int
    decreases r.len(),
{
    if r.len() == 0 {
        -1
    } else if matcher(t, r.last().1) {
        r.len() - 1
    } else {
        last_hit(r.drop_last(), t, matcher)
    }
}

/// One whole greedy phase: hypothesis tokens are taken from last to first;
/// each either consumes the last acceptable reference token or is left
/// over. Returns (matches in the order they are found, hypothesis
/// leftovers in position order, reference leftovers in position order).
pub open spec fn greedy(
    h: Seq<(usize, Seq<char>)>,
    r: Seq<(usize, Seq<char>)>,
    matcher: spec_fn(Seq<char>, Seq<char>) -> bool,
) -> (Seq<MatchPair>, Seq<(usize, Seq<char>)>, Seq<(usize, Seq<char>)>)
    decreases h.len(),
{
    if h.len() == 0 {
        (Seq::<MatchPair>::empty(), Seq::<(usize, Seq<char>)>::empty(), r)
    } else {
        let hd = h.last();
        let j = last_hit(r, hd.1, matcher);
        if j >= 0 {
            let rest = greedy(h.drop_last(), r.remove(j), matcher);
            (seq![(hd.0, r[j].0)] + rest.0, rest.1, rest.2)
        } else {
            let rest = greedy(h.drop_last(), r, matcher);
            (rest.0, rest.1.push(hd), rest.2)
        }
    }
}

/// The exact phase.
pub open spec fn exact_greedy(h: Seq<(usize, Seq<char>)>, r: Seq<(usize, Seq<char>)>) -> (
    Seq<MatchPair>,
    Seq<(usize, Seq<char>)>,
    Seq<(usize, Seq<char>)>,
) {
    greedy(h, r, exact_matcher())
}

/// The synonym phase, against a synonym table.
pub open spec fn syn_greedy(
    h: Seq<(usize, Seq<char>)>,
    r: Seq<(usize, Seq<char>)>,
    syn: Map<Seq<char>, Seq<Seq<char>>>,
) -> (Seq<MatchPair>, Seq<(usize, Seq<char>)>, Seq<(usize, Seq<char>)>) {
    greedy(h, r, syn_matcher(syn))
}

/// Mapping a token list through `toks_view` commutes with `remove`.
proof fn lemma_view_remove(s: Seq<Token>, k: int)
    requires
        0 <= k < s.len(),
    ensures
        toks_view(s.remove(k)) == toks_view(s).remove(k),
{
    assert(toks_view(s.remove(k)) =~= toks_view(s).remove(k));
}

/// Enumerating then lowercasing a word list, one word at a time.
pub fn generate_enums(hypothesis: &Vec<String>, reference: &Vec<String>) -> (res: (
    Vec<Token>,
    Vec<Token>,
))
    ensures
        toks_view(res.0@) == enums_of(words_view(hypothesis@)),
        toks_view(res.1@) == enums_of(words_view(reference@)),
{
    let enum_hypothesis_list = enumerate_lowercased(hypothesis);
    let enum_reference_list = enumerate_lowercased(reference);
    (enum_hypothesis_list, enum_reference_list)
}

/// Pairs each word with its position and lowercases it.
fn enumerate_lowercased(words: &Vec<String>) -> (res: Vec<Token>)
    ensures
        toks_view(res@) == enums_of(words_view(words@)),
{
    let mut out: Vec<Token> = Vec::new();
    let mut i: usize = 0;
    while i < words.len()
        invariant
            i <= words@.len(),
            out@.len() == i,
            toks_view(out@) == enums_of(words_view(words@)).take(i as int),
        decreases words@.len() - i,
    {
        let text = crate::text::lowercase(words[i].as_str());
        out.push((i, text));
        proof {
            assert(toks_view(out@) =~= enums_of(words_view(words@)).take(i + 1));
        }
        i = i + 1;
    }
    proof {
        assert(enums_of(words_view(words@)).take(i as int) =~= enums_of(words_view(words@)));
    }
    out
}

/// The index of the last token of `r` whose text equals `text`, if any.
fn find_last_eq(r: &Vec<Token>, text: &String) -> (res: Option<usize>)
    ensures
        match res {
            Some(j) => j < r@.len() && j == last_hit(toks_view(r@), text@, exact_matcher()),
            None => last_hit(toks_view(r@), text@, exact_matcher()) == -1,
        },
{
    let ghost rv = toks_view(r@);
    let mut j: usize = r.len();
    proof {
        assert(rv.take(r@.len() as int) =~= rv);
    }
    while j > 0
        invariant
            j <= r@.len(),
            rv == toks_view(r@),
            last_hit(rv, text@, exact_matcher()) == last_hit(
                rv.take(j as int),
                text@,
                exact_matcher(),
            ),
        decreases j,
    {
        j = j - 1;
        proof {
            assert(rv.take(j + 1).last() == rv[j as int]);
            assert(rv.take(j + 1).drop_last() =~= rv.take(j as int));
        }
        if r[j].1 == *text {
            return Some(j);
        }
    }
    None
}

/// The exact phase, exactly as [`exact_greedy`] describes it: scan
/// hypothesis tokens from last to first, match each against the last
/// reference token with equal text, consume both.
pub fn match_enums(enum_hypothesis_list: Vec<Token>, enum_reference_list: Vec<Token>) -> (res: (
    Vec<MatchPair>,
    Vec<Token>,
    Vec<Token>,
))
    ensures
        ({
            let g = exact_greedy(toks_view(enum_hypothesis_list@), toks_view(enum_reference_list@));
            res.0@ == g.0 && toks_view(res.1@) == g.1 && toks_view(res.2@) == g.2
        }),
{
    let mut h = enum_hypothesis_list;
    let mut r = enum_reference_list;
    let ghost h0 = toks_view(h@);
    let ghost r0 = toks_view(r@);
    let mut word_match: Vec<MatchPair> = Vec::new();

    let mut i: usize = h.len();
    proof {
        assert(h0.take(i as int) =~= h0);
        assert(toks_view(h@).skip(i as int) =~= Seq::<(usize, Seq<char>)>::empty());
        let g = exact_greedy(h0, toks_view(r@));
        assert(g.0 =~= word_match@ + g.0);
        assert(g.1 =~= g.1 + toks_view(h@).skip(i as int));
    }
    while i > 0
        invariant
            i <= h@.len(),
            h@.len() <= h0.len(),
            toks_view(h@).take(i as int) == h0.take(i as int),
            exact_greedy(h0, r0).0 == word_match@ + exact_greedy(
                h0.take(i as int),
                toks_view(r@),
            ).0,
            exact_greedy(h0, r0).1 == exact_greedy(h0.take(i as int), toks_view(r@)).1
                + toks_view(h@).skip(i as int),
            exact_greedy(h0, r0).2 == exact_greedy(h0.take(i as int), toks_view(r@)).2,
        decreases i,
    {
        i = i - 1;
        let ghost hv = toks_view(h@);
        let ghost rv = toks_view(r@);
        proof {
            assert(hv.len() == h@.len());
            assert(h0.len() >= i + 1);
            assert(hv.take(i + 1) == h0.take(i + 1));
            assert(hv.take(i as int) =~= h0.take(i as int)) by {
                assert forall|k: int| 0 <= k < i implies hv.take(i as int)[k] == h0.take(
                    i as int,
                )[k] by {
                    assert(hv.take(i as int)[k] == hv[k]);
                    assert(hv[k] == hv.take(i + 1)[k]);
                    assert(h0.take(i + 1)[k] == h0[k]);
                    assert(h0.take(i as int)[k] == h0[k]);
                }
            }
            assert(h0.take(i + 1).last() == hv[i as int]);
            assert(h0.take(i + 1).drop_last() =~= h0.take(i as int));
            assert(hv[i as int] == (h@[i as int].0, h@[i as int].1@));
        }
        match find_last_eq(&r, &h[i].1) {
            Some(j) => {
                let ghost wm_before = word_match@;
                let ghost h_before = h@;
                let ghost r_before = r@;
                word_match.push((h[i].0, r[j].0));
                h.remove(i);
                r.remove(j);
                proof {
                    lemma_view_remove(h_before, i as int);
                    lemma_view_remove(r_before, j as int);
                    assert(toks_view(h@) == hv.remove(i as int));
                    assert(toks_view(r@) == rv.remove(j as int));
                    assert(toks_view(h@).take(i as int) =~= hv.take(i as int));
                    assert(toks_view(h@).take(i as int) == h0.take(i as int));
                    assert(toks_view(h@).skip(i as int) =~= hv.skip(i + 1));
                    let g_pre = exact_greedy(h0.take(i + 1), rv);
                    let g_post = exact_greedy(h0.take(i as int), toks_view(r@));
                    let p = (hv[i as int].0, rv[j as int].0);
                    assert(rv[j as int] == (r_before[j as int].0, r_before[j as int].1@));
                    assert(g_pre.0 == seq![p] + g_post.0);
                    assert(word_match@ == wm_before.push(p));
                    assert(wm_before + g_pre.0 =~= word_match@ + g_post.0);
                }
            },
            None => {
                proof {
                    let g_pre = exact_greedy(h0.take(i + 1), rv);
                    let g_post = exact_greedy(h0.take(i as int), rv);
                    assert(g_pre.1 == g_post.1.push(hv[i as int]));
                    assert(g_post.1.push(hv[i as int]) + hv.skip(i + 1) =~= g_post.1 + hv.skip(
                        i as int,
                    ));
                }
            },
        }
    }
    proof {
        assert(h0.take(0) =~= Seq::<(usize, Seq<char>)>::empty());
        assert(toks_view(h@).skip(0) =~= toks_view(h@));
        let g = exact_greedy(h0, r0);
        assert(g.0 =~= word_match@ + Seq::<MatchPair>::empty());
        assert(g.1 =~= Seq::<(usize, Seq<char>)>::empty() + toks_view(h@));
    }
    (word_match, h, r)
}

} // verus!

verus! {

/// Whether every token text of `l` is a key of `m`.
pub open spec fn texts_covered<V>(l: Seq<(usize, Seq<char>)>, m: Map<Seq<char>, V>) -> bool {
    forall|i: int| 0 <= i < l.len() ==> m.contains_key((#[trigger] l[i]).1)
}

/// Token texts replaced by their stems; positions kept.
pub open spec fn stemmed(l: Seq<(usize, Seq<char>)>, st: Map<Seq<char>, Seq<char>>) -> Seq<
    (usize, Seq<char>),
> {
    l.map_values(|t: (usize, Seq<char>)| (t.0, st[t.1]))
}

/// Replaces each token's text by its cached stem, or fails with
/// [`Error::CacheMiss`] exactly when some text was never warmed.
fn stem_tokens<P: StemProvider>(list: Vec<Token>, stemmer: &Stemmer<P>) -> (r: Result<
    Vec<Token>,
    Error,
>)
    requires
        stemmer.wf(),
    ensures
        match r {
            Ok(v) => texts_covered(toks_view(list@), stemmer@) && toks_view(v@) == stemmed(
                toks_view(list@),
                stemmer@,
            ),
            Err(e) => e == Error::CacheMiss && !texts_covered(toks_view(list@), stemmer@),
        },
{
    let ghost lv = toks_view(list@);
    let mut out: Vec<Token> = Vec::new();
    let mut i: usize = 0;
    while i < list.len()
        invariant
            stemmer.wf(),
            i <= list@.len(),
            lv == toks_view(list@),
            out@.len() == i,
            forall|k: int| 0 <= k < i ==> stemmer@.contains_key((#[trigger] lv[k]).1),
            toks_view(out@) == stemmed(lv, stemmer@).take(i as int),
        decreases list@.len() - i,
    {
        match stemmer.get(&list[i].1) {
            Ok(stem) => {
                let ghost out_before = out@;
                let ghost stem_chars = stem@;
                out.push((list[i].0, stem));
                proof {
                    let st = stemmer@;
                    assert(lv[i as int] == (list@[i as int].0, list@[i as int].1@));
                    assert(lv.len() == list@.len());
                    assert(stem_chars == st[lv[i as int].1]);
                    assert(toks_view(out@) =~= stemmed(lv, st).take(i + 1)) by {
                        assert forall|k: int| 0 <= k <= i implies toks_view(out@)[k] == stemmed(
                            lv,
                            st,
                        ).take(i + 1)[k] by {
                            assert(toks_view(out@)[k] == (out@[k].0, out@[k].1@));
                            assert(stemmed(lv, st)[k] == (lv[k].0, st[lv[k].1]));
                            if k < i {
                                assert(out@[k] == out_before[k]);
                                assert(toks_view(out_before)[k] == (out_before[k].0,
                                out_before[k].1@));
                                assert(toks_view(out_before)[k] == stemmed(lv, st).take(
                                    i as int,
                                )[k]);
                            } else {
                                assert(out@[k].0 == list@[i as int].0);
                                assert(out@[k].1@ == stem_chars);
                            }
                        }
                    }
                }
                i = i + 1;
            },
            Err(e) => {
                proof {
                    assert(lv[i as int] == (list@[i as int].0, list@[i as int].1@));
                    assert(!stemmer@.contains_key(lv[i as int].1));
                }
                return Err(e);
            },
        }
    }
    proof {
        assert(stemmed(lv, stemmer@).take(i as int) =~= stemmed(lv, stemmer@));
    }
    Ok(out)
}

/// Whether the stem phase can run: every leftover text on both sides has a
/// cached stem.
pub open spec fn stem_phase_ok(
    h: Seq<(usize, Seq<char>)>,
    r: Seq<(usize, Seq<char>)>,
    st: Map<Seq<char>, Seq<char>>,
) -> bool {
    texts_covered(h, st) && texts_covered(r, st)
}

/// The stem phase: both leftover lists are stemmed in place (positions
/// unchanged), then matched exactly as in the exact phase. Fails with
/// [`Error::CacheMiss`] exactly when some leftover text was never warmed.
pub fn enum_stem_match<P: StemProvider>(
    enum_hypothesis_list: Vec<Token>,
    enum_reference_list: Vec<Token>,
    stemmer: &Stemmer<P>,
) -> (r: Result<(Vec<MatchPair>, Vec<Token>, Vec<Token>), Error>)
    requires
        stemmer.wf(),
    ensures
        ({
            let hv = toks_view(enum_hypothesis_list@);
            let rv = toks_view(enum_reference_list@);
            match r {
                Ok(v) => {
                    let g = exact_greedy(stemmed(hv, stemmer@), stemmed(rv, stemmer@));
                    &&& stem_phase_ok(hv, rv, stemmer@)
                    &&& v.0@ == g.0
                    &&& toks_view(v.1@) == g.1
                    &&& toks_view(v.2@) == g.2
                },
                Err(e) => e == Error::CacheMiss && !stem_phase_ok(hv, rv, stemmer@),
            }
        }),
{
    let stemmed_hypothesis = match stem_tokens(enum_hypothesis_list, stemmer) {
        Ok(v) => v,
        Err(e) => {
            return Err(e);
        },
    };
    let stemmed_reference = match stem_tokens(enum_reference_list, stemmer) {
        Ok(v) => v,
        Err(e) => {
            return Err(e);
        },
    };
    Ok(match_enums(stemmed_hypothesis, stemmed_reference))
}

} // verus!

verus! {

/// The index of the last token of `r` whose text is in `syns`, or -1.
pub open spec fn last_syn_hit(r: Seq<(usize, Seq<char>)>, syns: Seq<Seq<char>>) -> int
    decreases r.len(),
{
    if r.len() == 0 {
        -1
    } else if syns.contains(r.last().1) {
        r.len() - 1
    } else {
        last_syn_hit(r.drop_last(), syns)
    }
}

/// Searching with the synonym list of `t` is searching with the synonym
/// matcher.
proof fn lemma_last_syn_hit_is_last_hit(
    r: Seq<(usize, Seq<char>)>,
    t: Seq<char>,
    syn: Map<Seq<char>, Seq<Seq<char>>>,
)
    ensures
        last_syn_hit(r, syn[t]) == last_hit(r, t, syn_matcher(syn)),
    decreases r.len(),
{
    if r.len() > 0 {
        lemma_last_syn_hit_is_last_hit(r.drop_last(), t, syn);
    }
}

/// The index of the last token of `r` whose text is a member of `syns`,
/// if any.
fn find_last_syn(r: &Vec<Token>, syns: &Vec<String>) -> (res: Option<usize>)
    ensures
        match res {
            Some(j) => j < r@.len() && j == last_syn_hit(toks_view(r@), words_view(syns@)),
            None => last_syn_hit(toks_view(r@), words_view(syns@)) == -1,
        },
{
    let ghost rv = toks_view(r@);
    let ghost sv = words_view(syns@);
    let mut j: usize = r.len();
    proof {
        assert(rv.take(r@.len() as int) =~= rv);
    }
    while j > 0
        invariant
            j <= r@.len(),
            rv == toks_view(r@),
            sv == words_view(syns@),
            last_syn_hit(rv, sv) == last_syn_hit(rv.take(j as int), sv),
        decreases j,
    {
        j = j - 1;
        proof {
            assert(rv.take(j + 1).last() == rv[j as int]);
            assert(rv.take(j + 1).drop_last() =~= rv.take(j as int));
            assert(rv[j as int] == (r@[j as int].0, r@[j as int].1@));
        }
        if contains_string(syns, &r[j].1) {
            return Some(j);
        }
    }
    None
}

/// The synonym phase, exactly as [`syn_greedy`] describes it: scan
/// hypothesis tokens from last to first, fetch each one's cached synonym
/// list, match it against the last reference token whose text the list
/// contains, consume both. Fails with [`Error::CacheMiss`] exactly when
/// some hypothesis text has no cached synonym list.
pub fn enum_wordnetsyn_match<Q: SynonymProvider>(
    enum_hypothesis_list: Vec<Token>,
    enum_reference_list: Vec<Token>,
    synsets: &Synsets<Q>,
) -> (r: Result<(Vec<MatchPair>, Vec<Token>, Vec<Token>), Error>)
    requires
        synsets.wf(),
    ensures
        ({
            let hv = toks_view(enum_hypothesis_list@);
            let rv = toks_view(enum_reference_list@);
            match r {
                Ok(v) => {
                    let g = syn_greedy(hv, rv, synsets@);
                    &&& texts_covered(hv, synsets@)
                    &&& v.0@ == g.0
                    &&& toks_view(v.1@) == g.1
                    &&& toks_view(v.2@) == g.2
                },
                Err(e) => e == Error::CacheMiss && !texts_covered(hv, synsets@),
            }
        }),
{
    let mut h = enum_hypothesis_list;
    let mut r = enum_reference_list;
    let ghost h0 = toks_view(h@);
    let ghost r0 = toks_view(r@);
    let ghost syn = synsets@;
    let mut word_match: Vec<MatchPair> = Vec::new();

    let mut i: usize = h.len();
    proof {
        assert(h0.take(i as int) =~= h0);
        assert(toks_view(h@).skip(i as int) =~= Seq::<(usize, Seq<char>)>::empty());
        let g = syn_greedy(h0, toks_view(r@), syn);
        assert(g.0 =~= word_match@ + g.0);
        assert(g.1 =~= g.1 + toks_view(h@).skip(i as int));
    }
    while i > 0
        invariant
            synsets.wf(),
            syn == synsets@,
            h0 == toks_view(enum_hypothesis_list@),
            r0 == toks_view(enum_reference_list@),
            i <= h@.len(),
            h@.len() <= h0.len(),
            toks_view(h@).take(i as int) == h0.take(i as int),
            forall|k: int| i <= k < h0.len() ==> syn.contains_key((#[trigger] h0[k]).1),
            syn_greedy(h0, r0, syn).0 == word_match@ + syn_greedy(
                h0.take(i as int),
                toks_view(r@),
                syn,
            ).0,
            syn_greedy(h0, r0, syn).1 == syn_greedy(h0.take(i as int), toks_view(r@), syn).1
                + toks_view(h@).skip(i as int),
            syn_greedy(h0, r0, syn).2 == syn_greedy(h0.take(i as int), toks_view(r@), syn).2,
        decreases i,
    {
        i = i - 1;
        let ghost hv = toks_view(h@);
        let ghost rv = toks_view(r@);
        proof {
            assert(hv.len() == h@.len());
            assert(h0.len() >= i + 1);
            assert(hv.take(i + 1) == h0.take(i + 1));
            assert(hv.take(i as int) =~= h0.take(i as int)) by {
                assert forall|k: int| 0 <= k < i implies hv.take(i as int)[k] == h0.take(
                    i as int,
                )[k] by {
                    assert(hv.take(i as int)[k] == hv[k]);
                    assert(hv[k] == hv.take(i + 1)[k]);
                    assert(h0.take(i + 1)[k] == h0[k]);
                    assert(h0.take(i as int)[k] == h0[k]);
                }
            }
            assert(h0.take(i + 1).last() == hv[i as int]);
            assert(h0.take(i + 1).drop_last() =~= h0.take(i as int));
            assert(hv[i as int] == (h@[i as int].0, h@[i as int].1@));
            assert(h0[i as int] == hv[i as int]) by {
                assert(h0.take(i + 1)[i as int] == h0[i as int]);
                assert(hv.take(i + 1)[i as int] == hv[i as int]);
            }
        }
        let hypothesis_syns: Vec<String> = match synsets.get(&h[i].1) {
            Ok(v) => v,
            Err(e) => {
                proof {
                    assert(!syn.contains_key(h0[i as int].1));
                }
                return Err(e);
            },
        };
        proof {
            lemma_last_syn_hit_is_last_hit(rv, hv[i as int].1, syn);
        }
        match find_last_syn(&r, &hypothesis_syns) {
            Some(j) => {
                let ghost wm_before = word_match@;
                let ghost h_before = h@;
                let ghost r_before = r@;
                word_match.push((h[i].0, r[j].0));
                h.remove(i);
                r.remove(j);
                proof {
                    lemma_view_remove(h_before, i as int);
                    lemma_view_remove(r_before, j as int);
                    assert(toks_view(h@) == hv.remove(i as int));
                    assert(toks_view(r@) == rv.remove(j as int));
                    assert(toks_view(h@).take(i as int) =~= hv.take(i as int));
                    assert(toks_view(h@).take(i as int) == h0.take(i as int));
                    assert(toks_view(h@).skip(i as int) =~= hv.skip(i + 1));
                    let g_pre = syn_greedy(h0.take(i + 1), rv, syn);
                    let g_post = syn_greedy(h0.take(i as int), toks_view(r@), syn);
                    let p = (hv[i as int].0, rv[j as int].0);
                    assert(rv[j as int] == (r_before[j as int].0, r_before[j as int].1@));
                    assert(g_pre.0 == seq![p] + g_post.0);
                    assert(word_match@ == wm_before.push(p));
                    assert(wm_before + g_pre.0 =~= word_match@ + g_post.0);
                }
            },
            None => {
                proof {
                    let g_pre = syn_greedy(h0.take(i + 1), rv, syn);
                    let g_post = syn_greedy(h0.take(i as int), rv, syn);
                    assert(g_pre.1 == g_post.1.push(hv[i as int]));
                    assert(g_post.1.push(hv[i as int]) + hv.skip(i + 1) =~= g_post.1 + hv.skip(
                        i as int,
                    ));
                }
            },
        }
    }
    proof {
        assert(h0.take(0) =~= Seq::<(usize, Seq<char>)>::empty());
        assert(toks_view(h@).skip(0) =~= toks_view(h@));
        let g = syn_greedy(h0, r0, syn);
        assert(g.0 =~= word_match@ + Seq::<MatchPair>::empty());
        assert(g.1 =~= Seq::<(usize, Seq<char>)>::empty() + toks_view(h@));
    }
    Ok((word_match, h, r))
}

} // verus!

verus! {

/// `m` inserted before the first element with hypothesis position at least
/// `m.0`.
pub open spec fn insert_sorted(m: MatchPair, s: Seq<MatchPair>) -> Seq<MatchPair>
    decreases s.len(),
{
    if s.len() == 0 {
        seq![m]
    } else if m.0 <= s[0].0 {
        seq![m] + s
    } else {
        seq![s[0]] + insert_sorted(m, s.drop_first())
    }
}

/// The match list sorted ascending by hypothesis position, by insertion.
pub open spec fn sort_matches(s: Seq<MatchPair>) -> Seq<MatchPair>
    decreases s.len(),
{
    if s.len() == 0 {
        Seq::<MatchPair>::empty()
    } else {
        insert_sorted(s[0], sort_matches(s.drop_first()))
    }
}

/// Where the scan for the insertion point stops, insertion splits the
/// sequence.
pub proof fn lemma_insert_sorted_split(m: MatchPair, s: Seq<MatchPair>, p: int)
    requires
        0 <= p <= s.len(),
        forall|k: int| 0 <= k < p ==> (#[trigger] s[k]).0 < m.0,
        p < s.len() ==> m.0 <= s[p].0,
    ensures
        insert_sorted(m, s) == s.take(p) + seq![m] + s.skip(p),
    decreases p,
{
    if p == 0 {
        if s.len() == 0 {
            assert(insert_sorted(m, s) =~= s.take(0) + seq![m] + s.skip(0));
        } else {
            assert(seq![m] + s =~= s.take(0) + seq![m] + s.skip(0));
        }
    } else {
        assert(s[0].0 < m.0);
        lemma_insert_sorted_split(m, s.drop_first(), p - 1);
        assert(forall|k: int| 0 <= k < p - 1 ==> (#[trigger] s.drop_first()[k]).0 == s[k + 1].0);
        assert(seq![s[0]] + (s.drop_first().take(p - 1) + seq![m] + s.drop_first().skip(p - 1))
            =~= s.take(p) + seq![m] + s.skip(p));
    }
}

/// Inserts `m` into a vector, keeping it sorted by hypothesis position.
fn insert_pair(acc: &mut Vec<MatchPair>, m: MatchPair)
    ensures
        final(acc)@ == insert_sorted(m, old(acc)@),
{
    let mut p: usize = 0;
    while p < acc.len() && acc[p].0 < m.0
        invariant
            p <= acc@.len(),
            acc@ == old(acc)@,
            forall|k: int| 0 <= k < p ==> (#[trigger] acc@[k]).0 < m.0,
        decreases acc@.len() - p,
    {
        p = p + 1;
    }
    proof {
        lemma_insert_sorted_split(m, acc@, p as int);
    }
    acc.insert(p, m);
    proof {
        assert(final(acc)@ =~= old(acc)@.take(p as int) + seq![m] + old(acc)@.skip(p as int));
    }
}

/// Sorts a match list ascending by hypothesis position.
fn sort_pairs(v: Vec<MatchPair>) -> (out: Vec<MatchPair>)
    ensures
        out@ == sort_matches(v@),
{
    let mut out: Vec<MatchPair> = Vec::new();
    let mut i: usize = v.len();
    proof {
        assert(v@.skip(i as int) =~= Seq::<MatchPair>::empty());
    }
    while i > 0
        invariant
            i <= v@.len(),
            out@ == sort_matches(v@.skip(i as int)),
        decreases i,
    {
        i = i - 1;
        proof {
            assert(v@.skip(i as int)[0] == v@[i as int]);
            assert(v@.skip(i as int).drop_first() =~= v@.skip(i + 1));
        }
        insert_pair(&mut out, v[i]);
    }
    proof {
        assert(v@.skip(0) =~= v@);
    }
    out
}

/// The whole cascade on enumerated token lists: the matches of the three
/// phases merged and sorted ascending by hypothesis position, plus the
/// tokens left unmatched on each side.
pub open spec fn align_spec(
    h: Seq<(usize, Seq<char>)>,
    r: Seq<(usize, Seq<char>)>,
    st: Map<Seq<char>, Seq<char>>,
    syn: Map<Seq<char>, Seq<Seq<char>>>,
) -> (Seq<MatchPair>, Seq<(usize, Seq<char>)>, Seq<(usize, Seq<char>)>) {
    let e = exact_greedy(h, r);
    let sm = exact_greedy(stemmed(e.1, st), stemmed(e.2, st));
    let w = syn_greedy(sm.1, sm.2, syn);
    (sort_matches(e.0 + sm.0 + w.0), w.1, w.2)
}

/// Whether the cascade can run to completion against the given caches:
/// every exact-phase leftover has a cached stem, and every stem-phase
/// hypothesis leftover has a cached synonym list.
pub open spec fn align_ok(
    h: Seq<(usize, Seq<char>)>,
    r: Seq<(usize, Seq<char>)>,
    st: Map<Seq<char>, Seq<char>>,
    syn: Map<Seq<char>, Seq<Seq<char>>>,
) -> bool {
    let e = exact_greedy(h, r);
    let sm = exact_greedy(stemmed(e.1, st), stemmed(e.2, st));
    &&& stem_phase_ok(e.1, e.2, st)
    &&& texts_covered(sm.1, syn)
}

/// The three-phase cascade: exact matches, then stemmed matches over the
/// leftovers, then synonym matches over what is still left. Fails with
/// [`Error::CacheMiss`] exactly when a needed stem or synonym list was
/// never warmed.
pub fn enum_align_words<P: StemProvider, Q: SynonymProvider>(
    enum_hypothesis_list: Vec<Token>,
    enum_reference_list: Vec<Token>,
    synsets: &Synsets<Q>,
    stemmer: &Stemmer<P>,
) -> (r: Result<(Vec<MatchPair>, Vec<Token>, Vec<Token>), Error>)
    requires
        stemmer.wf(),
        synsets.wf(),
    ensures
        ({
            let hv = toks_view(enum_hypothesis_list@);
            let rv = toks_view(enum_reference_list@);
            match r {
                Ok(v) => {
                    let a = align_spec(hv, rv, stemmer@, synsets@);
                    &&& align_ok(hv, rv, stemmer@, synsets@)
                    &&& v.0@ == a.0
                    &&& toks_view(v.1@) == a.1
                    &&& toks_view(v.2@) == a.2
                },
                Err(e) => e == Error::CacheMiss && !align_ok(hv, rv, stemmer@, synsets@),
            }
        }),
{
    let (exact_matches, enum_hypothesis, enum_reference) = match_enums(
        enum_hypothesis_list,
        enum_reference_list,
    );

    let (stem_matches, more_hypothesis, more_ref) = match enum_stem_match(
        enum_hypothesis,
        enum_reference,
        stemmer,
    ) {
        Ok(v) => v,
        Err(e) => {
            return Err(e);
        },
    };

    let (wns_matches, remaining_hypothesis, remaining_ref) = match enum_wordnetsyn_match(
        more_hypothesis,
        more_ref,
        synsets,
    ) {
        Ok(v) => v,
        Err(e) => {
            return Err(e);
        },
    };

    let mut all_matches = exact_matches;
    let mut stem_tail = stem_matches;
    let mut wns_tail = wns_matches;
    all_matches.append(&mut stem_tail);
    all_matches.append(&mut wns_tail);
    let all_matches = sort_pairs(all_matches);

    (Ok((all_matches, remaining_hypothesis, remaining_ref)))
}

} // verus!
