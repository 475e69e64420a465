//! The memoizing lexical caches.
//!
//! Two independent write-once maps: word to stem, and word to synonym
//! list. Entries are computed lazily by the provider during the warm-up
//! pass and never evicted or updated; after warm-up the scoring phase only
//! reads, through [`Stemmer::get`] / [`Synsets::get`], and a miss there is
//! the fatal [`Error::CacheMiss`], never a silent default. Coherence with
//! the provider's own mapping (`wf`) is what makes repeated lookups — in
//! this process or any other sharing the same lexical resources — see the
//! same values.

use vstd::prelude::*;
use crate::Error;
use crate::align::words_view;
use crate::provider::{StemProvider, SynonymProvider, clone_strings};

verus! {

/// The contents of a (word, stem) entry list, as a map over character
/// sequences. Later entries would win, but keys are never repeated.
pub open spec fn stem_entries(s: Seq<(String, String)>) -> Map<Seq<char>, Seq<char>>
    decreases s.len(),
{
    if s.len() == 0 {
        Map::<Seq<char>, Seq<char>>::empty()
    } else {
        stem_entries(s.drop_last()).insert(s.last().0@, s.last().1@)
    }
}

/// The contents of a (word, synonym list) entry list, as a map.
pub open spec fn syn_entries(s: Seq<(String, Vec<String>)>) -> Map<Seq<char>, Seq<Seq<char>>>
    decreases s.len(),
{
    if s.len() == 0 {
        Map::<Seq<char>, Seq<Seq<char>>>::empty()
    } else {
        syn_entries(s.drop_last()).insert(s.last().0@, words_view(s.last().1@))
    }
}

/// A key is in the map exactly when some entry carries it, and the entry
/// of an unrepeated key gives its value.
proof fn lemma_stem_entries_lookup(s: Seq<(String, String)>, w: Seq<char>)
    ensures
        stem_entries(s).contains_key(w) <==> exists|k: int| 0 <= k < s.len() && s[k].0@ == w,
        forall|k: int|
            0 <= k < s.len() && s[k].0@ == w && (forall|j: int|
                k < j < s.len() ==> s[j].0@ != w) ==> stem_entries(s)[w] == #[trigger] s[k].1@,
    decreases s.len(),
{
    if s.len() > 0 {
        lemma_stem_entries_lookup(s.drop_last(), w);
        assert(forall|k: int| 0 <= k < s.len() - 1 ==> s.drop_last()[k] == s[k]);
    }
}

/// As [`lemma_stem_entries_lookup`], for the synonym side.
proof fn lemma_syn_entries_lookup(s: Seq<(String, Vec<String>)>, w: Seq<char>)
    ensures
        syn_entries(s).contains_key(w) <==> exists|k: int| 0 <= k < s.len() && s[k].0@ == w,
        forall|k: int|
            0 <= k < s.len() && s[k].0@ == w && (forall|j: int|
                k < j < s.len() ==> s[j].0@ != w) ==> syn_entries(s)[w] == words_view(
                #[trigger] s[k].1@,
            ),
    decreases s.len(),
{
    if s.len() > 0 {
        lemma_syn_entries_lookup(s.drop_last(), w);
        assert(forall|k: int| 0 <= k < s.len() - 1 ==> s.drop_last()[k] == s[k]);
    }
}

/// The stem cache: a write-once word-to-stem map in front of a stemming
/// provider.
pub struct Stemmer<P: StemProvider> {
    /// The entry list; keys are unique, so order carries no meaning.
    pub store: Vec<(String, String)>,
    /// The backend that computes entries on a miss.
    pub provider: P,
}

impl<P: StemProvider> View for Stemmer<P> {
    type V = Map<Seq<char>, Seq<char>>;

    /// The cache contents.
    open spec fn view(&self) -> Map<Seq<char>, Seq<char>> {
        stem_entries(self.store@)
    }
}

impl<P: StemProvider> Stemmer<P> {
    /// Each key is cached at most once (write-once), and every cached
    /// value is what the provider computes for its key.
    pub open spec fn wf(&self) -> bool {
        &&& forall|i: int, j: int|
            0 <= i < j < self.store@.len() ==> self.store@[i].0@ != self.store@[j].0@
        &&& forall|i: int|
            0 <= i < self.store@.len() ==> (#[trigger] self.store@[i]).1@ == self.provider.stem_map(
                self.store@[i].0@,
            )
    }

    /// An empty cache in front of `provider`.
    pub fn new(provider: P) -> (s: Stemmer<P>)
        ensures
            s@ == Map::<Seq<char>, Seq<char>>::empty(),
            s.wf(),
            s.provider == provider,
    {
        Stemmer { store: Vec::new(), provider }
    }

    /// The cached stem of `key`, or [`Error::CacheMiss`] exactly when the
    /// warm-up pass never computed it.
    pub fn get(&self, key: &String) -> (r: Result<String, Error>)
        requires
            self.wf(),
        ensures
            match r {
                Ok(v) => self@.contains_key(key@) && v@ == self@[key@] && v@
                    == self.provider.stem_map(key@),
                Err(e) => e == Error::CacheMiss && !self@.contains_key(key@),
            },
    {
        proof {
            lemma_stem_entries_lookup(self.store@, key@);
        }
        let mut i: usize = 0;
        while i < self.store.len()
            invariant
                self.wf(),
                i <= self.store@.len(),
                forall|k: int| 0 <= k < i ==> (#[trigger] self.store@[k]).0@ != key@,
            decreases self.store@.len() - i,
        {
            if self.store[i].0 == *key {
                proof {
                    lemma_stem_entries_lookup(self.store@, key@);
                    assert(forall|j: int|
                        i < j < self.store@.len() ==> self.store@[j].0@ != key@);
                }
                return Ok(self.store[i].1.clone());
            }
            i = i + 1;
        }
        Err(Error::CacheMiss)
    }

    /// The cached stem of `key` if present — leaving everything, provider
    /// included, untouched — and otherwise the stem the provider computes,
    /// cached from now on. Either way the result is the provider's mapping
    /// applied to `key`: repeated calls return equal values.
    pub fn get_or_compute(&mut self, key: &String) -> (r: String)
        requires
            old(self).wf(),
        ensures
            final(self).wf(),
            r@ == old(self).provider.stem_map(key@),
            final(self)@ == old(self)@.insert(key@, r@),
            old(self)@.contains_key(key@) ==> *final(self) == *old(self),
            forall|w: Seq<char>| #[trigger]
                final(self).provider.stem_map(w) == old(self).provider.stem_map(w),
    {
        match self.get(key) {
            Ok(cached) => {
                proof {
                    assert(old(self)@.insert(key@, cached@) =~= old(self)@);
                }
                cached
            },
            Err(_) => {
                let computed = self.provider.stem(key);
                let ghost store_before = self.store@;
                self.store.push((key.clone(), computed.clone()));
                proof {
                    lemma_stem_entries_lookup(store_before, key@);
                    assert(self.store@.drop_last() =~= store_before);
                    assert(forall|i: int|
                        0 <= i < store_before.len() ==> self.store@[i] == store_before[i]);
                }
                computed
            },
        }
    }
}

/// At the map level, a well-formed stem cache agrees with its provider
/// everywhere it is defined.
pub proof fn lemma_stemmer_coherent<P: StemProvider>(s: &Stemmer<P>)
    requires
        s.wf(),
    ensures
        forall|k: Seq<char>| #[trigger] s@.contains_key(k) ==> s@[k] == s.provider.stem_map(k),
{
    assert forall|k: Seq<char>| #[trigger] s@.contains_key(k) implies s@[k]
        == s.provider.stem_map(k) by {
        lemma_stem_entries_lookup(s.store@, k);
        let i = choose|i: int| 0 <= i < s.store@.len() && s.store@[i].0@ == k;
        assert(forall|j: int| i < j < s.store@.len() ==> s.store@[j].0@ != k);
        assert(s@[k] == s.store@[i].1@);
    }
}

/// The synonym cache: a write-once word-to-synonym-list map in front of a
/// synonym provider.
pub struct Synsets<Q: SynonymProvider> {
    /// The entry list; keys are unique, so order carries no meaning.
    pub store: Vec<(String, Vec<String>)>,
    /// The backend that computes entries on a miss.
    pub provider: Q,
}

impl<Q: SynonymProvider> View for Synsets<Q> {
    type V = Map<Seq<char>, Seq<Seq<char>>>;

    /// The cache contents.
    open spec fn view(&self) -> Map<Seq<char>, Seq<Seq<char>>> {
        syn_entries(self.store@)
    }
}

impl<Q: SynonymProvider> Synsets<Q> {
    /// Each key is cached at most once (write-once); every cached list is
    /// what the provider computes for its key, and contains the key
    /// itself.
    pub open spec fn wf(&self) -> bool {
        &&& forall|i: int, j: int|
            0 <= i < j < self.store@.len() ==> self.store@[i].0@ != self.store@[j].0@
        &&& forall|i: int|
            0 <= i < self.store@.len() ==> words_view((#[trigger] self.store@[i]).1@)
                == self.provider.syn_map(self.store@[i].0@)
        &&& forall|i: int|
            0 <= i < self.store@.len() ==> words_view((#[trigger] self.store@[i]).1@).contains(
                self.store@[i].0@,
            )
    }

    /// An empty cache in front of `provider`.
    pub fn new(provider: Q) -> (s: Synsets<Q>)
        ensures
            s@ == Map::<Seq<char>, Seq<Seq<char>>>::empty(),
            s.wf(),
            s.provider == provider,
    {
        Synsets { store: Vec::new(), provider }
    }

    /// The cached synonym list of `key`, or [`Error::CacheMiss`] exactly
    /// when the warm-up pass never computed it.
    pub fn get(&self, key: &String) -> (r: Result<Vec<String>, Error>)
        requires
            self.wf(),
        ensures
            match r {
                Ok(v) => self@.contains_key(key@) && words_view(v@) == self@[key@] && words_view(
                    v@,
                ) == self.provider.syn_map(key@) && words_view(v@).contains(key@),
                Err(e) => e == Error::CacheMiss && !self@.contains_key(key@),
            },
    {
        proof {
            lemma_syn_entries_lookup(self.store@, key@);
        }
        let mut i: usize = 0;
        while i < self.store.len()
            invariant
                self.wf(),
                i <= self.store@.len(),
                forall|k: int| 0 <= k < i ==> (#[trigger] self.store@[k]).0@ != key@,
            decreases self.store@.len() - i,
        {
            if self.store[i].0 == *key {
                proof {
                    lemma_syn_entries_lookup(self.store@, key@);
                    assert(forall|j: int|
                        i < j < self.store@.len() ==> self.store@[j].0@ != key@);
                }
                return Ok(clone_strings(&self.store[i].1));
            }
            i = i + 1;
        }
        Err(Error::CacheMiss)
    }

    /// The cached synonym list of `key` if present — leaving everything,
    /// provider included, untouched — and otherwise the list the provider
    /// computes, cached from now on. The result always contains `key`
    /// itself, and repeated calls return equal values.
    pub fn get_or_compute(&mut self, key: &String) -> (r: Vec<String>)
        requires
            old(self).wf(),
        ensures
            final(self).wf(),
            words_view(r@) == old(self).provider.syn_map(key@),
            words_view(r@).contains(key@),
            final(self)@ == old(self)@.insert(key@, words_view(r@)),
            old(self)@.contains_key(key@) ==> *final(self) == *old(self),
            forall|w: Seq<char>| #[trigger]
                final(self).provider.syn_map(w) == old(self).provider.syn_map(w),
    {
        match self.get(key) {
            Ok(cached) => {
                proof {
                    assert(old(self)@.insert(key@, words_view(cached@)) =~= old(self)@);
                }
                cached
            },
            Err(_) => {
                let computed = self.provider.synonyms_of(key);
                let ghost store_before = self.store@;
                let copy = clone_strings(&computed);
                self.store.push((key.clone(), copy));
                proof {
                    lemma_syn_entries_lookup(store_before, key@);
                    assert(self.store@.drop_last() =~= store_before);
                    assert(forall|i: int|
                        0 <= i < store_before.len() ==> self.store@[i] == store_before[i]);
                }
                computed
            },
        }
    }
}

} // verus!
