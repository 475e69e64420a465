//! The pluggable lexical resource backends.
//!
//! The engine never depends on how stems or synonym sets are computed —
//! a local algorithm, an out-of-process service, a native binding — only
//! on these two capabilities. A provider owns a deterministic mapping
//! (its `*_map` specification); a call may update internal bookkeeping
//! such as an invocation counter, but never the mapping itself, which is
//! what makes memoization sound.

use vstd::prelude::*;
use crate::align::words_view;

verus! {

/// A stemming backend.
pub trait StemProvider: Sized {
    /// The mapping from a word to its stem. Fixed for the provider's
    /// lifetime. The default — every word its own stem — stands for
    /// backends that do not state their mapping; a verified backend
    /// overrides it.
    open spec fn stem_map(&self, word: Seq<char>) -> Seq<char> {
        word
    }

    /// Compute the stem of `word`.
    fn stem(&mut self, word: &String) -> (r: String)
        ensures
            r@ == old(self).stem_map(word@),
            forall|w: Seq<char>| #[trigger] final(self).stem_map(w) == old(self).stem_map(w),
    ;
}

/// A synonym backend. The synonym set of a word always contains the word
/// itself.
pub trait SynonymProvider: Sized {
    /// The mapping from a word to its synonym list. Fixed for the
    /// provider's lifetime. The default — every word synonymous only with
    /// itself — stands for backends that do not state their mapping; a
    /// verified backend overrides it.
    open spec fn syn_map(&self, word: Seq<char>) -> Seq<Seq<char>> {
        seq![word]
    }

    /// Compute the synonym list of `word`.
    fn synonyms_of(&mut self, word: &String) -> (r: Vec<String>)
        ensures
            words_view(r@) == old(self).syn_map(word@),
            old(self).syn_map(word@).contains(word@),
            forall|w: Seq<char>| #[trigger] final(self).syn_map(w) == old(self).syn_map(w),
    ;
}

/// First value paired with `w` in the table, or `w` itself when absent: a
/// word that the table does not mention stems to itself.
pub open spec fn table_stem(t: Seq<(String, String)>, w: Seq<char>) -> Seq<char>
    decreases t.len(),
{
    if t.len() == 0 {
        w
    } else if t[0].0@ == w {
        t[0].1@
    } else {
        table_stem(t.drop_first(), w)
    }
}

/// First list paired with `w` in the table, or empty when absent.
pub open spec fn table_syns(t: Seq<(String, Vec<String>)>, w: Seq<char>) -> Seq<Seq<char>>
    decreases t.len(),
{
    if t.len() == 0 {
        Seq::<Seq<char>>::empty()
    } else if t[0].0@ == w {
        words_view(t[0].1@)
    } else {
        table_syns(t.drop_first(), w)
    }
}

/// A table-driven stemming backend, for tests and self-contained runs: a
/// word not in the table stems to itself. `calls` counts how often the
/// backend was actually invoked, so that memoization can be observed.
pub struct TableStemProvider {
    pub table: Vec<(String, String)>,
    pub calls: u64,
}

impl TableStemProvider {
    /// A provider answering from the given (word, stem) table.
    pub fn new(table: Vec<(String, String)>) -> (p: TableStemProvider)
        ensures
            p.table == table,
            p.calls == 0,
            forall|w: Seq<char>| #[trigger] p.stem_map(w) == table_stem(table@, w),
    {
        TableStemProvider { table, calls: 0 }
    }
}

impl StemProvider for TableStemProvider {
    open spec fn stem_map(&self, word: Seq<char>) -> Seq<char> {
        table_stem(self.table@, word)
    }

    fn stem(&mut self, word: &String) -> (r: String)
        ensures
            r@ == old(self).stem_map(word@),
            forall|w: Seq<char>| #[trigger] final(self).stem_map(w) == old(self).stem_map(w),
    {
        if self.calls < u64::MAX {
            self.calls = self.calls + 1;
        }
        let ghost t0 = self.table@;
        proof {
            assert(t0.skip(0) =~= t0);
        }
        let mut i: usize = 0;
        while i < self.table.len()
            invariant
                i <= self.table@.len(),
                self.table@ == t0,
                old(self).table@ == t0,
                table_stem(t0, word@) == table_stem(t0.skip(i as int), word@),
            decreases self.table@.len() - i,
        {
            proof {
                assert(t0.skip(i as int)[0] == t0[i as int]);
                assert(t0.skip(i as int).drop_first() =~= t0.skip(i + 1));
            }
            if self.table[i].0 == *word {
                return self.table[i].1.clone();
            }
            i = i + 1;
        }
        proof {
            assert(t0.skip(i as int) =~= Seq::<(String, String)>::empty());
        }
        word.clone()
    }
}

/// A table-driven synonym backend, for tests and self-contained runs: the
/// word itself is appended when the table's list lacks it. `calls` counts
/// actual invocations.
pub struct TableSynonymProvider {
    pub table: Vec<(String, Vec<String>)>,
    pub calls: u64,
}

impl TableSynonymProvider {
    /// A provider answering from the given (word, synonym list) table.
    pub fn new(table: Vec<(String, Vec<String>)>) -> (p: TableSynonymProvider)
        ensures
            p.table == table,
            p.calls == 0,
            forall|w: Seq<char>| #[trigger] p.syn_map(w) == (if table_syns(table@, w).contains(w) {
                table_syns(table@, w)
            } else {
                table_syns(table@, w).push(w)
            }),
    {
        TableSynonymProvider { table, calls: 0 }
    }
}

impl SynonymProvider for TableSynonymProvider {
    open spec fn syn_map(&self, word: Seq<char>) -> Seq<Seq<char>> {
        if table_syns(self.table@, word).contains(word) {
            table_syns(self.table@, word)
        } else {
            table_syns(self.table@, word).push(word)
        }
    }

    fn synonyms_of(&mut self, word: &String) -> (r: Vec<String>)
        ensures
            words_view(r@) == old(self).syn_map(word@),
            old(self).syn_map(word@).contains(word@),
            forall|w: Seq<char>| #[trigger] final(self).syn_map(w) == old(self).syn_map(w),
    {
        if self.calls < u64::MAX {
            self.calls = self.calls + 1;
        }
        let ghost t0 = self.table@;
        proof {
            assert(t0.skip(0) =~= t0);
        }
        let mut found: Vec<String> = Vec::new();
        let mut i: usize = 0;
        let mut hit = false;
        while i < self.table.len() && !hit
            invariant
                i <= self.table@.len(),
                self.table@ == t0,
                hit ==> words_view(found@) == table_syns(t0, word@),
                !hit ==> found@.len() == 0 && table_syns(t0, word@) == table_syns(
                    t0.skip(i as int),
                    word@,
                ),
            decreases self.table@.len() - i + (if hit { 0int } else { 1int }),
        {
            proof {
                assert(t0.skip(i as int)[0] == t0[i as int]);
                assert(t0.skip(i as int).drop_first() =~= t0.skip(i + 1));
            }
            if self.table[i].0 == *word {
                found = clone_strings(&self.table[i].1);
                hit = true;
            } else {
                i = i + 1;
            }
        }
        proof {
            if !hit {
                assert(t0.skip(i as int) =~= Seq::<(String, Vec<String>)>::empty());
                assert(words_view(found@) =~= table_syns(t0, word@));
            }
        }
        let present = contains_string(&found, word);
        if !present {
            found.push(word.clone());
            proof {
                assert(words_view(found@) =~= table_syns(t0, word@).push(word@));
            }
        }
        proof {
            let ts = table_syns(t0, word@);
            if !ts.contains(word@) {
                assert(ts.push(word@)[ts.len() as int] == word@);
                assert(ts.push(word@).contains(word@));
            }
        }
        found
    }
}

/// An elementwise copy of a word list.
pub(crate) fn clone_strings(v: &Vec<String>) -> (r: Vec<String>)
    ensures
        r@ == v@,
{
    let mut out: Vec<String> = Vec::new();
    let mut i: usize = 0;
    while i < v.len()
        invariant
            i <= v@.len(),
            out@ == v@.take(i as int),
        decreases v@.len() - i,
    {
        out.push(v[i].clone());
        proof {
            assert(out@ =~= v@.take(i + 1));
        }
        i = i + 1;
    }
    proof {
        assert(v@.take(i as int) =~= v@);
    }
    out
}

/// Whether `v` holds a word with the same characters as `w`.
pub(crate) fn contains_string(v: &Vec<String>, w: &String) -> (b: bool)
    ensures
        b == words_view(v@).contains(w@),
{
    let mut i: usize = 0;
    while i < v.len()
        invariant
            i <= v@.len(),
            forall|k: int| 0 <= k < i ==> words_view(v@)[k] != w@,
        decreases v@.len() - i,
    {
        if v[i] == *w {
            proof {
                assert(words_view(v@)[i as int] == w@);
            }
            return true;
        }
        i = i + 1;
    }
    proof {
        assert(!words_view(v@).contains(w@)) by {
            assert(forall|k: int| 0 <= k < words_view(v@).len() ==> words_view(v@)[k] != w@);
        }
    }
    false
}

} // verus!
