//! Trusted bindings to std's text operations.
//!
//! Lowercasing and whitespace tokenization follow Unicode tables that are
//! not restated here; each result is named by an uninterpreted function of
//! the input characters, which is sound because both operations depend on
//! the characters alone.

use vstd::prelude::*;

verus! {

/// The lowercase form of a character sequence, as `str::to_lowercase`
/// produces it.
pub uninterp spec fn lower_of(s: Seq<char>) -> Seq<char>;

/// Relies on str::to_lowercase: the result depends on the characters alone.
#[verifier::external_body]
pub(crate) fn lowercase(s: &str) -> (r: String)
    ensures
        r@ == lower_of(s@),
{
    s.to_lowercase()
}

/// The whitespace-delimited token list of a character sequence, as
/// `str::split_whitespace` produces it.
pub uninterp spec fn tokens_of(s: Seq<char>) -> Seq<Seq<char>>;

/// Relies on str::split_whitespace: the token list depends on the
/// characters alone.
#[verifier::external_body]
pub(crate) fn tokenize(s: &str) -> (r: Vec<String>)
    ensures
        r@.map_values(|w: String| w@) == tokens_of(s@),
{
    s.split_whitespace().map(|w| w.to_string()).collect()
}

} // verus!
