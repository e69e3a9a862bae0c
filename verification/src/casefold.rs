//! Case folding for case-insensitive matching.
//!
//! Lowercasing is the one step of the search that the library does not
//! compute itself: it calls the standard library's Unicode lowercase mapping
//! and names its result, so that every contract downstream can speak of the
//! folded text exactly.

use vstd::prelude::*;

verus! {

/// The Unicode lowercase folding of a sequence of characters: what
/// `str::to_lowercase` returns, a function of the characters alone.
pub uninterp spec fn lower_of(s: Seq<char>) -> Seq<char>;

/// Relies on `str::to_lowercase`: Unicode lowercasing, locale-independent,
/// determined by the input characters alone.
#[verifier::external_body]
pub(crate) fn lowercase(s: &str) -> (r: String)
    ensures
        r@ == lower_of(s@),
{
    s.to_lowercase()
}

} // verus!
