//! Canonical decomposition of text, used only to compare tags.

use unicode_normalization::UnicodeNormalization;
use vstd::prelude::*;

verus! {

/// The canonical decomposition (NFD) of `s`.
pub uninterp spec fn nfd_of(s: Seq<char>) -> Seq<char>;

/// Relies on `unicode_normalization::UnicodeNormalization::nfd`: the
/// canonical decomposition of the characters, which depends on them alone.
#[verifier::external_body]
pub(crate) fn normalize_str(s: &str) -> (r: String)
    ensures
        r@ == nfd_of(s@),
{
    s.nfd().collect()
}

} // verus!
