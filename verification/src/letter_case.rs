//! Unicode case mapping, done by the standard library.
use vstd::prelude::*;

verus! {

/// What `str::to_lowercase` returns for a string with the characters `s`:
/// each character mapped by the Unicode lowercase tables (one character may
/// become several).
pub uninterp spec fn lowercase(s: Seq<char>) -> Seq<char>;

/// What `str::to_uppercase` returns for a string with the characters `s`:
/// each character mapped by the Unicode uppercase tables (one character may
/// become several).
pub uninterp spec fn uppercase(s: Seq<char>) -> Seq<char>;

/// Calls `str::to_lowercase`; the contract only names its result, by the
/// characters of the argument, since the Unicode tables are not stated here.
#[verifier::external_body]
pub(crate) fn to_lowercase(s: &str) -> (r: String)
    ensures
        r@ == lowercase(s@),
{
    s.to_lowercase()
}

/// Calls `str::to_uppercase`; the contract only names its result, by the
/// characters of the argument, since the Unicode tables are not stated here.
#[verifier::external_body]
pub(crate) fn to_uppercase(s: &str) -> (r: String)
    ensures
        r@ == uppercase(s@),
{
    s.to_uppercase()
}

} // verus!
