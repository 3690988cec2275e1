//! The two text operations the catalog relies on: trimming and lowercasing.
use vstd::prelude::*;

verus! {

/// What `str::trim` returns for a string: the string without leading and
/// trailing whitespace.
pub uninterp spec fn trim_of(s: Seq<char>) -> Seq<char>;

/// What `str::to_lowercase` returns for a string.
pub uninterp spec fn lower_of(s: Seq<char>) -> Seq<char>;

/// Relies on `str::trim`: the result depends on the characters of `s` alone.
#[verifier::external_body]
pub(crate) fn trim_str(s: &str) -> (r: &str)
    ensures
        r@ == trim_of(s@),
{
    s.trim()
}

/// Relies on `str::to_lowercase`: the result depends on the characters of `s`
/// alone.
#[verifier::external_body]
pub(crate) fn lowercase(s: &str) -> (r: String)
    ensures
        r@ == lower_of(s@),
{
    s.to_lowercase()
}

/// The trimmed copy of `s`.
pub fn trimmed(s: &str) -> (r: String)
    ensures
        r@ == trim_of(s@),
{
    trim_str(s).to_owned()
}

/// The lookup key of `s`: trimmed, then lowercased.
pub fn lookup_key(s: &str) -> (r: String)
    ensures
        r@ == lower_of(trim_of(s@)),
{
    lowercase(trim_str(s))
}

} // verus!
