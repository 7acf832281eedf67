//! The pattern-matching capability consumed by Substitute and Global.
//!
//! Matching is delegated to the `regex` crate and is not re-implemented
//! here; each operation is named by an uninterpreted function of its
//! inputs, which is sound because the crate's behaviour depends on the
//! pattern, the flags and the haystack alone.

use vstd::prelude::*;

verus! {

/// Whether `pat` compiles as a regular expression (with or without the
/// case-insensitive flag).
pub uninterp spec fn regex_builds(pat: Seq<char>, ci: bool) -> bool;

/// Whether the compiled pattern matches somewhere in `text`.
pub uninterp spec fn regex_matches(pat: Seq<char>, ci: bool, text: Seq<char>) -> bool;

/// `text` with the leftmost match replaced by `rep`.
pub uninterp spec fn replace_first_of(pat: Seq<char>, ci: bool, rep: Seq<char>, text: Seq<char>) -> Seq<char>;

/// `text` with every non-overlapping match replaced by `rep`.
pub uninterp spec fn replace_all_of(pat: Seq<char>, ci: bool, rep: Seq<char>, text: Seq<char>) -> Seq<char>;

/// Whether `pat` compiles.
///
/// Relies on `regex::RegexBuilder::build`: success is determined by the
/// pattern text and the flags alone.
#[verifier::external_body]
pub(crate) fn regex_ok(pat: &str, ci: bool) -> (r: bool)
    ensures
        r == regex_builds(pat@, ci),
{
    regex::RegexBuilder::new(pat).case_insensitive(ci).build().is_ok()
}

/// Whether the pattern matches somewhere in `text`.
///
/// Relies on `regex::Regex::is_match`: a deterministic function of the
/// compiled pattern and the haystack.
#[verifier::external_body]
pub(crate) fn regex_is_match(pat: &str, ci: bool, text: &str) -> (r: bool)
    requires
        regex_builds(pat@, ci),
    ensures
        r == regex_matches(pat@, ci, text@),
{
    let re = regex::RegexBuilder::new(pat).case_insensitive(ci).build().expect("checked");
    re.is_match(text)
}

/// Replace the leftmost match in `text` by `rep`.
///
/// Relies on `regex::Regex::replace`: a deterministic function of the
/// compiled pattern, the replacement and the haystack; with no match the
/// haystack is returned unchanged.
#[verifier::external_body]
pub(crate) fn regex_replace_first(pat: &str, ci: bool, rep: &str, text: &str) -> (r: String)
    requires
        regex_builds(pat@, ci),
    ensures
        r@ == replace_first_of(pat@, ci, rep@, text@),
{
    let re = regex::RegexBuilder::new(pat).case_insensitive(ci).build().expect("checked");
    re.replace(text, rep).to_string()
}

/// Replace every non-overlapping match in `text` by `rep`.
///
/// Relies on `regex::Regex::replace_all`: a deterministic function of the
/// compiled pattern, the replacement and the haystack.
#[verifier::external_body]
pub(crate) fn regex_replace_all(pat: &str, ci: bool, rep: &str, text: &str) -> (r: String)
    requires
        regex_builds(pat@, ci),
    ensures
        r@ == replace_all_of(pat@, ci, rep@, text@),
{
    let re = regex::RegexBuilder::new(pat).case_insensitive(ci).build().expect("checked");
    re.replace_all(text, rep).to_string()
}

} // verus!
