//! Regular expressions, by the `regex` crate.

use vstd::prelude::*;

verus! {

/// `regex::Regex`: a compiled pattern, carried through as it is.
#[verifier::external_type_specification]
#[verifier::external_body]
pub struct ExRegex(regex::Regex);

/// Whether `regex::Regex::new` accepts the pattern.
pub uninterp spec fn pattern_compiles(pattern: Seq<char>) -> bool;

/// The pattern that a compiled pattern was made from.
pub uninterp spec fn pattern_of(compiled: regex::Regex) -> Seq<char>;

/// What `regex::Regex::replace_all` makes of a text: the text with each
/// match of the pattern replaced.
pub uninterp spec fn all_replaced(
    pattern: Seq<char>,
    text: Seq<char>,
    replacement: Seq<char>,
) -> Seq<char>;

/// What `regex::Regex::is_match` says of a text: whether the pattern
/// matches somewhere in it.
pub uninterp spec fn pattern_matches(pattern: Seq<char>, text: Seq<char>) -> bool;

/// `regex::Regex::new`: the pattern compiled, or `None` where it is
/// refused.
#[verifier::external_body]
pub(crate) fn compile(pattern: &str) -> (compiled: Option<regex::Regex>)
    ensures
        compiled is Some <==> pattern_compiles(pattern@),
        compiled matches Some(found) ==> pattern_of(found) == pattern@,
{
    match regex::Regex::new(pattern) {
        Ok(found) => Some(found),
        Err(_) => None,
    }
}

/// `regex::Regex::replace_all`: `text` with each match of the pattern
/// replaced by `replacement`.
#[verifier::external_body]
pub(crate) fn replace_all(compiled: &regex::Regex, text: &str, replacement: &str) -> (replaced:
    String)
    ensures
        replaced@ == all_replaced(pattern_of(*compiled), text@, replacement@),
{
    compiled.replace_all(text, replacement).into_owned()
}

/// `regex::Regex::is_match`: whether the pattern matches somewhere in
/// `text`.
#[verifier::external_body]
pub(crate) fn is_match(compiled: &regex::Regex, text: &str) -> (matched: bool)
    ensures
        matched == pattern_matches(pattern_of(*compiled), text@),
{
    compiled.is_match(text)
}

} // verus!
