//! Filters on paths: sets of regular expressions, matched with `regex`.
use regex::RegexSet;
use vstd::prelude::*;

use crate::config::texts;

verus! {

#[verifier::external_type_specification]
#[verifier::external_body]
pub struct ExRegexSet(regex::RegexSet);

#[verifier::external_type_specification]
#[verifier::external_body]
pub struct ExRegexError(regex::Error);

/// The patterns a `regex::RegexSet` was built from, in order.
pub uninterp spec fn regex_set_patterns(set: RegexSet) -> Seq<Seq<char>>;

/// Whether `regex` accepts all the patterns as one set (`RegexSet::new`).
pub uninterp spec fn spec_patterns_compile(patterns: Seq<Seq<char>>) -> bool;

/// Whether `regex` accepts `pattern` as one regular expression (`Regex::new`).
pub uninterp spec fn spec_pattern_compiles(pattern: Seq<char>) -> bool;

/// Whether the regular expression `pattern` matches somewhere in `text`.
pub uninterp spec fn spec_pattern_matches(pattern: Seq<char>, text: Seq<char>) -> bool;

/// Some pattern of the set matches somewhere in the text.
pub open spec fn spec_set_matches(patterns: Seq<Seq<char>>, text: Seq<char>) -> bool {
    exists|i: int| 0 <= i < patterns.len() && spec_pattern_matches(#[trigger] patterns[i], text)
}

/// Builds a set of regular expressions (`RegexSet::new`); it is built when
/// the named check accepts the patterns, and holds them.
#[verifier::external_body]
pub(crate) fn regex_set_new(patterns: &Vec<String>) -> (r: Result<RegexSet, regex::Error>)
    ensures
        r is Ok <==> spec_patterns_compile(texts(patterns@)),
        r matches Ok(s) ==> regex_set_patterns(s) == texts(patterns@),
{
    RegexSet::new(patterns)
}

/// Whether a regular expression is accepted (`Regex::new` gives `Ok`); the
/// answer is the named check on the pattern.
#[verifier::external_body]
pub(crate) fn regex_compiles(pattern: &str) -> (r: bool)
    ensures
        r == spec_pattern_compiles(pattern@),
{
    regex::Regex::new(pattern).is_ok()
}

/// Whether some pattern of the set matches somewhere in `text`
/// (`RegexSet::is_match`, which is true exactly when one of the patterns matches).
#[verifier::external_body]
pub(crate) fn regex_set_is_match(set: &RegexSet, text: &str) -> (r: bool)
    ensures
        r == (exists|i: int|
            0 <= i < regex_set_patterns(*set).len() && spec_pattern_matches(
                #[trigger] regex_set_patterns(*set)[i],
                text@,
            )),
{
    set.is_match(text)
}

} // verus!
