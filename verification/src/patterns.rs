//! Regular expressions.

use vstd::prelude::*;

verus! {

/// A compiled regular expression.
#[verifier::external_type_specification]
#[verifier::external_body]
pub struct ExRegex(regex::Regex);

/// The text of a regular expression, as `regex::Regex::as_str` gives it.
pub uninterp spec fn pattern_of(pattern: regex::Regex) -> Seq<char>;

/// Why a text is no regular expression, if so.
pub uninterp spec fn pattern_problem(pattern: Seq<char>) -> Option<Seq<char>>;

/// Whether a regular expression matches somewhere in a text.
pub uninterp spec fn pattern_matches(pattern: Seq<char>, text: Seq<char>) -> bool;

/// What is left of a text without the matches of a regular expression.
pub uninterp spec fn pattern_removed(pattern: Seq<char>, text: Seq<char>) -> Seq<char>;

/// The groups of the first match of a regular expression in a text, the whole match first.
pub uninterp spec fn pattern_groups(pattern: Seq<char>, text: Seq<char>) -> Option<
    Seq<Option<Seq<char>>>,
>;

/// Compiles a regular expression with `regex::Regex::new`, which keeps its text. Which texts
/// are regular expressions is left to that function.
#[verifier::external_body]
pub(crate) fn compile(pattern: &str) -> (r: Result<regex::Regex, String>)
    ensures
        match r {
            Ok(compiled) => pattern_problem(pattern@) is None && pattern_of(compiled) == pattern@,
            Err(message) => pattern_problem(pattern@) == Some(message@),
        },
{
    regex::Regex::new(pattern).map_err(|error| error.to_string())
}

/// Looks for a match with `regex::Regex::is_match`. What matches is left to that function.
#[verifier::external_body]
pub(crate) fn matches(pattern: &regex::Regex, text: &str) -> (r: bool)
    ensures
        r == pattern_matches(pattern_of(*pattern), text@),
{
    pattern.is_match(text)
}

/// Removes all matches, which do not overlap, with `regex::Regex::replace_all`. What stands
/// between the matches is kept, so that the result holds no character that the text does not
/// hold. What matches is left to that function.
#[verifier::external_body]
pub(crate) fn remove_matches(pattern: &regex::Regex, text: &str) -> (r: String)
    ensures
        r@ == pattern_removed(pattern_of(*pattern), text@),
        forall|c: char| #[trigger] r@.contains(c) ==> text@.contains(c),
{
    pattern.replace_all(text, "").into_owned()
}

/// Finds the groups of the first match with `regex::Regex::captures`; a group that takes no
/// part in the match is absent. What matches is left to that function.
#[verifier::external_body]
pub(crate) fn groups(pattern: &regex::Regex, text: &str) -> (r: Option<Vec<Option<String>>>)
    ensures
        r.deep_view() == pattern_groups(pattern_of(*pattern), text@),
{
    let found = pattern.captures(text)?;
    Some(found.iter().map(|group| group.map(|part| part.as_str().to_string())).collect())
}

} // verus!
