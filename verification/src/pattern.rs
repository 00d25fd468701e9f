//! Matching text against regular expressions.

use regex::Regex;
use vstd::prelude::*;

verus! {

/// What the `regex` crate captures as group `group` on the leftmost match of
/// `pattern` in `text`: `None` when the pattern is not a valid expression,
/// does not match, or the group took no part in the match.
pub uninterp spec fn regex_capture(pattern: Seq<char>, text: Seq<char>, group: int) -> Option<
    Seq<char>,
>;

/// The characters of an optional text.
pub open spec fn text_view(text: Option<String>) -> Option<Seq<char>> {
    match text {
        Some(t) => Some(t@),
        None => None,
    }
}

/// Matches a regular expression and hands out one capture group.
///
/// Trusted: calls `Regex::new`, `Regex::captures`, `Captures::get` and
/// `Match::as_str` of the `regex` crate. The contract only names the result.
#[verifier::external_body]
pub(crate) fn capture_group(pattern: &str, text: &str, group: usize) -> (r: Option<String>)
    ensures
        text_view(r) == regex_capture(pattern@, text@, group as int),
{
    Regex::new(pattern).ok().and_then(
        |re| re.captures(text).and_then(|found| found.get(group).map(|m| m.as_str().to_string())),
    )
}

} // verus!
