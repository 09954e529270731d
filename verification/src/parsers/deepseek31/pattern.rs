//! The pattern of a call in a stream, which may still be incomplete.
use super::{TOOL_CALL_BEGIN, TOOL_SEP};
use crate::text::search::{first_occurrence, last_occurrence};
use regex::Regex;
use vstd::prelude::*;

verus! {

/// The beginning of a call, its name up to the separator, and what follows.
pub const PARTIAL_TOOL_CALL: &'static str = "(?s)<｜tool▁call▁begin｜>(.*)<｜tool▁sep｜>(.*)";

/// The regular expression of `regex`.
#[verifier::external_type_specification]
#[verifier::external_body]
pub struct ExRegex(regex::Regex);

/// The pattern that a [`regex::Regex`] was made of.
pub uninterp spec fn pattern_of(regex: regex::Regex) -> Seq<char>;

/// The two groups of [`PARTIAL_TOOL_CALL`] in `text`: what stands between the first beginning
/// of a call and the last separator behind it, and what stands behind that separator.
pub open spec fn partial_call(text: Seq<char>) -> Option<(Seq<char>, Seq<char>)> {
    match first_occurrence(text, TOOL_CALL_BEGIN@) {
        Some(i) => {
            let after = text.skip(i + TOOL_CALL_BEGIN@.len());
            match last_occurrence(after, TOOL_SEP@) {
                Some(j) => Some((after.take(j), after.skip(j + TOOL_SEP@.len()))),
                None => None,
            }
        },
        None => None,
    }
}

/// `regex::Regex::new`: the regular expression of a pattern. The pattern
/// [`PARTIAL_TOOL_CALL`] is a valid one; of which other patterns are, nothing is said.
#[verifier::external_body]
pub(crate) fn compile(pattern: &str) -> (r: Option<Regex>)
    ensures
        r matches Some(regex) ==> pattern_of(regex) == pattern@,
        pattern@ == PARTIAL_TOOL_CALL@ ==> r is Some,
{
    Regex::new(pattern).ok()
}

/// `regex::Regex::captures` with [`PARTIAL_TOOL_CALL`]: the two groups of the leftmost match.
/// A dot stands for any character, a line break too, and the first group is as long as it can
/// be.
#[verifier::external_body]
pub(crate) fn captures<'a>(regex: &Regex, text: &'a str) -> (r: Option<(&'a str, &'a str)>)
    requires
        pattern_of(*regex) == PARTIAL_TOOL_CALL@,
    ensures
        match r {
            Some((name, arguments)) => partial_call(text@) == Some((name@, arguments@)),
            None => partial_call(text@) is None,
        },
{
    regex.captures(text).map(
        |c| (c.get(1).map_or("", |m| m.as_str()), c.get(2).map_or("", |m| m.as_str())),
    )
}

} // verus!
