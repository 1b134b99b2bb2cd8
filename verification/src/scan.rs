//! Finding the placeholders in a text.
//!
//! The search itself is the work of the `regex` crate. What is known of its
//! outcome is gathered here: the name under which the contracts speak of it,
//! and the shape that every outcome has.

use regex::Regex;
use vstd::prelude::*;

use crate::text::is_range;

verus! {

/// One occurrence of a pattern in a text, by byte offsets into the text.
#[derive(Clone, Copy, Debug, PartialEq, Eq)]
pub struct Capture {
    /// Where the occurrence begins.
    pub start: usize,
    /// Where the occurrence ends: the offset behind its last byte.
    pub end: usize,
    /// Where the named group of the pattern begins and ends in this
    /// occurrence, if the group took part in it.
    pub group: Option<(usize, usize)>,
}

/// The pattern of a placeholder: the opening `{{#path_for `, then the
/// reference, as short as it can be and at least one character long, then the
/// closing `}}`.
pub open spec fn placeholder_pattern() -> Seq<char> {
    r"\{\{#path_for (?P<file>.+?)}}"@
}

/// The name of the group that holds the reference in
/// [`placeholder_pattern`].
pub open spec fn placeholder_group() -> Seq<char> {
    "file"@
}

/// The occurrences of `pattern` that the `regex` crate finds in `content`,
/// from left to right, each with the range of the group named `group`.
pub uninterp spec fn captures_of(pattern: Seq<char>, group: Seq<char>, content: Seq<char>) -> Seq<Capture>;

/// Whether `captures` can be occurrences of a pattern in `content`: every
/// occurrence and every group is a range of `content` between two character
/// boundaries, and no occurrence begins before the one to its left has
/// ended.
pub open spec fn captures_fit(content: Seq<char>, captures: Seq<Capture>) -> bool {
    &&& forall|i: int|
        0 <= i < captures.len() ==> is_range(
            content,
            (#[trigger] captures[i]).start as int,
            captures[i].end as int,
        )
    &&& forall|i: int|
        0 <= i < captures.len() ==> match (#[trigger] captures[i]).group {
            Some((from, to)) => is_range(content, from as int, to as int),
            None => true,
        }
    &&& forall|i: int, j: int|
        0 <= i < j < captures.len() ==> (#[trigger] captures[i]).end <= (
        #[trigger] captures[j]).start
}

/// Searches `content` for `pattern` with `regex::Regex::new` and
/// `Regex::captures_iter`, and hands out the offsets of each occurrence
/// (`Captures::get` of 0) and of the group named `group` in it
/// (`Captures::name`).
///
/// Believed of the crate, not proved: the search is a function of the
/// pattern and the text alone, so its outcome has a name; the occurrences
/// come from left to right and do not overlap; and every offset lies on a
/// character boundary of the text, the start of a range not behind its end.
/// The pattern is held to the one of the placeholders, which the crate
/// accepts.
#[verifier::external_body]
pub(crate) fn find_captures(pattern: &str, group: &str, content: &str) -> (found: Vec<Capture>)
    requires
        pattern@ == placeholder_pattern(),
    ensures
        found@ == captures_of(pattern@, group@, content@),
        captures_fit(content@, found@),
{
    let matcher = Regex::new(pattern).unwrap();
    matcher
        .captures_iter(content)
        .map(|c| Capture {
            start: c.get(0).unwrap().start(),
            end: c.get(0).unwrap().end(),
            group: c.name(group).map(|m| (m.start(), m.end())),
        })
        .collect()
}

} // verus!
