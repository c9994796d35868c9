//! What the library asks of the regex engines.
use crate::byte_text::fits;
use crate::rope::slice_text;
use regex::Regex;
use ropey::RopeSlice;
use std::ops::Range;
use vstd::prelude::*;

verus! {

#[verifier::external_type_specification]
#[verifier::external_body]
pub struct ExRegex(regex::Regex);

#[verifier::external_type_specification]
#[verifier::external_body]
pub struct ExRegexError(regex::Error);

/// The bytes of the first group of the first match of a pattern in a text. There are none where the
/// pattern is not a regular expression, where it matches nowhere, and where the group takes no part
/// in the match.
pub uninterp spec fn first_group_span(pattern: Seq<char>, text: Seq<char>) -> Option<Range<usize>>;

/// `regex_cursor::engines::meta::Regex::captures_iter`: the first group of its first item.
#[verifier::external_body]
pub(crate) fn find_first_group(pattern: &str, text: RopeSlice<'_>) -> (span: Option<Range<usize>>)
    ensures
        span == first_group_span(pattern@, slice_text(text)),
{
    let regex = regex_cursor::engines::meta::Regex::new(pattern).ok()?;
    let captures = regex.captures_iter(regex_cursor::Input::new(text)).next()?;
    captures.get_group(1).map(|group| group.range())
}

/// The regular expression that a pattern stands for, or why it stands for none.
pub uninterp spec fn regex_of(pattern: Seq<char>) -> Result<Regex, regex::Error>;

/// `regex::Regex::new`.
#[verifier::external_body]
pub(crate) fn compile_regex(pattern: &str) -> (res: Result<Regex, regex::Error>)
    ensures
        res == regex_of(pattern@),
{
    Regex::new(pattern)
}

/// The first and the last byte of each match of a regular expression in a text.
pub uninterp spec fn match_spans(regex: Regex, text: Seq<char>) -> Seq<(usize, usize)>;

/// `regex::Regex::find_iter`: where the matches are. No match ends before it starts.
#[verifier::external_body]
pub(crate) fn find_spans(regex: &Regex, text: &str) -> (spans: Vec<(usize, usize)>)
    ensures
        spans@ == match_spans(*regex, text@),
        forall|i: int| 0 <= i < spans.len() ==> (#[trigger] spans@[i]).0 <= spans@[i].1,
{
    regex.find_iter(text).map(|found| (found.start(), found.end())).collect()
}

/// A match and the group in it, by their bytes.
#[derive(Debug, Clone, Copy, PartialEq, Eq)]
pub struct GroupMatch {
    pub start: usize,
    pub end: usize,
    /// The first group, if it takes part in the match.
    pub group: Option<(usize, usize)>,
}

/// The matches of a regular expression in a text, with their first groups.
pub uninterp spec fn group_matches(regex: Regex, text: Seq<char>) -> Seq<GroupMatch>;

/// Whether matches lie at characters of a text, one behind the other, with their groups inside.
pub open spec fn lie_apart(matches: Seq<GroupMatch>, text: Seq<char>) -> bool {
    &&& forall|i: int|
        0 <= i < matches.len() ==> fits(
            text,
            (#[trigger] matches[i]).start as int,
            matches[i].end as int,
        )
    &&& forall|i: int, j: int|
        0 <= i < j < matches.len() ==> (#[trigger] matches[i]).end <= (#[trigger] matches[j]).start
    &&& forall|i: int|
        0 <= i < matches.len() ==> ((#[trigger] matches[i]).group matches Some(group) ==> fits(
            text,
            group.0 as int,
            group.1 as int,
        ))
}

/// `regex::Regex::captures_iter`: the matches and their first groups. Matches do not overlap, and
/// all positions lie between characters.
#[verifier::external_body]
pub(crate) fn find_groups(regex: &Regex, text: &str) -> (matches: Vec<GroupMatch>)
    ensures
        matches@ == group_matches(*regex, text@),
        lie_apart(matches@, text@),
{
    let plain = |captures: regex::Captures<'_>| {
        let found = captures.get_match();
        let group = captures.get(1).map(|group| (group.start(), group.end()));
        GroupMatch { start: found.start(), end: found.end(), group }
    };
    regex.captures_iter(text).map(plain).collect()
}

} // verus!
