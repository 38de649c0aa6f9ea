//! Finding entries by keyword, through the `regex` crate.

use vstd::prelude::*;
use crate::format::tag_separator;
use crate::read_later_list::{LinkEntry, LinkView};
use crate::text::join;

verus! {

/// The characters that have a meaning of their own in a pattern.
pub open spec fn is_meta(c: char) -> bool {
    c == '\\' || c == '.' || c == '+' || c == '*' || c == '?' || c == '(' || c == ')' || c == '|'
        || c == '[' || c == ']' || c == '{' || c == '}' || c == '^' || c == '$' || c == '#' || c
        == '&' || c == '-' || c == '~'
}

/// A pattern that matches `text` literally: each meta character with a backslash in
/// front of it, every other character as it is.
pub open spec fn escaped(text: Seq<char>) -> Seq<char>
    decreases text.len(),
{
    if text.len() == 0 {
        Seq::empty()
    } else {
        let before = escaped(text.drop_last());
        let c = text.last();
        if is_meta(c) {
            before + seq!['\\', c]
        } else {
            before.push(c)
        }
    }
}

/// Whether the pattern compiles case-insensitively within the builder's default limits.
pub uninterp spec fn builds_ignoring_case(pattern: Seq<char>) -> bool;

/// Whether the pattern, compiled case-insensitively, matches somewhere in the text.
pub uninterp spec fn matches_ignoring_case(pattern: Seq<char>, text: Seq<char>) -> bool;

/// Relies on `regex::escape`: each meta character of `text` gets a backslash in front
/// of it, every other character is copied.
#[verifier::external_body]
fn escape(text: &str) -> (r: String)
    ensures
        r@ == escaped(text@),
{
    regex::escape(text)
}

/// Relies on `regex::RegexBuilder` (`new`, `case_insensitive(true)`, `build`) and
/// `Regex::is_match`: whether the case-insensitive pattern matches somewhere in `text`.
/// `build` fails, giving `None`, where the pattern is invalid or over the size limits;
/// that depends on the pattern alone.
#[verifier::external_body]
fn find_ignoring_case(pattern: &str, text: &str) -> (r: Option<bool>)
    ensures
        r is Some <==> builds_ignoring_case(pattern@),
        r matches Some(b) ==> b == matches_ignoring_case(pattern@, text@),
{
    match regex::RegexBuilder::new(pattern).case_insensitive(true).build() {
        Ok(re) => Some(re.is_match(text)),
        Err(_) => None,
    }
}

/// Whether `keyword`, taken literally and without regard to case, occurs in `text`.
pub open spec fn keyword_in(keyword: Seq<char>, text: Seq<char>) -> bool {
    matches_ignoring_case(escaped(keyword), text)
}

/// Whether `keyword` occurs in the entry's url, its title, or its tags joined by `", "`.
pub open spec fn entry_matches(keyword: Seq<char>, e: LinkView) -> bool {
    keyword_in(keyword, e.url) || keyword_in(keyword, e.title) || keyword_in(
        keyword,
        join(e.tags, tag_separator()),
    )
}

impl LinkEntry {
    /// Whether `keyword` occurs in the entry, as `entry_matches` says; `None` where the
    /// keyword could not be made into a pattern.
    pub fn matches_keyword(&self, keyword: &str) -> (r: Option<bool>)
        ensures
            r is Some <==> builds_ignoring_case(escaped(keyword@)),
            r matches Some(b) ==> b == entry_matches(keyword@, self@),
    {
        let pattern = escape(keyword);
        let in_url = find_ignoring_case(pattern.as_str(), self.url.as_str());
        let in_title = find_ignoring_case(pattern.as_str(), self.title.as_str());
        let tags = self.joined_tags();
        let in_tags = find_ignoring_case(pattern.as_str(), tags.as_str());
        match (in_url, in_title, in_tags) {
            (Some(a), Some(b), Some(c)) => Some(a || b || c),
            _ => None,
        }
    }
}

} // verus!
