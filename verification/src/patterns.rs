//! Searches by regular expression, as the `regex` crate makes them.
//!
//! Positions are counted in characters.
use regex::Regex;
use vstd::prelude::*;

verus! {

/// One match: where it starts and ends, and the text of each group that took
/// part in it, the whole match first.
#[derive(Debug)]
pub struct RegexMatch {
    pub start: usize,
    pub end: usize,
    pub groups: Vec<Option<String>>,
}

/// What a `RegexMatch` says.
#[verifier::ext_equal]
pub struct MatchView {
    pub start: usize,
    pub end: usize,
    pub groups: Seq<Option<Seq<char>>>,
}

impl DeepView for RegexMatch {
    type V = MatchView;

    open spec fn deep_view(&self) -> MatchView {
        MatchView { start: self.start, end: self.end, groups: self.groups.deep_view() }
    }
}

/// The first match of `pattern` in `text`, where there is one; `None` where the
/// pattern is no regular expression.
pub uninterp spec fn regex_first(pattern: Seq<char>, text: Seq<char>) -> Option<Option<MatchView>>;

/// The matches of `pattern` in `text` that do not overlap, from the left.
pub uninterp spec fn regex_all(pattern: Seq<char>, text: Seq<char>) -> Seq<MatchView>;

/// `text` with the first match of `pattern` replaced.
pub uninterp spec fn regex_replaced_first(
    pattern: Seq<char>,
    text: Seq<char>,
    with: Seq<char>,
) -> Seq<char>;

/// `text` with every match of `pattern` replaced.
pub uninterp spec fn regex_replaced_all(
    pattern: Seq<char>,
    text: Seq<char>,
    with: Seq<char>,
) -> Seq<char>;

/// `text` as a regular expression that matches it alone.
pub uninterp spec fn regex_escaped(text: Seq<char>) -> Seq<char>;

/// Whether a match lies in `text` and its first group is what it matched.
pub open spec fn lies_in(m: MatchView, text: Seq<char>) -> bool {
    m.start <= m.end <= text.len() && m.groups.len() > 0 && m.groups[0] == Some(
        text.subrange(m.start as int, m.end as int),
    )
}

/// `regex::Regex::captures`, with the pattern compiled by `regex::Regex::new`;
/// the outer `None` where that gives an error. A match lies in the text.
#[verifier::external_body]
pub(crate) fn find(pattern: &str, text: &str) -> (r: Option<Option<RegexMatch>>)
    ensures
        r.deep_view() == regex_first(pattern@, text@),
        match r {
            Some(Some(m)) => lies_in(m.deep_view(), text@),
            _ => true,
        },
{
    let re = Regex::new(pattern).ok()?;
    Some(re.captures(text).map(|caps| RegexMatch {
        start: text[..caps.get_match().start()].chars().count(),
        end: text[..caps.get_match().end()].chars().count(),
        groups: caps.iter().map(|g| g.map(|m| m.as_str().to_string())).collect(),
    }))
}

/// `regex::Regex::captures_iter`, with the pattern compiled by
/// `regex::Regex::new`; no match where that gives an error. Each match lies in
/// the text.
#[verifier::external_body]
pub(crate) fn find_all(pattern: &str, text: &str) -> (r: Vec<RegexMatch>)
    ensures
        r.deep_view() == regex_all(pattern@, text@),
        forall|i: int| 0 <= i < r@.len() ==> lies_in(#[trigger] r.deep_view()[i], text@),
{
    let Ok(re) = Regex::new(pattern) else { return Vec::new() };
    let found = re.captures_iter(text).map(|caps| RegexMatch {
        start: text[..caps.get_match().start()].chars().count(),
        end: text[..caps.get_match().end()].chars().count(),
        groups: caps.iter().map(|g| g.map(|m| m.as_str().to_string())).collect(),
    });
    found.collect()
}

/// `regex::Regex::replace`, with the pattern compiled by `regex::Regex::new`; the
/// text itself where that gives an error.
#[verifier::external_body]
pub(crate) fn replace_first(pattern: &str, text: &str, with: &str) -> (r: String)
    ensures
        r@ == regex_replaced_first(pattern@, text@, with@),
{
    match Regex::new(pattern) {
        Ok(re) => re.replace(text, with).into_owned(),
        Err(_) => text.to_string(),
    }
}

/// `regex::Regex::replace_all`, with the pattern compiled by `regex::Regex::new`;
/// the text itself where that gives an error.
#[verifier::external_body]
pub(crate) fn replace_all(pattern: &str, text: &str, with: &str) -> (r: String)
    ensures
        r@ == regex_replaced_all(pattern@, text@, with@),
{
    match Regex::new(pattern) {
        Ok(re) => re.replace_all(text, with).into_owned(),
        Err(_) => text.to_string(),
    }
}

/// `regex::escape`.
#[verifier::external_body]
pub(crate) fn escape(text: &str) -> (r: String)
    ensures
        r@ == regex_escaped(text@),
{
    regex::escape(text)
}

/// The text of a group; empty where the group took no part in the match.
pub open spec fn group_text(m: MatchView, i: int) -> Seq<char> {
    if 0 <= i < m.groups.len() && m.groups[i] is Some {
        m.groups[i]->0
    } else {
        Seq::empty()
    }
}

impl RegexMatch {
    /// The text of a group; empty where the group took no part in the match.
    pub fn group(&self, i: usize) -> (r: String)
        ensures
            r@ == group_text(self.deep_view(), i as int),
    {
        if i < self.groups.len() {
            assert(self.deep_view().groups[i as int] == self.groups@[i as int].deep_view());
            match &self.groups[i] {
                Some(t) => t.clone(),
                None => String::new(),
            }
        } else {
            String::new()
        }
    }
}

} // verus!
