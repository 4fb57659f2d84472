//! The trusted bridge to the `regex` crate: compiled regexes and
//! regex sets are opaque values whose pattern text is named by
//! `re_pattern` / `rset_patterns`, and matching is named as a function
//! of pattern and haystack.

use vstd::prelude::*;

verus! {

#[verifier::external_type_specification]
#[verifier::external_body]
pub struct ExRegex(regex::Regex);

#[verifier::external_type_specification]
#[verifier::external_body]
pub struct ExRegexSet(regex::RegexSet);

/// The pattern text a compiled `regex::Regex` was built from.
pub uninterp spec fn re_pattern(r: regex::Regex) -> Seq<char>;

/// The pattern texts a compiled `regex::RegexSet` was built from, in
/// order.
pub uninterp spec fn rset_patterns(s: regex::RegexSet) -> Seq<Seq<char>>;

/// Whether `regex::Regex::new` accepts a pattern (it parses and stays
/// within the default size limit) — a function of the pattern text.
pub uninterp spec fn re_valid(pat: Seq<char>) -> bool;

/// Whether `regex::RegexSet::new` accepts a list of patterns — a
/// function of the pattern texts.
pub uninterp spec fn rset_valid(pats: Seq<Seq<char>>) -> bool;

/// Whether a pattern matches somewhere in a haystack, as
/// `regex::Regex::is_match` decides it.
pub uninterp spec fn re_match(pat: Seq<char>, text: Seq<char>) -> bool;

/// What `Regex::captures` followed by `Captures::get(1)` yields on a
/// haystack: `None` when the pattern does not match, `Some(None)` when
/// it matches but capture group 1 did not participate, and the group's
/// text otherwise.
pub uninterp spec fn re_capture1(pat: Seq<char>, text: Seq<char>) -> Option<Option<Seq<char>>>;

/// What `Regex::captures` followed by `Captures::name` yields for a
/// named group: `None` when the pattern does not match or the group
/// did not participate, the group's text otherwise.
pub uninterp spec fn re_capture_named(pat: Seq<char>, text: Seq<char>, group: Seq<char>) -> Option<
    Seq<char>,
>;

/// Relies on `regex::Regex::new`: compiles the pattern, failing
/// exactly on the patterns the crate rejects; the compiled value
/// carries the pattern it was built from.
#[verifier::external_body]
pub fn regex_new(pat: &str) -> (r: Result<regex::Regex, String>)
    ensures
        r is Ok <==> re_valid(pat@),
        r matches Ok(re) ==> re_pattern(re) == pat@,
{
    match regex::Regex::new(pat) {
        Ok(re) => Ok(re),
        Err(e) => Err(e.to_string()),
    }
}

/// Relies on `regex::RegexSet::new`: compiles all patterns into one
/// set, failing exactly when the crate rejects the list.
#[verifier::external_body]
pub fn regex_set_new(pats: &Vec<String>) -> (r: Result<regex::RegexSet, String>)
    ensures
        r is Ok <==> rset_valid(pats@.map_values(|p: String| p@)),
        r matches Ok(s) ==> rset_patterns(s) == pats@.map_values(|p: String| p@),
{
    match regex::RegexSet::new(pats) {
        Ok(s) => Ok(s),
        Err(e) => Err(e.to_string()),
    }
}

/// Relies on `regex::Regex::is_match`.
#[verifier::external_body]
pub fn regex_is_match(re: &regex::Regex, text: &str) -> (r: bool)
    ensures
        r == re_match(re_pattern(*re), text@),
{
    re.is_match(text)
}

/// Relies on `regex::RegexSet::matches` and `SetMatches::iter`: the
/// indices of the patterns that match the haystack, in ascending
/// order, each deciding exactly as the pattern's own `is_match` would.
#[verifier::external_body]
pub fn regex_set_matches(s: &regex::RegexSet, text: &str) -> (r: Vec<usize>)
    ensures
        forall|k: int| 0 <= k < r@.len() ==> #[trigger] r@[k] < rset_patterns(*s).len(),
        forall|k1: int, k2: int| 0 <= k1 < k2 < r@.len() ==> r@[k1] < r@[k2],
        forall|i: int|
            0 <= i < rset_patterns(*s).len() ==> (r@.contains(i as usize) <==> re_match(
                #[trigger] rset_patterns(*s)[i],
                text@,
            )),
{
    s.matches(text).iter().collect()
}

/// Relies on `regex::Regex::captures` and `Captures::get(1)`; the
/// distinction between no match, a match without group 1, and a
/// captured group follows the crate's API.
#[verifier::external_body]
pub fn regex_capture1(re: &regex::Regex, text: &str) -> (r: Option<Option<String>>)
    ensures
        match r {
            None => re_capture1(re_pattern(*re), text@) is None,
            Some(None) => re_capture1(re_pattern(*re), text@) == Some(None::<Seq<char>>),
            Some(Some(g)) => re_capture1(re_pattern(*re), text@) == Some(Some(g@)),
        },
{
    match re.captures(text) {
        Some(caps) => Some(caps.get(1).map(|m| m.as_str().to_string())),
        None => None,
    }
}

/// Relies on `regex::Regex::captures` and `Captures::name`: the text
/// of the named capture group when the pattern matches and the group
/// participates.
#[verifier::external_body]
pub fn regex_capture_named(re: &regex::Regex, text: &str, group: &str) -> (r: Option<String>)
    ensures
        match r {
            None => re_capture_named(re_pattern(*re), text@, group@) is None,
            Some(g) => re_capture_named(re_pattern(*re), text@, group@) == Some(g@),
        },
{
    match re.captures(text) {
        Some(caps) => caps.name(group).map(|m| m.as_str().to_string()),
        None => None,
    }
}

} // verus!
