//! The boundary to the `regex` crate.
//!
//! Matching against a regular expression is far too large to restate here, so
//! its outcomes get names: `regex_ok` (whether a pattern compiles),
//! `regex_match` (whether a pattern matches a haystack) and `regex_capture`
//! (the text of one capture group). All three depend only on their arguments:
//! the `regex` crate computes them from the pattern and haystack alone.

use vstd::prelude::*;

verus! {

/// Whether `regex::Regex::new` accepts the pattern.
pub uninterp spec fn regex_ok(pattern: Seq<char>) -> bool;

/// Whether the pattern matches somewhere in the haystack.
pub uninterp spec fn regex_match(pattern: Seq<char>, haystack: Seq<char>) -> bool;

/// The text captured by group `i` on the leftmost match of the pattern in the
/// haystack: `None` when there is no match, the group does not exist, or the
/// group did not participate; group `0` is the whole match.
pub uninterp spec fn regex_capture(pattern: Seq<char>, haystack: Seq<char>, i: int) -> Option<
    Seq<char>,
>;

/// Relies on `regex::Regex::new`: it returns `Ok` exactly on the patterns the
/// crate accepts.
#[verifier::external_body]
pub fn regex_compiles(pattern: &str) -> (r: bool)
    ensures
        r == regex_ok(pattern@),
{
    regex::Regex::new(pattern).is_ok()
}

/// Relies on `regex::Regex::is_match` (after `regex::Regex::new`): whether the
/// pattern matches somewhere in the haystack, a function of the two strings.
#[verifier::external_body]
pub fn re_is_match(pattern: &str, haystack: &str) -> (r: bool)
    requires
        regex_ok(pattern@),
    ensures
        r == regex_match(pattern@, haystack@),
{
    regex::Regex::new(pattern).unwrap().is_match(haystack)
}

/// Relies on `regex::Regex::captures` and `regex::Captures::get` (after
/// `regex::Regex::new`): the text of capture group `i` on the leftmost match.
/// The crate documents that `captures` returns `Some` exactly when the pattern
/// matches, and that group `0` always participates in a match.
#[verifier::external_body]
pub fn re_capture(pattern: &str, haystack: &str, i: usize) -> (r: Option<String>)
    requires
        regex_ok(pattern@),
    ensures
        match r {
            Some(s) => regex_capture(pattern@, haystack@, i as int) == Some(s@),
            None => regex_capture(pattern@, haystack@, i as int) is None,
        },
        i == 0 ==> (r is Some <==> regex_match(pattern@, haystack@)),
{
    let re = regex::Regex::new(pattern).unwrap();
    match re.captures(haystack) {
        None => None,
        Some(caps) => match caps.get(i) {
            None => None,
            Some(m) => Some(m.as_str().to_string()),
        },
    }
}

} // verus!
