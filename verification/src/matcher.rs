//! Request predicates shared by every rule engine: an optional method that
//! must equal the request method, and a URL pattern interpreted by one of
//! five match kinds.
use vstd::prelude::*;

use crate::strutil::{
    chars_contains, chars_ends_with, chars_starts_with, chars_vec, ends_with, has_substring,
    starts_with, str_eq,
};

verus! {

/// How a rule's `url_pattern` is applied to the request URL.
#[derive(Clone, Copy, Debug, PartialEq, Eq, Structural)]
pub enum MatchType {
    Exact,
    Contains,
    Regex,
    StartsWith,
    EndsWith,
}

/// Whether the pattern compiles as a regular expression
/// (`regex::Regex::new` succeeds on it).
pub uninterp spec fn regex_ok(pattern: Seq<char>) -> bool;

/// What `regex::Regex::is_match` returns for a compiled pattern on a text.
pub uninterp spec fn regex_match(pattern: Seq<char>, text: Seq<char>) -> bool;

/// Relies on `regex::Regex::new` and `regex::Regex::is_match`: whether the
/// pattern compiles, and whether it matches the text, are functions of the
/// two strings alone; a pattern that does not compile matches nothing.
#[verifier::external_body]
pub(crate) fn regex_is_match(pattern: &str, text: &str) -> (r: bool)
    ensures
        r == (regex_ok(pattern@) && regex_match(pattern@, text@)),
{
    match regex::Regex::new(pattern) {
        Ok(re) => re.is_match(text),
        Err(_) => false,
    }
}

/// The URL part of a predicate: dispatch on the match kind. A regex pattern
/// that does not compile matches no URL.
pub open spec fn url_matches(mt: MatchType, pattern: Seq<char>, url: Seq<char>) -> bool {
    match mt {
        MatchType::Exact => url == pattern,
        MatchType::Contains => has_substring(url, pattern),
        MatchType::StartsWith => starts_with(url, pattern),
        MatchType::EndsWith => ends_with(url, pattern),
        MatchType::Regex => regex_ok(pattern) && regex_match(pattern, url),
    }
}

/// The method part of a predicate: a rule without a method accepts any;
/// one with a method requires case-sensitive equality.
pub open spec fn method_matches(rule_method: Option<Seq<char>>, method: Seq<char>) -> bool {
    match rule_method {
        Some(m) => m == method,
        None => true,
    }
}

/// A whole predicate: method and URL pattern together.
pub open spec fn predicate_holds(
    rule_method: Option<Seq<char>>,
    mt: MatchType,
    pattern: Seq<char>,
    method: Seq<char>,
    url: Seq<char>,
) -> bool {
    method_matches(rule_method, method) && url_matches(mt, pattern, url)
}

/// Evaluates the URL part of a predicate.
pub fn matches_url(mt: MatchType, pattern: &str, url: &str) -> (r: bool)
    ensures
        r == url_matches(mt, pattern@, url@),
{
    match mt {
        MatchType::Exact => str_eq(url, pattern),
        MatchType::Contains => {
            let u = chars_vec(url);
            let p = chars_vec(pattern);
            chars_contains(&u, &p)
        },
        MatchType::StartsWith => {
            let u = chars_vec(url);
            let p = chars_vec(pattern);
            chars_starts_with(&u, &p)
        },
        MatchType::EndsWith => {
            let u = chars_vec(url);
            let p = chars_vec(pattern);
            chars_ends_with(&u, &p)
        },
        MatchType::Regex => regex_is_match(pattern, url),
    }
}

/// Evaluates a whole predicate against a request.
pub fn predicate_matches(
    rule_method: &Option<String>,
    mt: MatchType,
    pattern: &str,
    method: &str,
    url: &str,
) -> (r: bool)
    ensures
        r == predicate_holds(view_method(rule_method), mt, pattern@, method@, url@),
{
    match rule_method {
        Some(m) => {
            if !str_eq(m.as_str(), method) {
                return false;
            }
        },
        None => {},
    }
    matches_url(mt, pattern, url)
}

/// The view of an optional method string.
pub open spec fn view_method(m: &Option<String>) -> Option<Seq<char>> {
    match m {
        Some(s) => Some(s@),
        None => None,
    }
}

/// An `exact` predicate accepts a URL equal to its pattern.
pub proof fn lemma_exact_match(pattern: Seq<char>, url: Seq<char>)
    requires
        url == pattern,
    ensures
        url_matches(MatchType::Exact, pattern, url),
{
}

/// The `contains`, `starts_with` and `ends_with` kinds hold exactly when the
/// corresponding substring relation between URL and pattern holds.
pub proof fn lemma_relational_match(pattern: Seq<char>, url: Seq<char>)
    ensures
        url_matches(MatchType::Contains, pattern, url) == has_substring(url, pattern),
        url_matches(MatchType::StartsWith, pattern, url) == starts_with(url, pattern),
        url_matches(MatchType::EndsWith, pattern, url) == ends_with(url, pattern),
{
}

/// A regex pattern that does not compile matches no URL at all.
pub proof fn lemma_invalid_regex_never_matches(pattern: Seq<char>, url: Seq<char>)
    requires
        !regex_ok(pattern),
    ensures
        !url_matches(MatchType::Regex, pattern, url),
{
}

} // verus!
