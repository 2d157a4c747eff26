//! The pattern matcher that the scanner searches with: regular expressions of
//! the `regex` crate. Nothing here is proved; the scanner's contracts rest on
//! what this file states of the matcher.

use regex::Regex;
use vstd::prelude::*;
use vstd::string::*;
use vstd::utf8::*;

verus! {

/// A compiled regular expression. Verus carries it through and sees nothing
/// inside it.
#[verifier::external_type_specification]
#[verifier::external_body]
pub struct ExRegex(regex::Regex);

/// Start and end, as byte offsets into the haystack, of the first match that
/// `Regex::find` reports for `re` in `haystack`; `None` where it reports none.
pub uninterp spec fn first_match(re: Regex, haystack: Seq<char>) -> Option<(usize, usize)>;

/// The text that `re` was compiled from, as `Regex::as_str` gives it.
pub uninterp spec fn pattern_text(re: Regex) -> Seq<char>;

/// Calls `Regex::find` and hands out the offsets of the match it returns.
///
/// Assumed of `Regex::find`: the outcome depends on the expression and the
/// haystack alone, and the end of a match lies within the haystack, on a
/// character boundary.
#[verifier::external_body]
pub(crate) fn find_first(re: &Regex, haystack: &str) -> (found: Option<(usize, usize)>)
    ensures
        found == first_match(*re, haystack@),
        found matches Some(span) ==> span.1 <= haystack.spec_bytes().len() && is_char_boundary(
            haystack.spec_bytes(),
            span.1 as int,
        ),
{
    match re.find(haystack) {
        Some(m) => Some((m.start(), m.end())),
        None => None,
    }
}

/// Calls `Regex::as_str`.
///
/// Assumed of `Regex::as_str`: what it returns depends on the expression
/// alone.
#[verifier::external_body]
pub(crate) fn pattern_source<'r>(re: &'r Regex) -> (source: &'r str)
    ensures
        source@ == pattern_text(*re),
{
    re.as_str()
}

} // verus!
