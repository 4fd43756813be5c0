//! Regular expressions, through the `regex` crate.

use vstd::prelude::*;
use crate::text::contains_sub;

verus! {

/// What compiling `pattern` with `regex::Regex::new` and taking capture group 1 of
/// the first match in `text` gives: `None` when the pattern does not compile,
/// `Some(None)` when there is no match or the group does not take part in it, and
/// `Some(Some(g))` with the group's text otherwise.
pub uninterp spec fn regex_group1(pattern: Seq<char>, text: Seq<char>) -> Option<Option<Seq<char>>>;

/// What compiling `pattern` with `regex::Regex::new` and calling `is_match` on
/// `text` gives: `None` when the pattern does not compile.
pub uninterp spec fn regex_is_match(pattern: Seq<char>, text: Seq<char>) -> Option<bool>;

/// `regex::Regex::new(pattern)`, then `captures(text)`, `get(1)` and `Match::as_str`.
/// The result is the named `regex_group1` of the arguments; the group's text is a
/// substring of `text` (`Match::as_str` "returns the substring of the haystack that
/// matched"). Which substring the engine picks is not stated.
#[verifier::external_body]
pub(crate) fn regex_capture_group1(pattern: &str, text: &str) -> (r: Option<Option<String>>)
    ensures
        match r {
            None => regex_group1(pattern@, text@) == None::<Option<Seq<char>>>,
            Some(None) => regex_group1(pattern@, text@) == Some(None::<Seq<char>>),
            Some(Some(g)) => regex_group1(pattern@, text@) == Some(Some(g@)) && contains_sub(
                text@,
                g@,
            ),
        },
{
    match regex::Regex::new(pattern) {
        Ok(re) => Some(re.captures(text).and_then(|c| c.get(1)).map(|m| m.as_str().to_string())),
        Err(_) => None,
    }
}

/// `regex::Regex::new(pattern)`, then `is_match(text)`. The result is the named
/// `regex_is_match` of the arguments; when it matches is not stated.
#[verifier::external_body]
pub(crate) fn regex_test(pattern: &str, text: &str) -> (r: Option<bool>)
    ensures
        r == regex_is_match(pattern@, text@),
{
    match regex::Regex::new(pattern) {
        Ok(re) => Some(re.is_match(text)),
        Err(_) => None,
    }
}

} // verus!
