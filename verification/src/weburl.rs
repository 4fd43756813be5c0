//! URL parsing, through the `url` crate.

use vstd::prelude::*;

verus! {

/// What `url::Url::parse(s)` gives: `None` on a parse error, otherwise the URL's
/// scheme (`Url::scheme`) and its serialization (`Url::as_str`).
pub uninterp spec fn url_parse(s: Seq<char>) -> Option<(Seq<char>, Seq<char>)>;

/// What parsing `base` with `url::Url::parse` and resolving `input` against it with
/// `Url::join` gives: `None` when either step fails, otherwise the serialization of
/// the joined URL.
pub uninterp spec fn url_join(base: Seq<char>, input: Seq<char>) -> Option<Seq<char>>;

/// `url::Url::parse(s)`, keeping the scheme and the serialization. The result is the
/// named `url_parse` of `s`; which strings parse is not stated.
#[verifier::external_body]
pub(crate) fn parse_url(s: &str) -> (r: Option<(String, String)>)
    ensures
        match r {
            Some((scheme, serialized)) => url_parse(s@) == Some((scheme@, serialized@)),
            None => url_parse(s@) is None,
        },
{
    url::Url::parse(s).ok().map(|u| (u.scheme().to_string(), u.as_str().to_string()))
}

/// `url::Url::parse(base)` then `Url::join(input)`, keeping the serialization. The
/// result is the named `url_join` of the arguments; how URLs resolve is not stated.
#[verifier::external_body]
pub(crate) fn join_url(base: &str, input: &str) -> (r: Option<String>)
    ensures
        match r {
            Some(joined) => url_join(base@, input@) == Some(joined@),
            None => url_join(base@, input@) is None,
        },
{
    url::Url::parse(base).and_then(|u| u.join(input)).ok().map(|u| u.to_string())
}

} // verus!
