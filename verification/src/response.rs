//! What is kept of an HTTP response, and the request headers sent.

use vstd::prelude::*;
use crate::pattern::{regex_capture_group1, regex_group1};
use crate::text::{
    concat, is_whitespace, lemma_trim_clean, owned, seq_join, str_equals, trim, trim_string, views,
};

verus! {

/// The digest of one response.
pub struct ResponseInfo {
    /// The URL that was requested.
    pub url: String,
    /// The status code.
    pub status: u16,
    /// The page title.
    pub title: String,
    /// The `Server` header, or empty.
    pub server: String,
    /// The length of the body in bytes.
    pub content_length: usize,
    /// All headers, one `name: value` per line.
    pub headers: String,
    /// The URL after redirects.
    pub jump_url: String,
    /// The body text.
    pub body: String,
    /// The favicon hash, when it was fetched.
    pub favicon_hash: Option<String>,
}

/// The pattern that finds the page title: a `<title ...>` element, case-insensitive,
/// its text possibly spanning lines.
pub open spec fn title_pattern() -> Seq<char> {
    "(?is)<title[^>]*>(.*?)</title>"@
}

/// The title for a capture result: the trimmed group text, or empty.
pub open spec fn title_from_group(g: Option<Option<Seq<char>>>) -> Seq<char> {
    match g {
        Some(Some(t)) => trim(t),
        _ => Seq::empty(),
    }
}

/// The view of a capture result.
pub open spec fn group_view(g: Option<Option<String>>) -> Option<Option<Seq<char>>> {
    match g {
        Some(Some(t)) => Some(Some(t@)),
        Some(None) => Some(None),
        None => None,
    }
}

/// Header names and values by their views.
pub open spec fn pair_views(h: Seq<(String, String)>) -> Seq<(Seq<char>, Seq<char>)> {
    h.map_values(|p: (String, String)| (p.0@, p.1@))
}

/// Each header as a line `name: value`.
pub open spec fn header_lines(h: Seq<(Seq<char>, Seq<char>)>) -> Seq<Seq<char>> {
    h.map_values(|p: (Seq<char>, Seq<char>)| p.0 + ": "@ + p.1)
}

/// The value of the first header named `server`, or empty (`HeaderMap::get("Server")`
/// on names that are stored in lower case).
pub open spec fn server_of(h: Seq<(Seq<char>, Seq<char>)>) -> Seq<char>
    decreases h.len(),
{
    if h.len() == 0 {
        Seq::empty()
    } else if h[0].0 == "server"@ {
        h[0].1
    } else {
        server_of(h.drop_first())
    }
}

/// The headers sent with every request, by lower-case name and value.
pub open spec fn request_headers() -> Seq<(Seq<char>, Seq<char>)> {
    seq![
        ("user-agent"@, "Mozilla/5.0 (Macintosh; Intel Mac OS X 10.15; rv:128.0) Gecko/20100101 Firefox/128.0"@),
        ("accept"@, "text/html,application/xhtml+xml,application/xml;q=0.9,*/*;q=0.8"@),
        ("cache-control"@, "max-age=0"@),
        ("dnt"@, "1"@),
        ("upgrade-insecure-requests"@, "1"@),
        ("connection"@, "close"@),
        ("accept-language"@, "en-US,en;q=0.9,zh-CN;q=0.8,zh;q=0.7"@),
        ("cookie"@, "rememberMe=yyds"@),
    ]
}

/// Whether a response with `status` is kept: when no codes are given only 200 is kept,
/// otherwise exactly the listed codes.
pub open spec fn status_kept(codes: Seq<u16>, status: u16) -> bool {
    if codes.len() == 0 {
        status == 200
    } else {
        codes.contains(status)
    }
}

/// The status filter: with status codes given, a response is kept exactly when its
/// status is one of them (a status outside the list is never kept, 200 included); with
/// none given, exactly when it is 200.
pub proof fn lemma_status_filter(codes: Seq<u16>, status: u16)
    ensures
        codes.len() > 0 ==> (status_kept(codes, status) <==> exists|i: int|
            0 <= i < codes.len() && codes[i] == status),
        codes.len() == 0 ==> (status_kept(codes, status) <==> status == 200),
{
}

/// A page title never begins or ends with whitespace.
pub proof fn lemma_title_trimmed(body: Seq<char>)
    ensures
        ({
            let t = title_from_group(regex_group1(title_pattern(), body));
            t.len() > 0 ==> !is_whitespace(t[0]) && !is_whitespace(t.last())
        }),
{
    if let Some(Some(g)) = regex_group1(title_pattern(), body) {
        lemma_trim_clean(g);
    }
}

/// The title for a capture result: the group's text with surrounding whitespace
/// removed, or the empty string when there is none.
pub fn title_from_capture(capture: &Option<Option<String>>) -> (r: String)
    ensures
        r@ == title_from_group(group_view(*capture)),
{
    match capture {
        Some(Some(t)) => trim_string(t.as_str()),
        _ => String::new(),
    }
}

/// `extract_title`: the text of the first `<title>` element, trimmed, or empty. The
/// pattern is compiled on each call; should it fail to compile, the title is empty.
pub fn extract_title(body: &str) -> (r: String)
    ensures
        r@ == title_from_group(regex_group1(title_pattern(), body@)),
{
    let capture = regex_capture_group1("(?is)<title[^>]*>(.*?)</title>", body);
    title_from_capture(&capture)
}

/// The headers sent with every request (`create_http_header`), as lower-case name and
/// value pairs.
pub fn create_http_header() -> (r: Vec<(String, String)>)
    ensures
        pair_views(r@) == request_headers(),
{
    let r = vec![
        (
            owned("user-agent"),
            owned(
                "Mozilla/5.0 (Macintosh; Intel Mac OS X 10.15; rv:128.0) Gecko/20100101 Firefox/128.0",
            ),
        ),
        (owned("accept"), owned("text/html,application/xhtml+xml,application/xml;q=0.9,*/*;q=0.8")),
        (owned("cache-control"), owned("max-age=0")),
        (owned("dnt"), owned("1")),
        (owned("upgrade-insecure-requests"), owned("1")),
        (owned("connection"), owned("close")),
        (owned("accept-language"), owned("en-US,en;q=0.9,zh-CN;q=0.8,zh;q=0.7")),
        (owned("cookie"), owned("rememberMe=yyds")),
    ];
    assert(pair_views(r@) =~= request_headers());
    r
}

/// The status filter applied after a response arrives (the check in `fetch`).
pub fn status_is_kept(codes: &Vec<u16>, status: u16) -> (r: bool)
    ensures
        r == status_kept(codes@, status),
{
    if codes.len() == 0 {
        return status == 200;
    }
    let mut i: usize = 0;
    while i < codes.len()
        invariant
            i <= codes@.len(),
            forall|j: int| 0 <= j < i ==> codes@[j] != status,
        decreases codes@.len() - i,
    {
        if codes[i] == status {
            assert(codes@.contains(status));
            return true;
        }
        i = i + 1;
    }
    false
}

/// The value of the first header named `server`, or empty.
pub fn server_header(headers: &Vec<(String, String)>) -> (r: String)
    ensures
        r@ == server_of(pair_views(headers@)),
{
    let ghost hv = pair_views(headers@);
    let mut i: usize = 0;
    assert(hv.skip(0) =~= hv);
    while i < headers.len()
        invariant
            i <= headers@.len(),
            hv == pair_views(headers@),
            server_of(hv) == server_of(hv.skip(i as int)),
        decreases headers@.len() - i,
    {
        assert(hv.skip(i as int)[0] == (headers@[i as int].0@, headers@[i as int].1@));
        if str_equals(headers[i].0.as_str(), "server") {
            return headers[i].1.clone();
        }
        assert(hv.skip(i as int).drop_first() =~= hv.skip(i + 1));
        i = i + 1;
    }
    String::new()
}

/// All headers, one `name: value` per line.
pub fn header_text(headers: &Vec<(String, String)>) -> (r: String)
    ensures
        r@ == seq_join(header_lines(pair_views(headers@)), "\n"@),
{
    let mut lines: Vec<String> = Vec::new();
    let mut i: usize = 0;
    while i < headers.len()
        invariant
            i <= headers@.len(),
            lines@.len() == i,
            views(lines@) == header_lines(pair_views(headers@)).take(i as int),
        decreases headers@.len() - i,
    {
        let with_colon = concat(headers[i].0.as_str(), ": ");
        let line = concat(with_colon.as_str(), headers[i].1.as_str());
        let ghost before = views(lines@);
        let ghost want = header_lines(pair_views(headers@)).take(i + 1);
        assert(line@ == want[i as int]);
        lines.push(line);
        proof {
            assert forall|j: int| 0 <= j < i + 1 implies views(lines@)[j] == want[j] by {
                if j < i {
                    assert(before[j] == header_lines(pair_views(headers@)).take(i as int)[j]);
                }
            }
        }
        i = i + 1;
        assert(views(lines@) =~= header_lines(pair_views(headers@)).take(i as int));
    }
    assert(header_lines(pair_views(headers@)).take(headers@.len() as int) =~= header_lines(
        pair_views(headers@),
    ));
    crate::text::join_strings(&lines, "\n")
}

impl ResponseInfo {
    /// Digests a response from what was read off the wire (`from_response`): the
    /// requested URL, the status, the final URL, the headers in order (lower-case
    /// names; values that are not visible ASCII given as empty), the body text and
    /// the favicon hash.
    pub fn from_response(
        original_url: &str,
        status: u16,
        jump_url: String,
        headers: &Vec<(String, String)>,
        body: String,
        favicon_hash: Option<String>,
    ) -> (r: ResponseInfo)
        ensures
            r.url@ == original_url@,
            r.status == status,
            r.jump_url == jump_url,
            r.server@ == server_of(pair_views(headers@)),
            r.headers@ == seq_join(header_lines(pair_views(headers@)), "\n"@),
            r.title@ == title_from_group(regex_group1(title_pattern(), body@)),
            r.content_length == vstd::utf8::encode_utf8(body@).len() as usize,
            r.body == body,
            r.favicon_hash == favicon_hash,
    {
        let server = server_header(headers);
        let header = header_text(headers);
        let title = extract_title(body.as_str());
        let content_length = body.as_str().len();
        ResponseInfo {
            url: owned(original_url),
            status,
            title,
            server,
            content_length,
            headers: header,
            jump_url,
            body,
            favicon_hash,
        }
    }
}

} // verus!
