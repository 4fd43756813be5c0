//! The earlier scanning pipeline: line-based target files, a result queue of
//! `PrintInfo`, and fingerprints given as plain strings.

use vstd::prelude::*;
use crate::cidr::{
    block_size, block_strings, network_addresses, network_of, parse_ipv4, parse_ipv4_in, split_on,
};
use crate::fingerprint::all_contained;
use crate::favicon::{
    as_signed, hash_text_signed, icon_hash, icon_hash_input, icon_hashable, murmur3_32_hash,
};
use crate::order::{sort_dedup, sorted_set, strictly_sorted};
use crate::pattern::{regex_capture_group1, regex_group1, regex_is_match, regex_test};
use crate::response::{header_lines, header_text, pair_views, server_header, server_of};
use crate::text::{
    all_digits, chars_of, concat, contains_sub, is_digit, decimal, decimal_string, ends_with, extend_strings,
    find_first, first_index_of, join_strings, lemma_first_index_of, lemma_views_concat, owned,
    parse_unsigned, parse_unsigned_in, seq_join, signed_decimal, starts_with,
    str_contains, str_ends_with, str_equals, str_starts_with, trim, trim_string, views,
};
use crate::weburl::{join_url, url_join};
use vstd::utf8::encode_utf8;

verus! {

/// One result row of the earlier pipeline.
pub struct PrintInfo {
    /// The URL that was requested (with the path added).
    pub url: String,
    /// The status code.
    pub status_code: u16,
    /// The page title.
    pub title: String,
    /// The `Server` header.
    pub server: String,
    /// The URL after redirects.
    pub jump_url: String,
    /// The body length in bytes.
    pub content_length: usize,
    /// The recognised applications.
    pub cms: Vec<String>,
}

/// The digest of one response in the earlier pipeline.
pub struct ScanInfo {
    /// The URL that was requested.
    pub url: String,
    /// The status code.
    pub status_code: u16,
    /// The page title.
    pub title: String,
    /// The `Server` header.
    pub server: String,
    /// The URL after redirects.
    pub jump_url: String,
    /// The body length in bytes.
    pub content_length: usize,
    /// The body text.
    pub body: String,
    /// All headers, one `name: value` per line.
    pub header: String,
}

/// One row as written to a CSV or JSON file: the applications joined with ` || `.
pub struct SaveInfo {
    pub url: String,
    pub status_code: u16,
    pub title: String,
    pub server: String,
    pub jump_url: String,
    pub content_length: usize,
    pub cms: String,
}

/// A fingerprint of the earlier pipeline, all fields as text: `method` is `keyword`
/// or `faviconhash`, `location` is `body` or `header`.
pub struct LegacyFinger {
    pub cms: String,
    pub method: String,
    pub location: String,
    pub keyword: Vec<String>,
}

/// A URL could not be parsed or joined.
#[derive(PartialEq, Eq, Structural, Clone, Copy, Debug)]
pub enum UrlError {
    Invalid,
}

/// The icon could not be hashed.
#[derive(PartialEq, Eq, Structural, Clone, Copy, Debug)]
pub enum HashError {
    Read,
}

impl SaveInfo {
    /// A file row from a result row: the applications joined with ` || `.
    pub fn new(print_info: PrintInfo) -> (r: Self)
        ensures
            r.url == print_info.url,
            r.status_code == print_info.status_code,
            r.title == print_info.title,
            r.server == print_info.server,
            r.jump_url == print_info.jump_url,
            r.content_length == print_info.content_length,
            r.cms@ == seq_join(views(print_info.cms@), " || "@),
    {
        let cms = join_strings(&print_info.cms, " || ");
        SaveInfo {
            url: print_info.url,
            status_code: print_info.status_code,
            title: print_info.title,
            server: print_info.server,
            jump_url: print_info.jump_url,
            content_length: print_info.content_length,
            cms,
        }
    }
}

/// `add_path`: `url` unchanged for an empty path, otherwise `url`, a `/` unless `url`
/// already ends in one, and `path`.
pub open spec fn add_path_spec(url: Seq<char>, path: Seq<char>) -> Seq<char> {
    if path.len() == 0 {
        url
    } else if ends_with(url, "/"@) {
        url + path
    } else {
        url + "/"@ + path
    }
}

/// `add_path`: joins a URL and a path with a single `/`.
pub fn add_path(url: &str, path: &str) -> (r: String)
    ensures
        r@ == add_path_spec(url@, path@),
{
    if path.is_empty() {
        owned(url)
    } else if str_ends_with(url, "/") {
        concat(url, path)
    } else {
        let with_slash = concat(url, "/");
        concat(with_slash.as_str(), path)
    }
}

/// `get_favicon_url`: the icon address of a page, its scheme, host and port followed
/// by `/favicon.ico` (`/favicon.ico` resolved against `base_url`).
pub fn get_favicon_url(base_url: &str) -> (r: Result<String, UrlError>)
    ensures
        match url_join(base_url@, "/favicon.ico"@) {
            Some(u) => r matches Ok(s) && s@ == u,
            None => r == Err::<String, UrlError>(UrlError::Invalid),
        },
{
    match join_url(base_url, "/favicon.ico") {
        Some(u) => Ok(u),
        None => Err(UrlError::Invalid),
    }
}

/// The pattern that finds the page title here: a plain `<title>` element,
/// case-insensitive, on one line.
pub open spec fn title_pattern() -> Seq<char> {
    "(?i)<title>(.*?)</title>"@
}

/// The title for a capture result: the trimmed group text when there is one.
pub open spec fn title_of_group(g: Option<Option<Seq<char>>>) -> Option<Seq<char>> {
    match g {
        Some(Some(t)) => Some(trim(t)),
        _ => None,
    }
}

/// `extract_title` of this pipeline: the trimmed text of the first `<title>` element.
pub fn extract_title(html: &str) -> (r: Option<String>)
    ensures
        match title_of_group(regex_group1(title_pattern(), html@)) {
            Some(t) => r matches Some(s) && s@ == t,
            None => r is None,
        },
{
    match regex_capture_group1("(?i)<title>(.*?)</title>", html) {
        Some(Some(t)) => Some(trim_string(t.as_str())),
        _ => None,
    }
}

/// Digests a response from what was read off the wire (`get_format_info`): the
/// requested URL, the status, the final URL, the headers in order (lower-case names;
/// values that are not visible ASCII given as empty) and the body text.
pub fn get_format_info(
    url: &str,
    status_code: u16,
    jump_url: String,
    headers: &Vec<(String, String)>,
    body: String,
) -> (r: ScanInfo)
    ensures
        r.url@ == url@,
        r.status_code == status_code,
        r.jump_url == jump_url,
        r.server@ == server_of(pair_views(headers@)),
        r.header@ == seq_join(header_lines(pair_views(headers@)), "\n"@),
        r.content_length == encode_utf8(body@).len() as usize,
        r.title@ == (match title_of_group(regex_group1(title_pattern(), body@)) {
            Some(t) => t,
            None => Seq::empty(),
        }),
        r.body == body,
{
    let server = server_header(headers);
    let header = header_text(headers);
    let content_length = body.as_str().len();
    let title = match extract_title(body.as_str()) {
        Some(t) => t,
        None => String::new(),
    };
    ScanInfo {
        url: owned(url),
        status_code,
        title,
        server,
        jump_url,
        content_length,
        body,
        header,
    }
}

/// The FOFA icon hash of an icon with content `bytes` (the part of
/// `get_fofa_iconhash` after the download): the hash read as an `i32`, in decimal.
pub fn fofa_hash_from_bytes(bytes: &[u8]) -> (r: Result<String, HashError>)
    requires
        icon_hashable(bytes@.len()),
    ensures
        r matches Ok(s) && s@ == signed_decimal(
            as_signed(murmur3_32_hash(encode_utf8(icon_hash_input(bytes@)), 0)),
        ),
{
    match icon_hash(bytes) {
        Some(h) => Ok(hash_text_signed(h)),
        None => Err(HashError::Read),
    }
}

// ---------------------------------------------------------------------------
// Target files
// ---------------------------------------------------------------------------

/// The pattern that recognises a network line here: four groups of one to three
/// digits separated by dots, a `/`, and one or two digits.
pub open spec fn cidr_pattern() -> Seq<char> {
    "^(\\d{1,3}\\.){3}\\d{1,3}/\\d{1,2}$"@
}

/// The address and prefix length written in a network line: the address before the
/// first `/` (four octets of at most 255) and the number after it (up to a second
/// `/`), which must be at most 32.
pub open spec fn network_fields(cidr: Seq<char>) -> Option<(nat, nat)> {
    let parts = split_on(cidr, '/');
    if parts.len() >= 2 {
        match (parse_ipv4(parts[0]), parse_unsigned(parts[1])) {
            (Some(a), Some(p)) => if p <= 32 {
                Some((a, p))
            } else {
                None
            },
            _ => None,
        }
    } else {
        None
    }
}

/// `is_cidr` of this pipeline: the line has the shape of `cidr_pattern` (a pattern
/// that does not compile counts as no match) and is a real network: its address is a
/// valid IPv4 address and its prefix length is at most 32.
pub open spec fn is_cidr_spec(line: Seq<char>) -> bool {
    regex_is_match(cidr_pattern(), line) == Some(true) && network_fields(line) is Some
}

/// The address and prefix length `cidr_to_ip_range` reads: `network_fields`, with a
/// prefix length of at least 1.
pub open spec fn range_fields(cidr: Seq<char>) -> Option<(nat, nat)> {
    match network_fields(cidr) {
        Some((a, p)) => if 1 <= p {
            Some((a, p))
        } else {
            None
        },
        None => None,
    }
}

/// The first two pieces of `split_on`.
proof fn lemma_split_on_first_two(s: Seq<char>, c: char)
    ensures
        split_on(s, c).len() >= 1,
        split_on(s, c)[0] == (match first_index_of(s, c) {
            Some(i) => s.take(i),
            None => s,
        }),
        first_index_of(s, c) is None ==> split_on(s, c).len() == 1,
        first_index_of(s, c) matches Some(i) ==> split_on(s, c).len() >= 2 && split_on(s, c)[1] == ({
            let rest = s.skip(i + 1);
            match first_index_of(rest, c) {
                Some(j) => rest.take(j),
                None => rest,
            }
        }),
{
    lemma_first_index_of(s, c);
    if let Some(i) = first_index_of(s, c) {
        let rest = s.skip(i + 1);
        lemma_first_index_of(rest, c);
        assert(split_on(s, c) == seq![s.take(i)] + split_on(rest, c));
        assert(split_on(s, c)[1] == split_on(rest, c)[0]);
    }
}

/// The address and prefix length of a network line, as `network_fields`.
fn network_fields_exec(cidr: &str) -> (r: Option<(u32, u64)>)
    ensures
        match network_fields(cidr@) {
            Some((a, p)) => r == Some((a as u32, p as u64)) && a < 4294967296 && p <= 32,
            None => r is None,
        },
{
    let cs = chars_of(cidr);
    proof {
        assert(cs@.subrange(0, cs@.len() as int) =~= cidr@);
        lemma_split_on_first_two(cidr@, '/');
        lemma_first_index_of(cidr@, '/');
    }
    let k = match find_first(&cs, 0, cs.len(), '/') {
        Some(k) => k,
        None => return None,
    };
    proof {
        let rest = cidr@.skip(k + 1);
        assert(rest =~= cs@.subrange(k + 1, cs@.len() as int));
        lemma_first_index_of(rest, '/');
        assert(cidr@.take(k as int) =~= cs@.subrange(0, k as int));
    }
    let end = match find_first(&cs, k + 1, cs.len(), '/') {
        Some(e) => e,
        None => cs.len(),
    };
    proof {
        let rest = cidr@.skip(k + 1);
        assert(split_on(cidr@, '/')[1] =~= cs@.subrange(k + 1, end as int));
    }
    let addr = match parse_ipv4_in(&cs, 0, k) {
        Some(a) => a,
        None => return None,
    };
    let prefix = match parse_unsigned_in(&cs, k + 1, end, 4294967295) {
        Some(p) => p,
        None => return None,
    };
    if prefix <= 32 {
        Some((addr, prefix))
    } else {
        None
    }
}

/// The address and prefix length of a network line, as `range_fields`.
fn range_fields_exec(cidr: &str) -> (r: Option<(u32, u64)>)
    ensures
        match range_fields(cidr@) {
            Some((a, p)) => r == Some((a as u32, p as u64)) && a < 4294967296 && 1 <= p <= 32,
            None => r is None,
        },
{
    match network_fields_exec(cidr) {
        Some((addr, prefix)) => if 1 <= prefix {
            Some((addr, prefix))
        } else {
            None
        },
        None => None,
    }
}

/// `is_cidr` of this pipeline.
pub fn is_cidr(line: &str) -> (r: bool)
    ensures
        r == is_cidr_spec(line@),
{
    let shaped = match regex_test("^(\\d{1,3}\\.){3}\\d{1,3}/\\d{1,2}$", line) {
        Some(m) => m,
        None => false,
    };
    shaped && network_fields_exec(line).is_some()
}

/// `cidr_to_ip_range`: the addresses of the network written in `cidr`, from the
/// network address to the broadcast address.
pub fn cidr_to_ip_range(cidr: &str) -> (r: Vec<String>)
    requires
        range_fields(cidr@) is Some,
    ensures
        views(r@) == ({
            let (a, p) = range_fields(cidr@).unwrap();
            block_strings(network_of(a, p), block_size(p))
        }),
{
    let (addr, prefix) = range_fields_exec(cidr).unwrap();
    network_addresses(addr, prefix)
}

/// On a network written with a prefix length of at least 1, this pipeline reads the
/// same address and prefix as `is_cidr`/`expand_cidr` and lists the same addresses.
pub proof fn lemma_network_expansions_agree(s: Seq<char>)
    requires
        crate::cidr::is_cidr_spec(s),
        crate::cidr::cidr_fields(s).1 >= 1,
    ensures
        range_fields(s) == Some(crate::cidr::cidr_fields(s)),
        line_ips_of_network(s) == crate::cidr::expand_cidr_spec(s),
{
    lemma_split_on_first_two(s, '/');
    lemma_first_index_of(s, '/');
    let i = first_index_of(s, '/').unwrap();
    let rest = s.skip(i + 1);
    lemma_first_index_of(rest, '/');
    if let Some(j) = first_index_of(rest, '/') {
        let d = if rest.len() > 0 && rest[0] == '+' { rest.drop_first() } else { rest };
        assert(all_digits(d));
        if rest.len() > 0 && rest[0] == '+' {
            assert(j != 0);
            assert(rest[j] == d[j - 1]);
            assert(is_digit(d[j - 1]));
        } else {
            assert(is_digit(d[j]));
        }
    }
}

/// The addresses this pipeline lists for a network line it can expand.
pub open spec fn line_ips_of_network(s: Seq<char>) -> Seq<Seq<char>> {
    let (a, p) = range_fields(s).unwrap();
    block_strings(network_of(a, p), block_size(p))
}

/// The port written in a line: the text between its first and second `:`.
pub open spec fn line_port(line: Seq<char>) -> Option<Seq<char>> {
    if first_index_of(line, ':') is Some {
        Some(split_on(line, ':')[1])
    } else {
        None
    }
}

/// The URLs for one address of a line: port 443 gives `https://`, port 80 `http://`,
/// any other port or none both.
pub open spec fn port_urls(line: Seq<char>, ip: Seq<char>) -> Seq<Seq<char>> {
    let both = seq!["http://"@ + ip, "https://"@ + ip];
    match line_port(line) {
        Some(port) => if port == "443"@ {
            seq!["https://"@ + ip]
        } else if port == "80"@ {
            seq!["http://"@ + ip]
        } else {
            both
        },
        None => both,
    }
}

/// `port_urls` for each address in turn.
pub open spec fn ip_urls(line: Seq<char>, ips: Seq<Seq<char>>) -> Seq<Seq<char>>
    decreases ips.len(),
{
    if ips.len() == 0 {
        Seq::empty()
    } else {
        ip_urls(line, ips.drop_last()) + port_urls(line, ips.last())
    }
}

/// The addresses a line stands for: a network line its addresses, any other line itself.
pub open spec fn line_ips(line: Seq<char>) -> Seq<Seq<char>> {
    if is_cidr_spec(line) {
        let (a, p) = range_fields(line).unwrap();
        block_strings(network_of(a, p), block_size(p))
    } else {
        seq![line]
    }
}

/// The URLs for one line of a target file.
pub open spec fn line_urls(line: Seq<char>) -> Seq<Seq<char>> {
    if starts_with(line, "http://"@) || starts_with(line, "https://"@) {
        seq![line]
    } else {
        ip_urls(line, line_ips(line))
    }
}

/// The URLs for the lines of a target file, in order, before sorting.
pub open spec fn file_urls(lines: Seq<Seq<char>>) -> Seq<Seq<char>>
    decreases lines.len(),
{
    if lines.len() == 0 {
        Seq::empty()
    } else {
        file_urls(lines.drop_last()) + line_urls(lines.last())
    }
}

/// The port rule of a target-file line whose first `:` stands at `i` and whose port
/// field runs from there to the next `:` (or the end) at `j`: when the field is exactly
/// `443` only an `https://` URL is listed for an address, when it is exactly `80` only
/// an `http://` URL, and for any other field (such as `8443`) both.
pub proof fn lemma_line_port_rule(line: Seq<char>, ip: Seq<char>, i: int, j: int)
    requires
        0 <= i < j <= line.len(),
        line[i] == ':',
        forall|t: int| 0 <= t < i ==> line[t] != ':',
        forall|t: int| i < t < j ==> line[t] != ':',
        j == line.len() || line[j] == ':',
    ensures
        line.subrange(i + 1, j) == "443"@ ==> port_urls(line, ip) == seq!["https://"@ + ip],
        line.subrange(i + 1, j) == "80"@ ==> port_urls(line, ip) == seq!["http://"@ + ip],
        line.subrange(i + 1, j) != "443"@ && line.subrange(i + 1, j) != "80"@ ==> port_urls(
            line,
            ip,
        ) == seq!["http://"@ + ip, "https://"@ + ip],
{
    reveal_strlit("443");
    reveal_strlit("80");
    assert("80"@.len() != "443"@.len());
    lemma_split_on_first_two(line, ':');
    lemma_first_index_of(line, ':');
    assert(first_index_of(line, ':') == Some(i));
    let rest = line.skip(i + 1);
    lemma_first_index_of(rest, ':');
    match first_index_of(rest, ':') {
        Some(k) => {
            assert(rest[k] == line[i + 1 + k]);
            if i + 1 + k < j {
                assert(line[i + 1 + k] != ':');
            }
            if j < line.len() && i + 1 + k > j {
                assert(rest[j - i - 1] == line[j]);
            }
            assert(i + 1 + k == j);
            assert(rest.take(k) =~= line.subrange(i + 1, j));
        },
        None => {
            if j < line.len() {
                assert(rest[j - i - 1] == line[j]);
            }
            assert(rest =~= line.subrange(i + 1, j));
        },
    }
    assert(line_port(line) == Some(line.subrange(i + 1, j)));
}

/// A target-file line without any `:` lists both URLs for an address.
pub proof fn lemma_line_without_port(line: Seq<char>, ip: Seq<char>)
    requires
        forall|t: int| 0 <= t < line.len() ==> line[t] != ':',
    ensures
        port_urls(line, ip) == seq!["http://"@ + ip, "https://"@ + ip],
{
    lemma_first_index_of(line, ':');
}

/// A target-file line that is neither a URL nor a network (it has no `/`) stands for
/// itself: its URLs are those of the port rule for the line as the address.
pub proof fn lemma_plain_line_urls(line: Seq<char>)
    requires
        !starts_with(line, "http://"@),
        !starts_with(line, "https://"@),
        forall|t: int| 0 <= t < line.len() ==> line[t] != '/',
    ensures
        line_urls(line) == port_urls(line, line),
{
    lemma_first_index_of(line, '/');
    lemma_split_on_first_two(line, '/');
    assert(!is_cidr_spec(line));
    assert(line_ips(line) == seq![line]);
    let one = seq![line];
    assert(one.drop_last() =~= Seq::<Seq<char>>::empty());
    assert(one.last() == line);
    assert(ip_urls(line, one.drop_last()) == Seq::<Seq<char>>::empty());
    assert(ip_urls(line, one) == ip_urls(line, one.drop_last()) + port_urls(line, line));
    assert(ip_urls(line, one) =~= port_urls(line, line));
}

/// A line that `read_file` can expand: a network line must have a prefix length of at
/// least 1 (a `/0` network is not expanded).
pub open spec fn line_expandable(line: Seq<char>) -> bool {
    starts_with(line, "http://"@) || starts_with(line, "https://"@) || !is_cidr_spec(line)
        || range_fields(line) is Some
}

/// The port written in a line, as `line_port`.
fn line_port_exec(line: &str) -> (r: Option<String>)
    ensures
        match line_port(line@) {
            Some(p) => r matches Some(s) && s@ == p,
            None => r is None,
        },
{
    let cs = chars_of(line);
    proof {
        assert(cs@.subrange(0, cs@.len() as int) =~= line@);
        lemma_split_on_first_two(line@, ':');
        lemma_first_index_of(line@, ':');
    }
    let k = match find_first(&cs, 0, cs.len(), ':') {
        Some(k) => k,
        None => return None,
    };
    proof {
        let rest = line@.skip(k + 1);
        assert(rest =~= cs@.subrange(k + 1, cs@.len() as int));
        lemma_first_index_of(rest, ':');
    }
    let end = match find_first(&cs, k + 1, cs.len(), ':') {
        Some(e) => e,
        None => cs.len(),
    };
    proof {
        assert(split_on(line@, ':')[1] =~= cs@.subrange(k + 1, end as int));
    }
    Some(crate::text::string_from_range(&cs, k + 1, end))
}

/// The URLs for one address of a line, as `port_urls`.
fn port_urls_exec(port: &Option<String>, ip: &str) -> (r: Vec<String>)
    ensures
        forall|line: Seq<char>|
            line_port(line) == (match port {
                Some(p) => Some(p@),
                None => None::<Seq<char>>,
            }) ==> views(r@) == #[trigger] port_urls(line, ip@),
{
    let http_url = concat("http://", ip);
    let https_url = concat("https://", ip);
    let r = match port {
        Some(p) => {
            if str_equals(p.as_str(), "443") {
                vec![https_url]
            } else if str_equals(p.as_str(), "80") {
                vec![http_url]
            } else {
                vec![http_url, https_url]
            }
        },
        None => vec![http_url, https_url],
    };
    assert forall|line: Seq<char>|
        line_port(line) == (match port {
            Some(p) => Some(p@),
            None => None::<Seq<char>>,
        }) implies views(r@) == #[trigger] port_urls(line, ip@) by {
        assert(views(r@) =~= port_urls(line, ip@));
    }
    r
}

/// The URLs for one line of a target file, as `line_urls`.
fn line_urls_exec(line: &str) -> (r: Vec<String>)
    requires
        line_expandable(line@),
    ensures
        views(r@) == line_urls(line@),
{
    if str_starts_with(line, "http://") || str_starts_with(line, "https://") {
        let r = vec![owned(line)];
        assert(views(r@) =~= seq![line@]);
        return r;
    }
    let ips = if is_cidr(line) {
        cidr_to_ip_range(line)
    } else {
        let v = vec![owned(line)];
        assert(views(v@) =~= seq![line@]);
        v
    };
    let port = line_port_exec(line);
    let ghost iv = views(ips@);
    let mut r: Vec<String> = Vec::new();
    let mut i: usize = 0;
    while i < ips.len()
        invariant
            i <= ips@.len(),
            iv == views(ips@),
            iv == line_ips(line@),
            match line_port(line@) {
                Some(p) => port matches Some(s) && s@ == p,
                None => port is None,
            },
            views(r@) == ip_urls(line@, iv.take(i as int)),
        decreases ips@.len() - i,
    {
        let more = port_urls_exec(&port, ips[i].as_str());
        let ghost before = r@;
        extend_strings(&mut r, &more);
        proof {
            assert(line_port(line@) == (match port {
                Some(p) => Some(p@),
                None => None::<Seq<char>>,
            }));
            assert(views(more@) == port_urls(line@, ips@[i as int]@));
            lemma_views_concat(before, more@);
            assert(iv.take(i + 1).drop_last() =~= iv.take(i as int));
        }
        i = i + 1;
    }
    assert(iv.take(ips@.len() as int) =~= iv);
    r
}

/// The URLs for the lines of a target file (the part of `read_file` after reading),
/// sorted, without duplicates.
pub fn read_file_lines(lines: &Vec<String>) -> (r: Vec<String>)
    requires
        forall|i: int| 0 <= i < lines@.len() ==> line_expandable(#[trigger] lines@[i]@),
    ensures
        views(r@) == sorted_set(file_urls(views(lines@))),
        strictly_sorted(views(r@)),
        views(r@).to_set() == file_urls(views(lines@)).to_set(),
{
    let ghost lv = views(lines@);
    let mut urls: Vec<String> = Vec::new();
    let mut i: usize = 0;
    while i < lines.len()
        invariant
            i <= lines@.len(),
            lv == views(lines@),
            forall|j: int| 0 <= j < lines@.len() ==> line_expandable(#[trigger] lines@[j]@),
            views(urls@) == file_urls(lv.take(i as int)),
        decreases lines@.len() - i,
    {
        let more = line_urls_exec(lines[i].as_str());
        let ghost before = urls@;
        extend_strings(&mut urls, &more);
        proof {
            lemma_views_concat(before, more@);
            assert(lv.take(i + 1).drop_last() =~= lv.take(i as int));
        }
        i = i + 1;
    }
    assert(lv.take(lines@.len() as int) =~= lv);
    sort_dedup(urls)
}

/// `read_file_lines` when every line can be expanded; `None` when some network line
/// has a prefix length of 0.
pub fn try_read_file_lines(lines: &Vec<String>) -> (r: Option<Vec<String>>)
    ensures
        r is Some <==> forall|i: int| 0 <= i < lines@.len() ==> line_expandable(#[trigger] lines@[i]@),
        r matches Some(v) ==> views(v@) == sorted_set(file_urls(views(lines@))) && strictly_sorted(
            views(v@),
        ) && views(v@).to_set() == file_urls(views(lines@)).to_set(),
{
    let mut i: usize = 0;
    while i < lines.len()
        invariant
            i <= lines@.len(),
            forall|j: int| 0 <= j < i ==> line_expandable(#[trigger] lines@[j]@),
        decreases lines@.len() - i,
    {
        let line = lines[i].as_str();
        let ok = str_starts_with(line, "http://") || str_starts_with(line, "https://") || !is_cidr(
            line,
        ) || range_fields_exec(line).is_some();
        if !ok {
            return None;
        }
        i = i + 1;
    }
    Some(read_file_lines(lines))
}

// ---------------------------------------------------------------------------
// Fingerprints and the report of one request
// ---------------------------------------------------------------------------

/// What `format!("{:?}", items)` gives for a list of strings.
pub uninterp spec fn debug_list_text(items: Seq<Seq<char>>) -> Seq<char>;

/// `format!("{:?}", items)`: the `Debug` text of a list of strings. The result is the
/// named `debug_list_text` of the items' views; the escaping rules are not stated.
#[verifier::external_body]
pub(crate) fn debug_list(items: &Vec<String>) -> (r: String)
    ensures
        r@ == debug_list_text(views(items@)),
{
    format!("{:?}", items)
}

/// Whether a fingerprint of this pipeline matches: a `keyword` fingerprint when all its
/// keywords occur in the body (location `body`) or the headers (location `header`); a
/// `faviconhash` fingerprint when the icon hash equals its first keyword.
pub open spec fn finger_hits(f: LegacyFinger, body: Seq<char>, header: Seq<char>, icon_hash: Seq<char>) -> bool {
    if f.method@ == "keyword"@ {
        if f.location@ == "body"@ {
            all_contained(views(f.keyword@), body)
        } else if f.location@ == "header"@ {
            all_contained(views(f.keyword@), header)
        } else {
            false
        }
    } else if f.method@ == "faviconhash"@ {
        icon_hash == f.keyword@[0]@
    } else {
        false
    }
}

/// The names of the matching fingerprints, in order.
pub open spec fn finger_matches(
    fingers: Seq<LegacyFinger>,
    body: Seq<char>,
    header: Seq<char>,
    icon_hash: Seq<char>,
) -> Seq<Seq<char>>
    decreases fingers.len(),
{
    if fingers.len() == 0 {
        Seq::empty()
    } else {
        finger_matches(fingers.drop_last(), body, header, icon_hash) + if finger_hits(
            fingers.last(),
            body,
            header,
            icon_hash,
        ) {
            seq![fingers.last().cms@]
        } else {
            Seq::empty()
        }
    }
}

/// A name reported by this pipeline's matching comes from some fingerprint with that
/// name that is either a `keyword` fingerprint every one of whose keywords occurs in
/// the body (location `body`) or in the headers (location `header`), or a
/// `faviconhash` fingerprint whose first keyword equals the icon hash.
pub proof fn lemma_legacy_reported_names_have_evidence(
    fingers: Seq<LegacyFinger>,
    body: Seq<char>,
    header: Seq<char>,
    icon_hash: Seq<char>,
    n: Seq<char>,
)
    requires
        finger_matches(fingers, body, header, icon_hash).contains(n),
    ensures
        exists|i: int|
            0 <= i < fingers.len() && (#[trigger] fingers[i]).cms@ == n && {
                let f = fingers[i];
                ||| f.method@ == "keyword"@ && f.location@ == "body"@ && forall|q: int|
                    0 <= q < f.keyword@.len() ==> contains_sub(body, #[trigger] f.keyword@[q]@)
                ||| f.method@ == "keyword"@ && f.location@ == "header"@ && forall|q: int|
                    0 <= q < f.keyword@.len() ==> contains_sub(header, #[trigger] f.keyword@[q]@)
                ||| f.method@ == "faviconhash"@ && icon_hash == f.keyword@[0]@
            },
    decreases fingers.len(),
{
    let p = fingers.drop_last();
    let f = fingers.last();
    let a = finger_matches(p, body, header, icon_hash);
    let m = finger_matches(fingers, body, header, icon_hash);
    let j = choose|j: int| 0 <= j < m.len() && m[j] == n;
    if j < a.len() {
        assert(a[j] == n);
        lemma_legacy_reported_names_have_evidence(p, body, header, icon_hash, n);
        let i = choose|i: int|
            0 <= i < p.len() && (#[trigger] p[i]).cms@ == n && {
                let f = p[i];
                ||| f.method@ == "keyword"@ && f.location@ == "body"@ && forall|q: int|
                    0 <= q < f.keyword@.len() ==> contains_sub(body, #[trigger] f.keyword@[q]@)
                ||| f.method@ == "keyword"@ && f.location@ == "header"@ && forall|q: int|
                    0 <= q < f.keyword@.len() ==> contains_sub(header, #[trigger] f.keyword@[q]@)
                ||| f.method@ == "faviconhash"@ && icon_hash == f.keyword@[0]@
            };
        assert(fingers[i] == p[i]);
    } else {
        assert(finger_hits(f, body, header, icon_hash));
        assert(fingers[fingers.len() - 1] == f);
        let kv = views(f.keyword@);
        assert forall|q: int| 0 <= q < f.keyword@.len() implies kv[q] == #[trigger] f.keyword@[q]@ by {}
    }
}

/// Every `faviconhash` fingerprint has a keyword to compare with: matching compares
/// the icon hash with its first keyword.
pub open spec fn fingers_well_formed(fingers: Seq<LegacyFinger>) -> bool {
    forall|i: int|
        0 <= i < fingers.len() && (#[trigger] fingers[i]).method@ != "keyword"@
            && fingers[i].method@ == "faviconhash"@ ==> fingers[i].keyword@.len() > 0
}

/// All keywords occur in `target`.
fn all_keywords_in(keywords: &Vec<String>, target: &str) -> (r: bool)
    ensures
        r == all_contained(views(keywords@), target@),
{
    let mut k: usize = 0;
    while k < keywords.len()
        invariant
            k <= keywords@.len(),
            forall|t: int| 0 <= t < k ==> #[trigger] contains_sub(target@, keywords@[t]@),
        decreases keywords@.len() - k,
    {
        if !str_contains(target, keywords[k].as_str()) {
            assert(!contains_sub(target@, views(keywords@)[k as int]));
            return false;
        }
        k = k + 1;
    }
    assert forall|t: int| 0 <= t < views(keywords@).len() implies #[trigger] contains_sub(
        target@,
        views(keywords@)[t],
    ) by {
        assert(contains_sub(target@, keywords@[t]@));
    }
    true
}

/// `s` with every element dropped that already occurred earlier: each element once,
/// in the order of its first occurrence.
pub open spec fn dedup_first(s: Seq<Seq<char>>) -> Seq<Seq<char>>
    decreases s.len(),
{
    if s.len() == 0 {
        s
    } else {
        let d = dedup_first(s.drop_last());
        if d.contains(s.last()) {
            d
        } else {
            d.push(s.last())
        }
    }
}

/// After `dedup_first` no element occurs twice, and the elements are those of `s`.
pub proof fn lemma_dedup_first(s: Seq<Seq<char>>)
    ensures
        forall|i: int, j: int|
            0 <= i < j < dedup_first(s).len() ==> #[trigger] dedup_first(s)[i] != #[trigger] dedup_first(s)[j],
        dedup_first(s).to_set() == s.to_set(),
    decreases s.len(),
{
    if s.len() > 0 {
        let p = s.drop_last();
        let x = s.last();
        lemma_dedup_first(p);
        let d = dedup_first(p);
        p.lemma_push_to_set_commute(x);
        assert(p.push(x) =~= s);
        if d.contains(x) {
            assert(d.to_set().contains(x));
            assert(s.to_set() =~= p.to_set().insert(x));
            assert(d.to_set().insert(x) =~= d.to_set());
        } else {
            d.lemma_push_to_set_commute(x);
            let e = d.push(x);
            assert forall|i: int, j: int| 0 <= i < j < e.len() implies #[trigger] e[i] != #[trigger] e[j] by {
                if j == d.len() {
                    assert(e[i] == d[i]);
                } else {
                    assert(e[i] == d[i] && e[j] == d[j]);
                }
            }
        }
    }
}

/// `dedup_first` on a list of strings: each string once, in the order of its first
/// occurrence.
pub fn dedup_keep_first(v: &Vec<String>) -> (r: Vec<String>)
    ensures
        views(r@) == dedup_first(views(v@)),
{
    let ghost vv = views(v@);
    let mut r: Vec<String> = Vec::new();
    let mut i: usize = 0;
    while i < v.len()
        invariant
            i <= v@.len(),
            vv == views(v@),
            views(r@) == dedup_first(vv.take(i as int)),
        decreases v@.len() - i,
    {
        let ghost before = views(r@);
        let mut found = false;
        let mut j: usize = 0;
        while j < r.len()
            invariant
                j <= r@.len(),
                before == views(r@),
                vv == views(v@),
                i < v@.len(),
                found == exists|k: int| 0 <= k < j && before[k] == vv[i as int],
            decreases r@.len() - j,
        {
            let same = str_equals(r[j].as_str(), v[i].as_str());
            proof {
                assert(before[j as int] == r@[j as int]@);
                assert(vv[i as int] == v@[i as int]@);
                if !same && !found {
                    assert forall|k: int| 0 <= k < j + 1 implies before[k] != vv[i as int] by {
                        if k < j {
                            assert(!(0 <= k < j && before[k] == vv[i as int]));
                        }
                    }
                }
            }
            if same {
                found = true;
            }
            j = j + 1;
        }
        proof {
            let t = vv.take(i + 1);
            assert(t.drop_last() =~= vv.take(i as int));
            assert(t.last() == vv[i as int]);
            if found {
                let k = choose|k: int| 0 <= k < r@.len() && before[k] == vv[i as int];
                assert(before.contains(vv[i as int]));
            } else {
                assert(!before.contains(vv[i as int]));
            }
        }
        if !found {
            r.push(v[i].clone());
            assert(views(r@) =~= before.push(vv[i as int]));
        }
        i = i + 1;
    }
    assert(vv.take(v@.len() as int) =~= vv);
    r
}

/// The fingerprint matching of one response in this pipeline: the names of the
/// matching fingerprints in fingerprint order, each name once (at its first match).
pub fn match_fingers(fingers: &Vec<LegacyFinger>, body: &str, header: &str, icon_hash: &str) -> (r:
    Vec<String>)
    requires
        fingers_well_formed(fingers@),
    ensures
        views(r@) == dedup_first(finger_matches(fingers@, body@, header@, icon_hash@)),
{
    let mut raw: Vec<String> = Vec::new();
    let mut i: usize = 0;
    while i < fingers.len()
        invariant
            i <= fingers@.len(),
            fingers_well_formed(fingers@),
            views(raw@) == finger_matches(fingers@.take(i as int), body@, header@, icon_hash@),
        decreases fingers@.len() - i,
    {
        let f = &fingers[i];
        proof {
            assert(fingers@.take(i + 1).drop_last() =~= fingers@.take(i as int));
            assert(fingers@.take(i + 1).last() == *f);
        }
        let hit = if str_equals(f.method.as_str(), "keyword") {
            if str_equals(f.location.as_str(), "body") {
                all_keywords_in(&f.keyword, body)
            } else if str_equals(f.location.as_str(), "header") {
                all_keywords_in(&f.keyword, header)
            } else {
                false
            }
        } else if str_equals(f.method.as_str(), "faviconhash") {
            proof {
                assert(f.keyword@.len() > 0);
            }
            str_equals(icon_hash, f.keyword[0].as_str())
        } else {
            false
        };
        let ghost before = views(raw@);
        if hit {
            raw.push(f.cms.clone());
        }
        proof {
            if hit {
                assert(views(raw@) =~= before.push(f.cms@));
            } else {
                assert(views(raw@) =~= before);
            }
            assert(views(raw@) =~= finger_matches(fingers@.take(i + 1), body@, header@, icon_hash@));
        }
        i = i + 1;
    }
    assert(fingers@.take(fingers@.len() as int) =~= fingers@);
    dedup_keep_first(&raw)
}

/// The report line of this pipeline for a kept response.
pub open spec fn report_line(info: ScanInfo, cms: Seq<Seq<char>>) -> Seq<char> {
    info.url@ + " ["@ + decimal(info.status_code as nat) + "] ["@ + info.title@ + "] ["@
        + info.server@ + "] ["@ + info.jump_url@ + "] ["@ + decimal(info.content_length as nat)
        + "] "@ + debug_list_text(cms)
}

/// What `send_request` does with a digested response and its matched applications:
/// when the status is one of `codes`, the row for the result queue and the report
/// line; otherwise no row and an empty line.
pub fn send_request_outcome(info: ScanInfo, cms_list: Vec<String>, codes: &Vec<u16>) -> (r: (
    Option<PrintInfo>,
    String,
))
    ensures
        codes@.contains(info.status_code) ==> (r.0 matches Some(p) && p.url == info.url
            && p.status_code == info.status_code && p.title == info.title && p.server
            == info.server && p.jump_url == info.jump_url && p.content_length
            == info.content_length && p.cms == cms_list && r.1@ == report_line(
            info,
            views(cms_list@),
        )),
        !codes@.contains(info.status_code) ==> r.0 is None && r.1@ == Seq::<char>::empty(),
{
    let mut kept = false;
    let mut i: usize = 0;
    while i < codes.len()
        invariant
            i <= codes@.len(),
            kept == exists|j: int| 0 <= j < i && codes@[j] == info.status_code,
        decreases codes@.len() - i,
    {
        if codes[i] == info.status_code {
            kept = true;
        }
        i = i + 1;
    }
    if !kept {
        return (None, String::new());
    }
    let status = decimal_string(info.status_code as u64);
    let length = decimal_string(info.content_length as u64);
    let listed = debug_list(&cms_list);
    let s = concat(info.url.as_str(), " [");
    let s = concat(s.as_str(), status.as_str());
    let s = concat(s.as_str(), "] [");
    let s = concat(s.as_str(), info.title.as_str());
    let s = concat(s.as_str(), "] [");
    let s = concat(s.as_str(), info.server.as_str());
    let s = concat(s.as_str(), "] [");
    let s = concat(s.as_str(), info.jump_url.as_str());
    let s = concat(s.as_str(), "] [");
    let s = concat(s.as_str(), length.as_str());
    let s = concat(s.as_str(), "] ");
    let line = concat(s.as_str(), listed.as_str());
    let p = PrintInfo {
        url: info.url,
        status_code: info.status_code,
        title: info.title,
        server: info.server,
        jump_url: info.jump_url,
        content_length: info.content_length,
        cms: cms_list,
    };
    (Some(p), line)
}

} // verus!
