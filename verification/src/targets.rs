//! Turning the targets given on the command line or in a file into the list
//! of URLs to request.

use vstd::prelude::*;
use crate::cidr::{expand_cidr, expand_cidr_spec, is_cidr, is_cidr_spec};
use crate::cli::Args;
use crate::order::{sort_dedup, sorted_set, strictly_sorted};
use crate::text::{
    chars_of, concat, ends_with, extend_strings, find_last, last_index_of, lemma_first_index_of,
    lemma_last_index_of, lemma_views_concat,
    range_equals, starts_with, str_ends_with, str_starts_with, string_from_range, trim,
    trim_start_char, trim_string, views,
};

verus! {

/// The URL scheme prefixes that mark a target as already complete.
pub open spec fn has_http_scheme_spec(s: Seq<char>) -> bool {
    starts_with(s, "http://"@) || starts_with(s, "https://"@)
}

/// Both plain and TLS URLs for a target without a scheme.
pub open spec fn both_schemes(s: Seq<char>) -> Seq<Seq<char>> {
    seq!["http://"@ + s, "https://"@ + s]
}

/// `expand_ip_or_domain`: a complete URL is kept; a target ending in port 443 gets
/// `https://`, one ending in port 80 gets `http://`, any other gets both.
pub open spec fn expand_ip_or_domain_spec(s: Seq<char>) -> Seq<Seq<char>> {
    if has_http_scheme_spec(s) {
        seq![s]
    } else {
        match last_index_of(s, ':') {
            Some(i) => {
                let port = s.skip(i + 1);
                if port == "443"@ {
                    seq!["https://"@ + s]
                } else if port == "80"@ {
                    seq!["http://"@ + s]
                } else {
                    both_schemes(s)
                }
            },
            None => both_schemes(s),
        }
    }
}

/// The port rule for a target without a scheme whose last `:` stands at `k`: when the
/// text after it is exactly `443` only an `https://` URL is made, when it is exactly
/// `80` only an `http://` URL, and for any other text (another port such as `8443`)
/// both, each with the target unchanged after the scheme.
pub proof fn lemma_port_rule(s: Seq<char>, k: int)
    requires
        !starts_with(s, "http://"@),
        !starts_with(s, "https://"@),
        0 <= k < s.len(),
        s[k] == ':',
        forall|j: int| k < j < s.len() ==> s[j] != ':',
    ensures
        s.subrange(k + 1, s.len() as int) == "443"@ ==> expand_ip_or_domain_spec(s) == seq![
            "https://"@ + s,
        ],
        s.subrange(k + 1, s.len() as int) == "80"@ ==> expand_ip_or_domain_spec(s) == seq![
            "http://"@ + s,
        ],
        s.subrange(k + 1, s.len() as int) != "443"@ && s.subrange(k + 1, s.len() as int) != "80"@
            ==> expand_ip_or_domain_spec(s) == seq!["http://"@ + s, "https://"@ + s],
{
    reveal_strlit("443");
    reveal_strlit("80");
    assert("80"@.len() != "443"@.len());
    lemma_last_index_of(s, ':');
    let i = last_index_of(s, ':').unwrap();
    assert(i == k);
    assert(s.skip(k + 1) =~= s.subrange(k + 1, s.len() as int));
}

/// A target without a scheme and without any `:` gets both an `http://` and an
/// `https://` URL.
pub proof fn lemma_no_port_both_schemes(s: Seq<char>)
    requires
        !starts_with(s, "http://"@),
        !starts_with(s, "https://"@),
        forall|j: int| 0 <= j < s.len() ==> s[j] != ':',
    ensures
        expand_ip_or_domain_spec(s) == seq!["http://"@ + s, "https://"@ + s],
{
    lemma_last_index_of(s, ':');
}

/// `expand_ip_or_domain` applied to each target in turn, results concatenated.
pub open spec fn expand_each(targets: Seq<Seq<char>>) -> Seq<Seq<char>>
    decreases targets.len(),
{
    if targets.len() == 0 {
        Seq::empty()
    } else {
        expand_each(targets.drop_last()) + expand_ip_or_domain_spec(targets.last())
    }
}

/// Both schemes for each address in turn (the single-target form of a network).
pub open spec fn both_schemes_each(addrs: Seq<Seq<char>>) -> Seq<Seq<char>>
    decreases addrs.len(),
{
    if addrs.len() == 0 {
        Seq::empty()
    } else {
        both_schemes_each(addrs.drop_last()) + both_schemes(addrs.last())
    }
}

/// `expand_line`: the URLs for one (trimmed) line of a target file.
pub open spec fn expand_line_spec(line: Seq<char>) -> Seq<Seq<char>> {
    if has_http_scheme_spec(line) {
        seq![line]
    } else if is_cidr_spec(line) {
        expand_each(expand_cidr_spec(line))
    } else {
        expand_ip_or_domain_spec(line)
    }
}

/// A line of a target file that holds no target: blank, or a `#` comment.
pub open spec fn is_skipped_line(t: Seq<char>) -> bool {
    t.len() == 0 || t[0] == '#'
}

/// The URLs for the lines of a target file, in order.
pub open spec fn lines_urls(lines: Seq<Seq<char>>) -> Seq<Seq<char>>
    decreases lines.len(),
{
    if lines.len() == 0 {
        Seq::empty()
    } else {
        let t = trim(lines.last());
        lines_urls(lines.drop_last()) + if is_skipped_line(t) {
            Seq::empty()
        } else {
            expand_line_spec(t)
        }
    }
}

/// The URLs for the target given with `--url`.
pub open spec fn single_target_urls(url: Seq<char>) -> Seq<Seq<char>> {
    if has_http_scheme_spec(url) {
        seq![url]
    } else if is_cidr_spec(url) {
        both_schemes_each(expand_cidr_spec(url))
    } else {
        expand_ip_or_domain_spec(url)
    }
}

/// A `--url` target without a scheme and without a `/` (so not a network) is expanded
/// by the port rule of `expand_ip_or_domain`.
pub proof fn lemma_single_target_port_rule(url: Seq<char>)
    requires
        !starts_with(url, "http://"@),
        !starts_with(url, "https://"@),
        forall|j: int| 0 <= j < url.len() ==> url[j] != '/',
    ensures
        single_target_urls(url) == expand_ip_or_domain_spec(url),
{
    lemma_first_index_of(url, '/');
}

/// One URL with `path` (stripped of leading slashes) appended after a single `/`.
pub open spec fn with_path(url: Seq<char>, path: Seq<char>) -> Seq<char> {
    let p = trim_start_char(path, '/');
    if ends_with(url, "/"@) {
        url + p
    } else {
        url + "/"@ + p
    }
}

/// `normalize_urls`: `with_path` applied to every URL.
pub open spec fn normalize_spec(urls: Seq<Seq<char>>, path: Seq<char>) -> Seq<Seq<char>> {
    urls.map_values(|u: Seq<char>| with_path(u, path))
}

/// All URLs before sorting: the single target's, then the file's, then the path added.
pub open spec fn collected_urls(
    url: Option<Seq<char>>,
    has_file: bool,
    lines: Seq<Seq<char>>,
    path: Option<Seq<char>>,
) -> Seq<Seq<char>> {
    let single = match url {
        Some(u) => single_target_urls(u),
        None => Seq::empty(),
    };
    let from_file = if has_file {
        lines_urls(lines)
    } else {
        Seq::empty()
    };
    match path {
        Some(p) => normalize_spec(single + from_file, p),
        None => single + from_file,
    }
}

/// The view of an optional string.
pub open spec fn opt_view(o: Option<String>) -> Option<Seq<char>> {
    match o {
        Some(s) => Some(s@),
        None => None,
    }
}

/// Every URL in `urls` starts with `http://` or `https://`.
pub open spec fn all_have_scheme(urls: Seq<Seq<char>>) -> bool {
    forall|i: int| 0 <= i < urls.len() ==> has_http_scheme_spec(#[trigger] urls[i])
}

/// A scheme prefix in front of any text gives a URL with that scheme.
proof fn lemma_prefixed(prefix: Seq<char>, s: Seq<char>)
    requires
        prefix == "http://"@ || prefix == "https://"@,
    ensures
        has_http_scheme_spec(prefix + s),
{
    assert((prefix + s).subrange(0, prefix.len() as int) =~= prefix);
}

/// Appending text keeps the scheme of a URL.
proof fn lemma_scheme_kept(u: Seq<char>, x: Seq<char>)
    requires
        has_http_scheme_spec(u),
    ensures
        has_http_scheme_spec(u + x),
{
    if starts_with(u, "http://"@) {
        assert((u + x).subrange(0, "http://"@.len() as int) =~= u.subrange(0, "http://"@.len() as int));
    } else {
        assert((u + x).subrange(0, "https://"@.len() as int) =~= u.subrange(0, "https://"@.len() as int));
    }
}

/// Concatenating lists of URLs with schemes.
proof fn lemma_all_concat(a: Seq<Seq<char>>, b: Seq<Seq<char>>)
    requires
        all_have_scheme(a),
        all_have_scheme(b),
    ensures
        all_have_scheme(a + b),
{
    assert forall|i: int| 0 <= i < (a + b).len() implies has_http_scheme_spec(#[trigger] (a + b)[i]) by {
        if i < a.len() {
            assert((a + b)[i] == a[i]);
        } else {
            assert((a + b)[i] == b[i - a.len()]);
        }
    }
}

/// `both_schemes` gives URLs with schemes.
proof fn lemma_both_schemes(s: Seq<char>)
    ensures
        all_have_scheme(both_schemes(s)),
{
    lemma_prefixed("http://"@, s);
    lemma_prefixed("https://"@, s);
}

/// `expand_ip_or_domain` gives URLs with schemes.
proof fn lemma_expand_ip_or_domain_schemes(s: Seq<char>)
    ensures
        all_have_scheme(expand_ip_or_domain_spec(s)),
{
    lemma_both_schemes(s);
    lemma_prefixed("http://"@, s);
    lemma_prefixed("https://"@, s);
}

/// `expand_each` gives URLs with schemes.
proof fn lemma_expand_each_schemes(t: Seq<Seq<char>>)
    ensures
        all_have_scheme(expand_each(t)),
    decreases t.len(),
{
    if t.len() > 0 {
        lemma_expand_each_schemes(t.drop_last());
        lemma_expand_ip_or_domain_schemes(t.last());
        lemma_all_concat(expand_each(t.drop_last()), expand_ip_or_domain_spec(t.last()));
    }
}

/// `both_schemes_each` gives URLs with schemes.
proof fn lemma_both_schemes_each_schemes(t: Seq<Seq<char>>)
    ensures
        all_have_scheme(both_schemes_each(t)),
    decreases t.len(),
{
    if t.len() > 0 {
        lemma_both_schemes_each_schemes(t.drop_last());
        lemma_both_schemes(t.last());
        lemma_all_concat(both_schemes_each(t.drop_last()), both_schemes(t.last()));
    }
}

/// `expand_line` gives URLs with schemes.
proof fn lemma_expand_line_schemes(line: Seq<char>)
    ensures
        all_have_scheme(expand_line_spec(line)),
{
    lemma_expand_each_schemes(expand_cidr_spec(line));
    lemma_expand_ip_or_domain_schemes(line);
}

/// The lines of a target file give URLs with schemes.
proof fn lemma_lines_urls_schemes(lines: Seq<Seq<char>>)
    ensures
        all_have_scheme(lines_urls(lines)),
    decreases lines.len(),
{
    if lines.len() > 0 {
        lemma_lines_urls_schemes(lines.drop_last());
        let t = trim(lines.last());
        lemma_expand_line_schemes(t);
        let tail: Seq<Seq<char>> = if is_skipped_line(t) {
            Seq::empty()
        } else {
            expand_line_spec(t)
        };
        lemma_all_concat(lines_urls(lines.drop_last()), tail);
    }
}

/// Every URL to be scanned starts with `http://` or `https://`: targets without a
/// scheme are given one, and the path only ever goes after the URL.
pub proof fn lemma_collected_urls_have_scheme(
    url: Option<Seq<char>>,
    has_file: bool,
    lines: Seq<Seq<char>>,
    path: Option<Seq<char>>,
)
    ensures
        all_have_scheme(collected_urls(url, has_file, lines, path)),
{
    let single = match url {
        Some(u) => single_target_urls(u),
        None => Seq::empty(),
    };
    let from_file = if has_file {
        lines_urls(lines)
    } else {
        Seq::empty()
    };
    if let Some(u) = url {
        lemma_both_schemes_each_schemes(expand_cidr_spec(u));
        lemma_expand_ip_or_domain_schemes(u);
    }
    lemma_lines_urls_schemes(lines);
    lemma_all_concat(single, from_file);
    if let Some(p) = path {
        let all = single + from_file;
        assert forall|i: int| 0 <= i < all.len() implies has_http_scheme_spec(
            #[trigger] normalize_spec(all, p)[i],
        ) by {
            let q = trim_start_char(p, '/');
            if ends_with(all[i], "/"@) {
                lemma_scheme_kept(all[i], q);
            } else {
                lemma_scheme_kept(all[i], "/"@ + q);
                assert(all[i] + "/"@ + q =~= all[i] + ("/"@ + q));
            }
        }
    }
}

/// `has_http_scheme`: the target already starts with `http://` or `https://`.
pub fn has_http_scheme(input: &str) -> (r: bool)
    ensures
        r == has_http_scheme_spec(input@),
{
    str_starts_with(input, "http://") || str_starts_with(input, "https://")
}

/// `expand_ip_or_domain`: the URLs for one target (see `expand_ip_or_domain_spec`).
pub fn expand_ip_or_domain(input: &str) -> (r: Vec<String>)
    ensures
        views(r@) == expand_ip_or_domain_spec(input@),
{
    if has_http_scheme(input) {
        let r = vec![input.to_owned()];
        assert(views(r@) =~= seq![input@]);
        return r;
    }
    let cs = chars_of(input);
    proof {
        assert(cs@.subrange(0, cs@.len() as int) =~= input@);
    }
    proof {
        crate::text::lemma_last_index_of(input@, ':');
    }
    let https_url = concat("https://", input);
    let http_url = concat("http://", input);
    match find_last(&cs, 0, cs.len(), ':') {
        Some(i) => {
            proof {
                assert(cs@.subrange(i + 1, cs@.len() as int) =~= input@.skip(i + 1));
            }
            if range_equals(&cs, i + 1, cs.len(), "443") {
                let r = vec![https_url];
                assert(views(r@) =~= seq!["https://"@ + input@]);
                r
            } else if range_equals(&cs, i + 1, cs.len(), "80") {
                let r = vec![http_url];
                assert(views(r@) =~= seq!["http://"@ + input@]);
                r
            } else {
                let r = vec![http_url, https_url];
                assert(views(r@) =~= both_schemes(input@));
                r
            }
        },
        None => {
            let r = vec![http_url, https_url];
            assert(views(r@) =~= both_schemes(input@));
            r
        },
    }
}

/// `expand_ip_or_domain` on each target in turn.
fn expand_each_exec(targets: &Vec<String>) -> (r: Vec<String>)
    ensures
        views(r@) == expand_each(views(targets@)),
{
    let ghost tv = views(targets@);
    let mut r: Vec<String> = Vec::new();
    let mut i: usize = 0;
    while i < targets.len()
        invariant
            i <= targets@.len(),
            tv == views(targets@),
            views(r@) == expand_each(tv.take(i as int)),
        decreases targets@.len() - i,
    {
        let more = expand_ip_or_domain(targets[i].as_str());
        let ghost before = r@;
        extend_strings(&mut r, &more);
        proof {
            lemma_views_concat(before, more@);
            assert(tv.take(i + 1).drop_last() =~= tv.take(i as int));
        }
        i = i + 1;
    }
    assert(tv.take(targets@.len() as int) =~= tv);
    r
}

/// Both schemes for each address in turn.
fn both_schemes_each_exec(addrs: &Vec<String>) -> (r: Vec<String>)
    ensures
        views(r@) == both_schemes_each(views(addrs@)),
{
    let ghost av = views(addrs@);
    let mut r: Vec<String> = Vec::new();
    let mut i: usize = 0;
    while i < addrs.len()
        invariant
            i <= addrs@.len(),
            av == views(addrs@),
            views(r@) == both_schemes_each(av.take(i as int)),
        decreases addrs@.len() - i,
    {
        let ghost before = views(r@);
        r.push(concat("http://", addrs[i].as_str()));
        r.push(concat("https://", addrs[i].as_str()));
        proof {
            assert(av.take(i + 1).drop_last() =~= av.take(i as int));
            assert(views(r@) =~= before + both_schemes(av[i as int]));
        }
        i = i + 1;
    }
    assert(av.take(addrs@.len() as int) =~= av);
    r
}

/// `expand_line`: the URLs for one trimmed line of a target file.
pub fn expand_line(line: &str) -> (r: Vec<String>)
    ensures
        views(r@) == expand_line_spec(line@),
{
    if has_http_scheme(line) {
        let r = vec![line.to_owned()];
        assert(views(r@) =~= seq![line@]);
        return r;
    }
    if is_cidr(line) {
        let addrs = expand_cidr(line);
        return expand_each_exec(&addrs);
    }
    expand_ip_or_domain(line)
}

/// The URLs for the lines of a target file, once it is read: each line is trimmed, blank lines and `#` comments are skipped, and
/// every other line is expanded with `expand_line`.
pub fn urls_from_lines(lines: &Vec<String>) -> (r: Vec<String>)
    ensures
        views(r@) == lines_urls(views(lines@)),
{
    let ghost lv = views(lines@);
    let mut r: Vec<String> = Vec::new();
    let mut i: usize = 0;
    while i < lines.len()
        invariant
            i <= lines@.len(),
            lv == views(lines@),
            views(r@) == lines_urls(lv.take(i as int)),
        decreases lines@.len() - i,
    {
        let t = trim_string(lines[i].as_str());
        let ghost before = r@;
        proof {
            assert(lv.take(i + 1).drop_last() =~= lv.take(i as int));
            assert(lv.take(i + 1).last() == lines@[i as int]@);
        }
        if t.as_str().is_empty() || str_starts_with(t.as_str(), "#") {
            proof {
                if t@.len() > 0 {
                    assert(t@.subrange(0, 1)[0] == t@[0]);
                    reveal_strlit("#");
                }
                assert(views(r@) =~= lines_urls(lv.take(i + 1)));
            }
        } else {
            let more = expand_line(t.as_str());
            extend_strings(&mut r, &more);
            proof {
                reveal_strlit("#");
                assert(t@[0] != '#') by {
                    if t@[0] == '#' {
                        assert(t@.subrange(0, 1) =~= "#"@);
                    }
                }
                assert(!is_skipped_line(t@));
                lemma_views_concat(before, more@);
            }
        }
        i = i + 1;
    }
    assert(lv.take(lines@.len() as int) =~= lv);
    r
}

/// `path` without its leading slashes (`trim_start_matches('/')`).
fn trim_leading_slashes(path: &str) -> (r: String)
    ensures
        r@ == trim_start_char(path@, '/'),
{
    let cs = chars_of(path);
    let mut a: usize = 0;
    assert(path@.skip(0) =~= path@);
    while a < cs.len() && cs[a] == '/'
        invariant
            cs@ == path@,
            a <= cs@.len(),
            trim_start_char(path@, '/') == trim_start_char(path@.skip(a as int), '/'),
        decreases cs@.len() - a,
    {
        assert(path@.skip(a as int).drop_first() =~= path@.skip(a + 1));
        a = a + 1;
    }
    assert(path@.skip(a as int) =~= cs@.subrange(a as int, cs@.len() as int));
    string_from_range(&cs, a, cs.len())
}

/// `normalize_urls`: appends `path` (without its leading slashes) to every URL,
/// putting a single `/` between them.
pub fn normalize_urls(urls: Vec<String>, path: &str) -> (r: Vec<String>)
    ensures
        views(r@) == normalize_spec(views(urls@), path@),
{
    let p = trim_leading_slashes(path);
    let ghost uv = views(urls@);
    let mut r: Vec<String> = Vec::new();
    let mut i: usize = 0;
    while i < urls.len()
        invariant
            i <= urls@.len(),
            uv == views(urls@),
            p@ == trim_start_char(path@, '/'),
            r@.len() == i,
            views(r@) == normalize_spec(uv.take(i as int), path@),
        decreases urls@.len() - i,
    {
        let u = urls[i].as_str();
        let joined = if str_ends_with(u, "/") {
            concat(u, p.as_str())
        } else {
            let with_slash = concat(u, "/");
            concat(with_slash.as_str(), p.as_str())
        };
        let ghost before = views(r@);
        assert(joined@ == with_path(uv[i as int], path@));
        r.push(joined);
        proof {
            let want = normalize_spec(uv.take(i + 1), path@);
            assert forall|j: int| 0 <= j < i + 1 implies views(r@)[j] == want[j] by {
                if j < i {
                    assert(before[j] == normalize_spec(uv.take(i as int), path@)[j]);
                }
            }
            assert(views(r@) =~= normalize_spec(uv.take(i + 1), path@));
        }
        i = i + 1;
    }
    assert(uv.take(urls@.len() as int) =~= uv);
    r
}

/// `build_urls`: the sorted, duplicate-free list of URLs to scan.
///
/// `file_lines` holds the lines of the file named by `args.file`; it is used only
/// when `args.file` is given.
pub fn build_urls(args: &Args, file_lines: &Vec<String>) -> (r: Vec<String>)
    ensures
        views(r@) == sorted_set(
            collected_urls(
                opt_view(args.url),
                args.file is Some,
                views(file_lines@),
                opt_view(args.path),
            ),
        ),
        strictly_sorted(views(r@)),
        all_have_scheme(views(r@)),
        views(r@).to_set() == collected_urls(
            opt_view(args.url),
            args.file is Some,
            views(file_lines@),
            opt_view(args.path),
        ).to_set(),
{
    let mut urls: Vec<String> = Vec::new();
    if let Some(url) = &args.url {
        let u = url.as_str();
        if has_http_scheme(u) {
            urls.push(url.clone());
            assert(views(urls@) =~= seq![url@]);
        } else if is_cidr(u) {
            let addrs = expand_cidr(u);
            urls = both_schemes_each_exec(&addrs);
        } else {
            urls = expand_ip_or_domain(u);
        }
    }
    let ghost before = urls@;
    if args.file.is_some() {
        let from_file = urls_from_lines(file_lines);
        extend_strings(&mut urls, &from_file);
        proof {
            lemma_views_concat(before, from_file@);
        }
    } else {
        assert(views(urls@) =~= views(before) + Seq::empty());
    }
    if let Some(path) = &args.path {
        urls = normalize_urls(urls, path.as_str());
    }
    let ghost all = views(urls@);
    let r = sort_dedup(urls);
    proof {
        lemma_collected_urls_have_scheme(
            opt_view(args.url),
            args.file is Some,
            views(file_lines@),
            opt_view(args.path),
        );
        assert forall|i: int| 0 <= i < views(r@).len() implies has_http_scheme_spec(
            #[trigger] views(r@)[i],
        ) by {
            assert(views(r@).to_set().contains(views(r@)[i]));
            assert(all.to_set().contains(views(r@)[i]));
            let j = choose|j: int| 0 <= j < all.len() && all[j] == views(r@)[i];
            assert(has_http_scheme_spec(all[j]));
        }
    }
    r
}

} // verus!
