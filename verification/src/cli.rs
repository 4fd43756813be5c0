//! Command-line options and the checks applied to their values.

use vstd::prelude::*;
use crate::text::{
    chars_of, concat, decimal, ends_with, lemma_decimal_roundtrip, owned, parse_unsigned, parse_unsigned_in, str_ends_with,
    str_equals,
};
use crate::weburl::{parse_url, url_parse};

verus! {

/// How much work a scan does for each live target.
#[derive(PartialEq, Eq, Structural, Clone, Copy, Debug)]
pub enum ScanMode {
    /// Liveness only.
    Alive,
    /// Liveness and fingerprinting.
    Full,
}

/// The options of one run.
pub struct Args {
    /// Number of concurrent requests (1 to 5000).
    pub thread: usize,
    /// A single target.
    pub url: Option<String>,
    /// A file with one target per line.
    pub file: Option<String>,
    /// Request timeout in seconds (1 to 60).
    pub timeout: u64,
    /// Status codes to display.
    pub status_code: Vec<u16>,
    /// Path appended to every target.
    pub path: Option<String>,
    /// Proxy URL (http, https or socks5).
    pub proxy: Option<String>,
    /// Output file (`.csv` or `.json`).
    pub output: Option<String>,
    /// Scan mode.
    pub mode: ScanMode,
    /// Maximum requests per second; 0 means unlimited.
    pub rate: u32,
}

/// A `Result` whose error text is taken by its view.
pub open spec fn result_view<T>(r: Result<T, String>) -> Result<T, Seq<char>> {
    match r {
        Ok(v) => Ok(v),
        Err(e) => Err(e@),
    }
}

/// A `Result` of strings taken by its views.
pub open spec fn text_result_view(r: Result<String, String>) -> Result<Seq<char>, Seq<char>> {
    match r {
        Ok(v) => Ok(v@),
        Err(e) => Err(e@),
    }
}

/// What `validate_thread_range` answers for `s`.
pub open spec fn thread_range_outcome(s: Seq<char>) -> Result<usize, Seq<char>> {
    match parse_unsigned(s) {
        Some(n) => if n > usize::MAX {
            Err("Invalid number of threads"@)
        } else if 1 <= n && n <= 5000 {
            Ok(n as usize)
        } else {
            Err("Thread count must be between 1 and 5000"@)
        },
        None => Err("Invalid number of threads"@),
    }
}

/// Every count from 1 to 5000, written in decimal, is accepted as that count.
pub proof fn lemma_thread_counts_accepted(n: nat)
    requires
        1 <= n <= 5000,
    ensures
        thread_range_outcome(decimal(n)) == Ok::<usize, Seq<char>>(n as usize),
{
    lemma_decimal_roundtrip(n);
}

/// What `validate_output_format` answers for `s`.
pub open spec fn output_format_outcome(s: Seq<char>) -> Result<Seq<char>, Seq<char>> {
    if ends_with(s, ".csv"@) || ends_with(s, ".json"@) {
        Ok(s)
    } else {
        Err("Invalid output format"@)
    }
}

/// Checks a thread count: a number from 1 to 5000.
pub fn validate_thread_range(s: &str) -> (r: Result<usize, String>)
    ensures
        result_view(r) == thread_range_outcome(s@),
{
    let cs = chars_of(s);
    proof {
        assert(cs@.subrange(0, cs@.len() as int) =~= s@);
    }
    match parse_unsigned_in(&cs, 0, cs.len(), usize::MAX as u64) {
        Some(n) => {
            if 1 <= n && n <= 5000 {
                Ok(n as usize)
            } else {
                Err(owned("Thread count must be between 1 and 5000"))
            }
        },
        None => Err(owned("Invalid number of threads")),
    }
}

/// Checks an output file name: it must end in `.csv` or `.json`.
pub fn validate_output_format(s: &str) -> (r: Result<String, String>)
    ensures
        text_result_view(r) == output_format_outcome(s@),
{
    if str_ends_with(s, ".csv") || str_ends_with(s, ".json") {
        Ok(owned(s))
    } else {
        Err(owned("Invalid output format"))
    }
}

/// What `validate_proxy_url` answers for `s` whose parsed scheme is `scheme`
/// (`None` when `s` does not parse as a URL).
pub open spec fn proxy_outcome(s: Seq<char>, scheme: Option<Seq<char>>) -> Result<
    Seq<char>,
    Seq<char>,
> {
    match scheme {
        None => Err("'"@ + s + "' is not a valid URL format"@),
        Some(sc) => if sc == "http"@ || sc == "https"@ || sc == "socks5"@ {
            Ok(s)
        } else {
            Err("Invalid proxy protocol. Supported protocols are http, https and socks5"@)
        },
    }
}

/// The scheme of `s` as `url::Url::parse` reads it.
pub open spec fn parsed_scheme(s: Seq<char>) -> Option<Seq<char>> {
    match url_parse(s) {
        Some((scheme, _)) => Some(scheme),
        None => None,
    }
}

/// The view of an optional string slice.
pub open spec fn opt_str_view(o: Option<&str>) -> Option<Seq<char>> {
    match o {
        Some(s) => Some(s@),
        None => None,
    }
}

/// Decides on a proxy URL `s` given the scheme it parsed to (`None` when it did
/// not parse): http, https and socks5 are accepted.
pub fn proxy_check(s: &str, scheme: Option<&str>) -> (r: Result<String, String>)
    ensures
        text_result_view(r) == proxy_outcome(s@, opt_str_view(scheme)),
{
    match scheme {
        None => {
            let quoted = concat("'", s);
            Err(concat(quoted.as_str(), "' is not a valid URL format"))
        },
        Some(sc) => {
            if str_equals(sc, "http") || str_equals(sc, "https") || str_equals(sc, "socks5") {
                Ok(owned(s))
            } else {
                Err(owned("Invalid proxy protocol. Supported protocols are http, https and socks5"))
            }
        },
    }
}

/// Checks a proxy URL: it must parse, with scheme http, https or socks5.
pub fn validate_proxy_url(s: &str) -> (r: Result<String, String>)
    ensures
        text_result_view(r) == proxy_outcome(s@, parsed_scheme(s@)),
{
    match parse_url(s) {
        Some((scheme, _)) => proxy_check(s, Some(scheme.as_str())),
        None => proxy_check(s, None),
    }
}

} // verus!
