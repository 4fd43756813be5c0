//! Scan results and where they are written.

use vstd::prelude::*;
use crate::cli::{ScanMode, output_format_outcome};
use crate::fingerprint::FingerprintMatcher;
use crate::order::sorted_set;
use crate::response::ResponseInfo;
use crate::text::{
    chars_of, concat, decimal, decimal_string, ends_with, join_strings, push_char, seq_join,
    starts_with,
    str_ends_with, views,
};

verus! {

/// One row of the results.
pub struct SaveInfo {
    /// The URL that was requested.
    pub url: String,
    /// The status code.
    pub status: u16,
    /// The page title.
    pub title: String,
    /// The `Server` header.
    pub server: String,
    /// The URL after redirects.
    pub jump_url: String,
    /// The body length in bytes.
    pub content_length: usize,
    /// The recognised applications, joined with `||`.
    pub cms: String,
}

/// A scan result with the recognised applications as a list.
pub struct ScanResult {
    /// The URL that was requested.
    pub url: String,
    /// The status code.
    pub status: u16,
    /// The page title.
    pub title: String,
    /// The `Server` header.
    pub server: String,
    /// The body length in bytes.
    pub content_length: usize,
    /// The URL after redirects.
    pub jump_url: String,
    /// The recognised applications.
    pub cms: Vec<String>,
}

/// Results written as CSV.
pub struct CsvOutput {
    /// The file written.
    pub file_path: String,
}

/// Results written as pretty-printed JSON.
pub struct JsonOutput {
    /// The file written.
    pub file_path: String,
}

/// The writer chosen for an output file.
pub enum OutputSink {
    Csv(CsvOutput),
    Json(JsonOutput),
}

/// Results and the writer they go to.
pub struct OutputJob {
    /// Where the results go.
    pub sink: OutputSink,
    /// The results, unchanged.
    pub results: Vec<SaveInfo>,
}

impl CsvOutput {
    /// A CSV writer for `file_path`.
    pub fn new(file_path: String) -> (r: CsvOutput)
        ensures
            r.file_path == file_path,
    {
        CsvOutput { file_path }
    }
}

impl JsonOutput {
    /// A JSON writer for `file_path`.
    pub fn new(file_path: String) -> (r: Self)
        ensures
            r.file_path == file_path,
    {
        JsonOutput { file_path }
    }
}

/// `output_results`: no output without a file name; a name ending in `csv` is written
/// as CSV, any other as JSON.
pub fn output_results(results: Vec<SaveInfo>, output: Option<String>) -> (r: Option<OutputJob>)
    ensures
        match output {
            None => r is None,
            Some(name) => r matches Some(job) && job.results == results && if ends_with(
                name@,
                "csv"@,
            ) {
                job.sink matches OutputSink::Csv(c) && c.file_path == name
            } else {
                job.sink matches OutputSink::Json(j) && j.file_path == name
            },
        },
{
    match output {
        Some(name) => {
            if str_ends_with(name.as_str(), "csv") {
                Some(OutputJob { sink: OutputSink::Csv(CsvOutput::new(name)), results })
            } else {
                Some(OutputJob { sink: OutputSink::Json(JsonOutput::new(name)), results })
            }
        },
        None => None,
    }
}

/// A file name that `validate_output_format` accepts is written as CSV exactly when
/// it ends in `.csv`: the check on `csv` in `output_results` agrees with the accepted
/// extensions.
pub proof fn lemma_accepted_output_format(name: Seq<char>)
    requires
        output_format_outcome(name) is Ok,
    ensures
        ends_with(name, "csv"@) <==> ends_with(name, ".csv"@),
{
    reveal_strlit("csv");
    reveal_strlit(".csv");
    reveal_strlit(".json");
    let n = name.len();
    if ends_with(name, ".csv"@) {
        assert(name.subrange(n - 3, n as int) =~= name.subrange(n - 4, n as int).subrange(1, 4));
        assert(name.subrange(n - 4, n as int).subrange(1, 4) =~= "csv"@);
    } else {
        assert(ends_with(name, ".json"@));
        assert(name[n - 1] == name.subrange(n - 5, n as int)[4]);
        assert(name[n - 1] == 'n');
        if ends_with(name, "csv"@) {
            assert(name[n - 1] == name.subrange(n - 3, n as int)[2]);
        }
    }
}

/// What one scan reports (the part of `scan_one` after the response is digested):
/// the response's fields, and in full mode the recognised applications, sorted,
/// without duplicates and joined with `||`; in alive mode none.
pub fn save_info_from_response(
    resp: ResponseInfo,
    fingerprints: &FingerprintMatcher,
    mode: ScanMode,
) -> (r: SaveInfo)
    ensures
        r.url == resp.url,
        r.status == resp.status,
        r.title == resp.title,
        r.server == resp.server,
        r.content_length == resp.content_length,
        r.jump_url == resp.jump_url,
        r.cms@ == (if mode == ScanMode::Full {
            seq_join(sorted_set(fingerprints.raw_matches(resp)), "||"@)
        } else {
            Seq::empty()
        }),
{
    let matched = if mode == ScanMode::Full {
        fingerprints.match_response(&resp)
    } else {
        Vec::new()
    };
    let cms = join_strings(&matched, "||");
    proof {
        if mode != ScanMode::Full {
            assert(views(matched@) =~= Seq::<Seq<char>>::empty());
        }
    }
    SaveInfo {
        url: resp.url,
        status: resp.status,
        title: resp.title,
        server: resp.server,
        content_length: resp.content_length,
        jump_url: resp.jump_url,
        cms,
    }
}

/// A `||`-joined list of names with every `||` turned into `", "`: the names of the
/// list, to be put between double quotes.
pub open spec fn quote_separators(s: Seq<char>) -> Seq<char>
    decreases s.len(),
{
    if s.len() == 0 {
        Seq::empty()
    } else if s.len() >= 2 && s[0] == '|' && s[1] == '|' {
        seq!['"', ',', ' ', '"'] + quote_separators(s.skip(2))
    } else {
        seq![s[0]] + quote_separators(s.skip(1))
    }
}

/// The fingerprint field of a result line: the names of the `||`-joined `cms` as a
/// list of quoted names, such as `["A", "B"]`, and `[]` when there are none.
pub open spec fn names_field(cms: Seq<char>) -> Seq<char> {
    if cms.len() == 0 {
        seq!['[', ']']
    } else {
        seq!['[', '"'] + quote_separators(cms) + seq!['"', ']']
    }
}

/// The fingerprint field of a result line, as `names_field`.
pub fn names_field_text(cms: &str) -> (r: String)
    ensures
        r@ == names_field(cms@),
{
    let cs = chars_of(cms);
    let mut r = String::new();
    push_char(&mut r, '[');
    if cs.len() == 0 {
        push_char(&mut r, ']');
        assert(r@ =~= seq!['[', ']']);
        return r;
    }
    push_char(&mut r, '"');
    let mut pos: usize = 0;
    assert(cms@.skip(0) =~= cms@);
    assert(r@ =~= seq!['[', '"']);
    while pos < cs.len()
        invariant
            cs@ == cms@,
            pos <= cs@.len(),
            r@ + quote_separators(cms@.skip(pos as int)) == seq!['[', '"'] + quote_separators(cms@),
        decreases cs@.len() - pos,
    {
        let ghost t = cms@.skip(pos as int);
        let ghost before = r@;
        if pos + 1 < cs.len() && cs[pos] == '|' && cs[pos + 1] == '|' {
            push_char(&mut r, '"');
            push_char(&mut r, ',');
            push_char(&mut r, ' ');
            push_char(&mut r, '"');
            proof {
                assert(t[0] == cs@[pos as int] && t[1] == cs@[pos + 1]);
                assert(t.skip(2) =~= cms@.skip(pos + 2));
                assert(r@ =~= before + seq!['"', ',', ' ', '"']);
                assert(quote_separators(t) == seq!['"', ',', ' ', '"'] + quote_separators(t.skip(2)));
                assert(r@ + quote_separators(cms@.skip(pos + 2)) =~= before + quote_separators(t));
            }
            pos = pos + 2;
        } else {
            let c = cs[pos];
            push_char(&mut r, c);
            proof {
                assert(t[0] == c);
                assert(t.skip(1) =~= cms@.skip(pos + 1));
                assert(!(t.len() >= 2 && t[0] == '|' && t[1] == '|'));
                assert(quote_separators(t) == seq![c] + quote_separators(t.skip(1)));
                assert(r@ + quote_separators(cms@.skip(pos + 1)) =~= before + quote_separators(t));
            }
            pos = pos + 1;
        }
    }
    proof {
        assert(cms@.skip(cs@.len() as int) =~= Seq::<char>::empty());
        assert(r@ =~= seq!['[', '"'] + quote_separators(cms@));
    }
    push_char(&mut r, '"');
    push_char(&mut r, ']');
    assert(r@ =~= seq!['[', '"'] + quote_separators(cms@) + seq!['"', ']']);
    r
}

/// The line printed for one result:
/// `url [status] [title] [server] [length] ["name", ...]`.
pub open spec fn result_line_spec(info: SaveInfo) -> Seq<char> {
    info.url@ + " ["@ + decimal(info.status as nat) + "] ["@ + info.title@ + "] ["@ + info.server@
        + "] ["@ + decimal(info.content_length as nat) + "] "@ + names_field(info.cms@)
}

/// The layout of a printed line: it begins with the scanned URL (not the address it
/// was redirected to), ` [` and the status in decimal, and it ends with `] ` and the
/// quoted names.
pub proof fn lemma_result_line_layout(info: SaveInfo)
    ensures
        starts_with(result_line_spec(info), info.url@ + " ["@ + decimal(info.status as nat) + "]"@),
        ends_with(result_line_spec(info), "] "@ + names_field(info.cms@)),
{
    let line = result_line_spec(info);
    let head = info.url@ + " ["@ + decimal(info.status as nat) + "]"@;
    let tail = "] "@ + names_field(info.cms@);
    reveal_strlit("] [");
    reveal_strlit("]");
    reveal_strlit("] ");
    reveal_strlit(" [");
    assert("] ["@ =~= "]"@ + " ["@);
    let mid = " ["@ + info.title@ + "] ["@ + info.server@ + "] ["@ + decimal(
        info.content_length as nat,
    );
    let a = info.url@ + " ["@ + decimal(info.status as nat);
    assert(line == a + "] ["@ + info.title@ + "] ["@ + info.server@ + "] ["@ + decimal(
        info.content_length as nat,
    ) + "] "@ + names_field(info.cms@));
    assert(a + "] ["@ =~= head + " ["@);
    assert(line =~= head + mid + tail);
    assert(line.subrange(0, head.len() as int) =~= head);
    assert(line.subrange(line.len() - tail.len(), line.len() as int) =~= tail);
}

/// The line printed for one result as it arrives.
pub fn result_line(info: &SaveInfo) -> (r: String)
    ensures
        r@ == result_line_spec(*info),
{
    let status = decimal_string(info.status as u64);
    let length = decimal_string(info.content_length as u64);
    let names = names_field_text(info.cms.as_str());
    let s = concat(info.url.as_str(), " [");
    let s = concat(s.as_str(), status.as_str());
    let s = concat(s.as_str(), "] [");
    let s = concat(s.as_str(), info.title.as_str());
    let s = concat(s.as_str(), "] [");
    let s = concat(s.as_str(), info.server.as_str());
    let s = concat(s.as_str(), "] [");
    let s = concat(s.as_str(), length.as_str());
    let s = concat(s.as_str(), "] ");
    concat(s.as_str(), names.as_str())
}

/// The number of requests in flight at once: the thread option, at least 1.
pub fn worker_count(threads: usize) -> (r: usize)
    ensures
        r == if threads == 0 { 1 } else { threads },
{
    if threads == 0 {
        1
    } else {
        threads
    }
}

} // verus!
