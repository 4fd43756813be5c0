use windfire::cli::ScanMode;
use windfire::fingerprint::{Fingerprint, FingerprintMatcher, MatchLocation, MatchMethod};
use windfire::output::{
    names_field_text, output_results, result_line, save_info_from_response, worker_count, CsvOutput, JsonOutput,
    OutputSink, SaveInfo,
};
use windfire::response::ResponseInfo;

fn row(url: &str) -> SaveInfo {
    SaveInfo {
        url: url.to_string(),
        status: 200,
        title: "T".to_string(),
        server: "S".to_string(),
        jump_url: url.to_string(),
        content_length: 414219,
        cms: "CMS".to_string(),
    }
}

#[test]
fn constructors() {
    assert_eq!(CsvOutput::new("a.csv".to_string()).file_path, "a.csv");
    assert_eq!(JsonOutput::new("a.json".to_string()).file_path, "a.json");
}

#[test]
fn sink_by_extension() {
    assert!(output_results(vec![row("u")], None).is_none());
    let job = output_results(vec![row("u")], Some("out.csv".to_string())).unwrap();
    assert_eq!(job.results.len(), 1);
    match job.sink {
        OutputSink::Csv(c) => assert_eq!(c.file_path, "out.csv"),
        OutputSink::Json(_) => panic!("expected csv"),
    }
    let job = output_results(vec![], Some("out.json".to_string())).unwrap();
    match job.sink {
        OutputSink::Json(j) => assert_eq!(j.file_path, "out.json"),
        OutputSink::Csv(_) => panic!("expected json"),
    }
    let job = output_results(vec![], Some("resultcsv".to_string())).unwrap();
    assert!(matches!(job.sink, OutputSink::Csv(_)));
}

#[test]
fn printed_line() {
    assert_eq!(
        result_line(&row("https://www.baidu.com")),
        "https://www.baidu.com [200] [T] [S] [414219] [\"CMS\"]"
    );
}

#[test]
fn quoted_names() {
    assert_eq!(names_field_text(""), "[]");
    assert_eq!(names_field_text("CMS"), "[\"CMS\"]");
    assert_eq!(names_field_text("A||B||C"), "[\"A\", \"B\", \"C\"]");
    assert_eq!(names_field_text("a|b"), "[\"a|b\"]");
}

#[test]
fn worker_count_at_least_one() {
    assert_eq!(worker_count(0), 1);
    assert_eq!(worker_count(50), 50);
}

fn matcher() -> FingerprintMatcher {
    FingerprintMatcher::new(vec![
        Fingerprint {
            cms: "B".to_string(),
            method: MatchMethod::Keyword,
            location: MatchLocation::Body,
            keyword: vec!["x".to_string()],
        },
        Fingerprint {
            cms: "A".to_string(),
            method: MatchMethod::Keyword,
            location: MatchLocation::Body,
            keyword: vec![],
        },
    ])
}

fn resp() -> ResponseInfo {
    ResponseInfo {
        url: "http://t".to_string(),
        status: 301,
        title: "t".to_string(),
        server: "s".to_string(),
        content_length: 3,
        headers: String::new(),
        jump_url: "http://t/".to_string(),
        body: "xyz".to_string(),
        favicon_hash: None,
    }
}

#[test]
fn full_mode_reports_fingerprints() {
    let r = save_info_from_response(resp(), &matcher(), ScanMode::Full);
    assert_eq!(r.cms, "A||B");
    assert_eq!(r.status, 301);
    assert_eq!(r.jump_url, "http://t/");
    assert_eq!(r.content_length, 3);
}

#[test]
fn alive_mode_reports_none() {
    let r = save_info_from_response(resp(), &matcher(), ScanMode::Alive);
    assert_eq!(r.cms, "");
    assert_eq!(r.url, "http://t");
}
