use windfire::cli::{Args, ScanMode};
use windfire::targets::{
    build_urls, expand_ip_or_domain, expand_line, has_http_scheme, normalize_urls, urls_from_lines,
};

fn s(v: &[&str]) -> Vec<String> {
    v.iter().map(|x| x.to_string()).collect()
}

fn args(url: Option<&str>, file: Option<&str>, path: Option<&str>) -> Args {
    Args {
        thread: 50,
        url: url.map(|x| x.to_string()),
        file: file.map(|x| x.to_string()),
        timeout: 10,
        status_code: vec![],
        path: path.map(|x| x.to_string()),
        proxy: None,
        output: None,
        mode: ScanMode::Full,
        rate: 0,
    }
}

#[test]
fn scheme_detection() {
    assert!(has_http_scheme("http://a"));
    assert!(has_http_scheme("https://a"));
    assert!(!has_http_scheme("ftp://a"));
    assert!(!has_http_scheme("HTTP://a"));
    assert!(!has_http_scheme("a.com"));
}

#[test]
fn hosts_and_ports() {
    assert_eq!(expand_ip_or_domain("example.com"), s(&["http://example.com", "https://example.com"]));
    assert_eq!(expand_ip_or_domain("example.com:443"), s(&["https://example.com:443"]));
    assert_eq!(expand_ip_or_domain("1.1.1.1:80"), s(&["http://1.1.1.1:80"]));
    assert_eq!(expand_ip_or_domain("a:8080"), s(&["http://a:8080", "https://a:8080"]));
    assert_eq!(expand_ip_or_domain("https://x.org"), s(&["https://x.org"]));
    assert_eq!(expand_ip_or_domain("a:b:443"), s(&["https://a:b:443"]));
}

#[test]
fn file_line_with_network() {
    assert_eq!(
        expand_line("10.0.0.4/31"),
        s(&["http://10.0.0.4", "https://10.0.0.4", "http://10.0.0.5", "https://10.0.0.5"])
    );
    assert_eq!(expand_line("http://x"), s(&["http://x"]));
    assert_eq!(expand_line("x:80"), s(&["http://x:80"]));
}

#[test]
fn file_lines_skip_blanks_and_comments() {
    let lines = s(&["  example.com  ", "", "   ", "# comment", "http://b.org", "c:443\r"]);
    assert_eq!(
        urls_from_lines(&lines),
        s(&["http://example.com", "https://example.com", "http://b.org", "https://c:443"])
    );
}

#[test]
fn path_is_appended_with_one_slash() {
    assert_eq!(
        normalize_urls(s(&["http://a", "http://b/"]), "//admin"),
        s(&["http://a/admin", "http://b/admin"])
    );
    assert_eq!(normalize_urls(s(&["http://a"]), ""), s(&["http://a/"]));
}

#[test]
fn build_single_target() {
    assert_eq!(
        build_urls(&args(Some("example.com"), None, Some("")), &vec![]),
        s(&["http://example.com/", "https://example.com/"])
    );
    assert_eq!(build_urls(&args(Some("https://a.b"), None, None), &vec![]), s(&["https://a.b"]));
}

#[test]
fn build_network_target() {
    assert_eq!(
        build_urls(&args(Some("192.168.0.10/31"), None, None), &vec![]),
        s(&["http://192.168.0.10", "http://192.168.0.11", "https://192.168.0.10", "https://192.168.0.11"])
    );
}

#[test]
fn build_sorts_and_removes_duplicates() {
    let lines = s(&["b.com", "a.com:443", "b.com", "http://a.com"]);
    assert_eq!(
        build_urls(&args(Some("a.com:443"), Some("targets.txt"), Some("x")), &lines),
        s(&["http://a.com/x", "http://b.com/x", "https://a.com:443/x", "https://b.com/x"])
    );
}

#[test]
fn file_lines_ignored_without_file() {
    let lines = s(&["b.com"]);
    assert_eq!(build_urls(&args(None, None, None), &lines), Vec::<String>::new());
}
