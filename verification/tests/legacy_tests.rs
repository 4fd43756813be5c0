use windfire::legacy::{
    add_path, cidr_to_ip_range, dedup_keep_first, extract_title, fofa_hash_from_bytes,
    get_favicon_url, get_format_info, is_cidr, match_fingers, read_file_lines,
    send_request_outcome, try_read_file_lines, LegacyFinger, PrintInfo, SaveInfo, ScanInfo,
    UrlError,
};

fn s(v: &[&str]) -> Vec<String> {
    v.iter().map(|x| x.to_string()).collect()
}

#[test]
fn paths() {
    assert_eq!(add_path("http://a", ""), "http://a");
    assert_eq!(add_path("http://a", "admin"), "http://a/admin");
    assert_eq!(add_path("http://a/", "admin"), "http://a/admin");
    assert_eq!(add_path("http://a/", "/admin"), "http://a//admin");
}

#[test]
fn favicon_urls() {
    assert_eq!(get_favicon_url("http://a.com/x/y"), Ok("http://a.com/favicon.ico".to_string()));
    assert_eq!(get_favicon_url("http://a.com:8080/x/y?q=1"), Ok("http://a.com:8080/favicon.ico".to_string()));
    assert_eq!(get_favicon_url("https://a.com"), Ok("https://a.com/favicon.ico".to_string()));
    assert_eq!(get_favicon_url("not a url"), Err(UrlError::Invalid));
}

#[test]
fn network_lines() {
    assert!(is_cidr("192.168.0.0/24"));
    assert!(!is_cidr("999.1.1.1/99"));
    assert!(!is_cidr("1.1.1.1/33"));
    assert!(is_cidr("1.1.1.1/32"));
    assert!(is_cidr("0.0.0.0/0"));
    assert!(!is_cidr("192.168.0.0/240"));
    assert!(!is_cidr("192.168.0.0"));
    assert_eq!(cidr_to_ip_range("10.1.2.3/31"), s(&["10.1.2.2", "10.1.2.3"]));
    assert_eq!(cidr_to_ip_range("10.1.2.3/32"), s(&["10.1.2.3"]));
}

#[test]
fn file_lines() {
    let lines = s(&["http://z", "1.2.3.4:443", "1.2.3.4:80", "10.0.0.0/31", "host", "h:8080:9"]);
    assert_eq!(
        read_file_lines(&lines),
        s(&[
            "http://1.2.3.4:80",
            "http://10.0.0.0",
            "http://10.0.0.1",
            "http://h:8080:9",
            "http://host",
            "http://z",
            "https://1.2.3.4:443",
            "https://10.0.0.0",
            "https://10.0.0.1",
            "https://h:8080:9",
            "https://host",
        ])
    );
}

#[test]
fn unexpandable_network_line() {
    assert_eq!(try_read_file_lines(&s(&["a", "1.2.3.4/0"])), None);
    assert_eq!(
        try_read_file_lines(&s(&["300.2.3.4/8"])),
        Some(s(&["http://300.2.3.4/8", "https://300.2.3.4/8"]))
    );
    assert_eq!(try_read_file_lines(&s(&["a"])), Some(s(&["http://a", "https://a"])));
    assert_eq!(try_read_file_lines(&s(&[""])), Some(s(&["http://", "https://"])));
}

#[test]
fn legacy_title() {
    assert_eq!(extract_title("<TITLE> x </TITLE>"), Some("x".to_string()));
    assert_eq!(extract_title("<title lang=en>x</title>"), None);
    assert_eq!(extract_title("none"), None);
}

#[test]
fn format_info() {
    let headers = vec![("server".to_string(), "nginx".to_string())];
    let info = get_format_info("http://a", 200, "http://a/".to_string(), &headers, "<title>t</title>".to_string());
    assert_eq!(info.url, "http://a");
    assert_eq!(info.server, "nginx");
    assert_eq!(info.header, "server: nginx");
    assert_eq!(info.title, "t");
    assert_eq!(info.content_length, 16);
    let info = get_format_info("http://a", 200, "http://a/".to_string(), &vec![], "x".to_string());
    assert_eq!(info.title, "");
}

#[test]
fn fofa_hash() {
    assert_eq!(fofa_hash_from_bytes(b""), Ok("-1840324437".to_string()));
    assert_eq!(fofa_hash_from_bytes(b"hello"), Ok("1155597304".to_string()));
}

fn finger(cms: &str, method: &str, location: &str, kw: &[&str]) -> LegacyFinger {
    LegacyFinger {
        cms: cms.to_string(),
        method: method.to_string(),
        location: location.to_string(),
        keyword: s(kw),
    }
}

#[test]
fn legacy_matching() {
    let fingers = vec![
        finger("A", "keyword", "body", &["x"]),
        finger("A", "keyword", "header", &["h"]),
        finger("B", "faviconhash", "body", &["123"]),
        finger("A", "keyword", "body", &["y"]),
        finger("C", "keyword", "other", &[]),
        finger("D", "other", "body", &[]),
    ];
    assert_eq!(match_fingers(&fingers, "xy", "h", "123"), s(&["A", "B"]));
    assert_eq!(match_fingers(&fingers, "x", "h", "0"), s(&["A"]));
}

#[test]
fn matched_names_once_each() {
    let fingers = vec![
        finger("X", "keyword", "body", &["a"]),
        finger("Y", "keyword", "body", &["b"]),
        finger("X", "keyword", "body", &["c"]),
    ];
    assert_eq!(match_fingers(&fingers, "abc", "", ""), s(&["X", "Y"]));
    assert_eq!(match_fingers(&vec![], "abc", "", ""), Vec::<String>::new());
    let fingers = vec![
        finger("Z", "keyword", "body", &["a"]),
        finger("A", "keyword", "body", &["b"]),
        finger("Z", "keyword", "body", &["b"]),
    ];
    assert_eq!(match_fingers(&fingers, "ab", "", ""), s(&["Z", "A"]));
}

#[test]
fn first_occurrence_dedup() {
    assert_eq!(dedup_keep_first(&s(&["b", "a", "b", "c", "a"])), s(&["b", "a", "c"]));
    assert_eq!(dedup_keep_first(&vec![]), Vec::<String>::new());
}

#[test]
fn report() {
    let info = ScanInfo {
        url: "http://a".to_string(),
        status_code: 200,
        title: "T".to_string(),
        server: "S".to_string(),
        jump_url: "http://a/".to_string(),
        content_length: 5,
        body: String::new(),
        header: String::new(),
    };
    let (row, line) = send_request_outcome(info, s(&["x", "y\"z"]), &vec![200]);
    assert_eq!(line, "http://a [200] [T] [S] [http://a/] [5] [\"x\", \"y\\\"z\"]");
    let row: PrintInfo = row.unwrap();
    assert_eq!(row.cms, s(&["x", "y\"z"]));
    let saved = SaveInfo::new(row);
    assert_eq!(saved.cms, "x || y\"z");
    let info2 = ScanInfo {
        url: "http://a".to_string(),
        status_code: 404,
        title: String::new(),
        server: String::new(),
        jump_url: String::new(),
        content_length: 0,
        body: String::new(),
        header: String::new(),
    };
    let (row, line) = send_request_outcome(info2, vec![], &vec![200]);
    assert!(row.is_none());
    assert_eq!(line, "");
}
