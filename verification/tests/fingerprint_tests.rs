use windfire::fingerprint::{Fingerprint, FingerprintMatcher, MatchLocation, MatchMethod};
use windfire::response::ResponseInfo;

fn fp(cms: &str, method: MatchMethod, location: MatchLocation, kw: &[&str]) -> Fingerprint {
    Fingerprint {
        cms: cms.to_string(),
        method,
        location,
        keyword: kw.iter().map(|x| x.to_string()).collect(),
    }
}

fn resp(headers: &str, body: &str, hash: Option<&str>) -> ResponseInfo {
    ResponseInfo {
        url: "http://t".to_string(),
        status: 200,
        title: String::new(),
        server: String::new(),
        content_length: body.len(),
        headers: headers.to_string(),
        jump_url: "http://t".to_string(),
        body: body.to_string(),
        favicon_hash: hash.map(|h| h.to_string()),
    }
}

fn matcher() -> FingerprintMatcher {
    FingerprintMatcher::new(vec![
        fp("Shiro", MatchMethod::Keyword, MatchLocation::Header, &["rememberMe=deleteMe"]),
        fp("WordPress", MatchMethod::Keyword, MatchLocation::Body, &["wp-content", "wp-includes"]),
        fp("Jenkins", MatchMethod::Faviconhash, MatchLocation::Body, &["81586312"]),
        fp("Apache", MatchMethod::Keyword, MatchLocation::Header, &["Apache"]),
        fp("Any", MatchMethod::Keyword, MatchLocation::Body, &[]),
        fp("Apache", MatchMethod::Keyword, MatchLocation::Body, &["Apache"]),
    ])
}

#[test]
fn matches_headers_body_and_favicon() {
    let m = matcher();
    let r = resp(
        "server: Apache\nset-cookie: rememberMe=deleteMe",
        "<link href='/wp-content/x'><script src='/wp-includes/y'>",
        Some("81586312"),
    );
    assert_eq!(m.match_response(&r), vec!["Any", "Apache", "Jenkins", "Shiro", "WordPress"]);
}

#[test]
fn all_keywords_are_needed() {
    let m = matcher();
    let r = resp("", "wp-content only", None);
    assert_eq!(m.match_response(&r), vec!["Any"]);
}

#[test]
fn favicon_rules_need_a_hash() {
    let m = matcher();
    assert_eq!(m.match_response(&resp("", "", None)), vec!["Any"]);
    assert_eq!(m.match_response(&resp("", "", Some("1"))), vec!["Any"]);
}

#[test]
fn duplicates_are_removed() {
    let m = matcher();
    let r = resp("Apache", "Apache", None);
    assert_eq!(m.match_response(&r), vec!["Any", "Apache"]);
}

#[test]
fn fingerprint_order_does_not_matter() {
    let a = vec![
        fp("B", MatchMethod::Keyword, MatchLocation::Body, &["b"]),
        fp("A", MatchMethod::Keyword, MatchLocation::Header, &["h"]),
        fp("C", MatchMethod::Faviconhash, MatchLocation::Header, &["7"]),
    ];
    let b = vec![
        fp("C", MatchMethod::Faviconhash, MatchLocation::Header, &["7"]),
        fp("B", MatchMethod::Keyword, MatchLocation::Body, &["b"]),
        fp("A", MatchMethod::Keyword, MatchLocation::Header, &["h"]),
    ];
    let r = resp("h", "b", Some("7"));
    let m1 = FingerprintMatcher::new(a).match_response(&r);
    let m2 = FingerprintMatcher::new(b).match_response(&r);
    assert_eq!(m1, vec!["A", "B", "C"]);
    assert_eq!(m1, m2);
}

#[test]
fn longer_responses_keep_matches() {
    let m = matcher();
    let small = resp("server: Apache", "wp-content wp-includes", None);
    let big = resp("x server: Apache y", "<p>wp-content wp-includes</p> more", None);
    let before = m.match_response(&small);
    let after = m.match_response(&big);
    assert_eq!(before, vec!["Any", "Apache", "WordPress"]);
    for name in &before {
        assert!(after.contains(name));
    }
}
