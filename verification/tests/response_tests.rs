use windfire::response::{
    create_http_header, extract_title, status_is_kept, title_from_capture, ResponseInfo,
};

fn h(v: &[(&str, &str)]) -> Vec<(String, String)> {
    v.iter().map(|(a, b)| (a.to_string(), b.to_string())).collect()
}

#[test]
fn titles() {
    assert_eq!(extract_title("<html><TITLE>  Hello \n</TITLE></html>"), "Hello");
    assert_eq!(extract_title("<title lang=\"en\">a\nb</title>"), "a\nb");
    assert_eq!(extract_title("<title>first</title><title>second</title>"), "first");
    assert_eq!(extract_title("no title here"), "");
    assert_eq!(extract_title("<title></title>"), "");
    assert_eq!(extract_title("<title>百度一下，你就知道</title>"), "百度一下，你就知道");
}

#[test]
fn title_from_a_capture() {
    assert_eq!(title_from_capture(&Some(Some(" \u{3000}x y\t".to_string()))), "x y");
    assert_eq!(title_from_capture(&Some(None)), "");
    assert_eq!(title_from_capture(&None), "");
}

#[test]
fn response_digest() {
    let headers = h(&[("content-type", "text/html"), ("server", "BWS/1.1"), ("server", "second"), ("x", "")]);
    let r = ResponseInfo::from_response(
        "https://www.baidu.com",
        200,
        "https://www.baidu.com/".to_string(),
        &headers,
        "<title>百度</title>".to_string(),
        Some("123".to_string()),
    );
    assert_eq!(r.url, "https://www.baidu.com");
    assert_eq!(r.status, 200);
    assert_eq!(r.jump_url, "https://www.baidu.com/");
    assert_eq!(r.server, "BWS/1.1");
    assert_eq!(r.headers, "content-type: text/html\nserver: BWS/1.1\nserver: second\nx: ");
    assert_eq!(r.title, "百度");
    assert_eq!(r.content_length, "<title>百度</title>".len());
    assert_eq!(r.content_length, 21);
    assert_eq!(r.favicon_hash, Some("123".to_string()));
}

#[test]
fn response_without_server() {
    let r = ResponseInfo::from_response("u", 404, "u".to_string(), &vec![], String::new(), None);
    assert_eq!(r.server, "");
    assert_eq!(r.headers, "");
    assert_eq!(r.title, "");
    assert_eq!(r.content_length, 0);
}

#[test]
fn status_filter() {
    assert!(status_is_kept(&vec![], 200));
    assert!(!status_is_kept(&vec![], 404));
    assert!(status_is_kept(&vec![200, 403], 403));
    assert!(!status_is_kept(&vec![200, 403], 500));
}

#[test]
fn request_headers() {
    let hdr = create_http_header();
    assert_eq!(hdr.len(), 8);
    assert_eq!(hdr[0].0, "user-agent");
    assert_eq!(hdr[7], ("cookie".to_string(), "rememberMe=yyds".to_string()));
    assert_eq!(hdr[5], ("connection".to_string(), "close".to_string()));
}
