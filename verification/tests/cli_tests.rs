use windfire::cli::{proxy_check, validate_output_format, validate_proxy_url, validate_thread_range};

#[test]
fn thread_count_in_range_is_accepted() {
    assert_eq!(validate_thread_range("50"), Ok(50));
    assert_eq!(validate_thread_range("1"), Ok(1));
    assert_eq!(validate_thread_range("5000"), Ok(5000));
    assert_eq!(validate_thread_range("+7"), Ok(7));
    assert_eq!(validate_thread_range("007"), Ok(7));
}

#[test]
fn thread_count_out_of_range_is_refused() {
    let msg = "Thread count must be between 1 and 5000".to_string();
    assert_eq!(validate_thread_range("0"), Err(msg.clone()));
    assert_eq!(validate_thread_range("5001"), Err(msg));
}

#[test]
fn thread_count_not_a_number_is_refused() {
    let msg = "Invalid number of threads".to_string();
    assert_eq!(validate_thread_range("abc"), Err(msg.clone()));
    assert_eq!(validate_thread_range(""), Err(msg.clone()));
    assert_eq!(validate_thread_range("-1"), Err(msg.clone()));
    assert_eq!(validate_thread_range("+"), Err(msg.clone()));
    assert_eq!(validate_thread_range("1 0"), Err(msg.clone()));
    assert_eq!(validate_thread_range("99999999999999999999999"), Err(msg));
}

#[test]
fn output_format_needs_csv_or_json() {
    assert_eq!(validate_output_format("result.csv"), Ok("result.csv".to_string()));
    assert_eq!(validate_output_format("result.json"), Ok("result.json".to_string()));
    assert_eq!(validate_output_format("result.txt"), Err("Invalid output format".to_string()));
    assert_eq!(validate_output_format("csv"), Err("Invalid output format".to_string()));
}

#[test]
fn proxy_schemes() {
    assert_eq!(
        validate_proxy_url("socks5://127.0.0.1:1080"),
        Ok("socks5://127.0.0.1:1080".to_string())
    );
    assert_eq!(validate_proxy_url("http://127.0.0.1:8080"), Ok("http://127.0.0.1:8080".to_string()));
    assert_eq!(validate_proxy_url("HTTPS://proxy.example"), Ok("HTTPS://proxy.example".to_string()));
    assert_eq!(
        validate_proxy_url("ftp://127.0.0.1"),
        Err("Invalid proxy protocol. Supported protocols are http, https and socks5".to_string())
    );
}

#[test]
fn proxy_that_is_not_a_url() {
    assert_eq!(
        validate_proxy_url("127.0.0.1:1080x"),
        Err("'127.0.0.1:1080x' is not a valid URL format".to_string())
    );
    assert_eq!(
        validate_proxy_url("not a url"),
        Err("'not a url' is not a valid URL format".to_string())
    );
}

#[test]
fn proxy_decision_from_scheme() {
    assert_eq!(proxy_check("x", None), Err("'x' is not a valid URL format".to_string()));
    assert_eq!(proxy_check("x", Some("https")), Ok("x".to_string()));
    assert_eq!(
        proxy_check("x", Some("socks4")),
        Err("Invalid proxy protocol. Supported protocols are http, https and socks5".to_string())
    );
}
