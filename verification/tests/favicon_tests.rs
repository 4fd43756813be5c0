use windfire::favicon::{favicon_hash_from_bytes, favicon_source_url, icon_fits, hash_text_signed, hash_text_unsigned, icon_hash, wrap_base64};

#[test]
fn wraps_at_76() {
    assert_eq!(wrap_base64(""), "\n");
    assert_eq!(wrap_base64("abc"), "abc\n");
    let long = "a".repeat(76);
    assert_eq!(wrap_base64(&long), format!("{}\n", long));
    let longer = "a".repeat(77);
    assert_eq!(wrap_base64(&longer), format!("{}\na\n", "a".repeat(76)));
    let three = "b".repeat(152);
    assert_eq!(wrap_base64(&three), format!("{}\n{}\n", "b".repeat(76), "b".repeat(76)));
}

#[test]
fn known_hashes() {
    assert_eq!(icon_hash(b"hello"), Some(1155597304));
    assert_eq!(icon_hash(b""), Some(2454642859));
    let all: Vec<u8> = (0..=255u8).collect();
    assert_eq!(icon_hash(&all), Some(3537743910));
    assert_eq!(favicon_hash_from_bytes(b"hello"), Some("1155597304".to_string()));
}

#[test]
fn hash_texts() {
    assert_eq!(hash_text_unsigned(0), "0");
    assert_eq!(hash_text_unsigned(4294967295), "4294967295");
    assert_eq!(hash_text_signed(2454642859), "-1840324437");
    assert_eq!(hash_text_signed(2147483648), "-2147483648");
    assert_eq!(hash_text_signed(4294967295), "-1");
    assert_eq!(hash_text_signed(1155597304), "1155597304");
}

#[test]
fn icon_address() {
    assert_eq!(favicon_source_url("http://a.com/x/y"), Some("http://a.com/x/y".to_string()));
    assert_eq!(favicon_source_url("https://a.com"), Some("https://a.com/".to_string()));
    assert_eq!(favicon_source_url("not a url"), None);
}

#[test]
fn icon_size_limit() {
    assert!(icon_fits(0));
    assert!(icon_fits(3_000_000_000));
    // 3_179_391_372 bytes give 4_239_188_496 base64 characters, 4_294_967_292 with
    // the line breaks; one more byte passes 2^32.
    assert!(icon_fits(3_179_391_372));
    assert!(!icon_fits(3_179_391_373));
    assert!(!icon_fits(usize::MAX));
}
