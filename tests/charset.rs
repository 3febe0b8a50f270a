use reader_proxy::charset::{page_text, to_utf8};
use reader_proxy::error::ProxyError;

#[test]
fn test_to_utf8() {
    let orig = b"Hello, world!";
    let charset = "utf-8";
    let result = to_utf8(orig, charset).unwrap();
    assert_eq!(result, String::from("Hello, world!"));

    let orig = b"\xc4\xe3\xba\xc3\xa3\xac\xca\xc0\xbd\xe7\xa3\xa1";
    let charset = "gb18030";
    let result = to_utf8(orig, charset).unwrap();
    assert_eq!(result, "你好，世界！");

    // Test with invalid charset
    let orig = b"\xc3\xa9";
    let charset = "invalid-charset";
    assert!(to_utf8(orig, charset).is_err());
}

#[test]
fn unknown_label_is_its_own_error() {
    assert_eq!(to_utf8(b"abc", "no-such-charset"), Err(ProxyError::UnknownCharset));
}

#[test]
fn malformed_input_is_never_replaced() {
    assert_eq!(to_utf8(b"\xff\xfe\xfd", "utf-8"), Err(ProxyError::Malformed));
    assert_eq!(to_utf8(b"ok\xc3", "utf-8"), Err(ProxyError::Malformed));
}

#[test]
fn gb18030_round_trip() {
    let text = "第一章 天下大势，分久必合，合久必分。";
    let (bytes, _, bad) = encoding_rs::GB18030.encode(text);
    assert!(!bad);
    assert_eq!(to_utf8(&bytes, "gb18030").unwrap(), text);
    assert_eq!(to_utf8(&bytes, "GBK").unwrap(), text);
}

#[test]
fn labels_are_case_and_space_insensitive() {
    assert_eq!(to_utf8(b"plain", " UTF-8 ").unwrap(), "plain");
}

#[test]
fn page_text_keeps_utf8_and_decodes_gb18030() {
    assert_eq!(page_text("中文".as_bytes()).unwrap(), "中文".as_bytes().to_vec());
    let gb = b"\xc4\xe3\xba\xc3";
    assert_eq!(page_text(gb).unwrap(), "你好".as_bytes().to_vec());
}
