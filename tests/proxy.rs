use reader_proxy::error::ProxyError;
use reader_proxy::headers::{is_hop_header, remove_hop_headers, Header};
use reader_proxy::rewrite::{
    create_proxied_request, create_proxied_response, decimal_exec, edit_page, forward_uri,
    modify_response, redirect_target_exec,
};
use reader_proxy::AppContext;

fn h(name: &str, value: &str) -> Header {
    Header { name: name.as_bytes().to_vec(), value: value.as_bytes().to_vec() }
}

fn pairs(hs: &[Header]) -> Vec<(String, String)> {
    hs.iter()
        .map(|x| (String::from_utf8(x.name.clone()).unwrap(), String::from_utf8(x.value.clone()).unwrap()))
        .collect()
}

fn ctx(host: &str, port: &str) -> AppContext {
    AppContext {
        booksite: "https://m.booklink.me".to_string(),
        fontsize: "17".to_string(),
        ua: "test-agent/1.0".to_string(),
        host: host.to_string(),
        port: port.to_string(),
        scheme: "http".to_string(),
    }
}

#[test]
fn hop_headers_are_recognised_in_any_case() {
    for name in ["Connection", "KEEP-ALIVE", "proxy-authenticate", "Proxy-Authorization", "te", "Trailers", "transfer-encoding", "UpGrade"] {
        assert!(is_hop_header(name.as_bytes()), "{}", name);
    }
    assert!(!is_hop_header(b"content-type"));
    assert!(!is_hop_header(b"tes"));
}

#[test]
fn hop_headers_are_stripped_and_others_kept_in_order() {
    let mut hs = vec![
        h("Accept", "*/*"),
        h("CONNECTION", "keep-alive"),
        h("x-one", "1"),
        h("Transfer-Encoding", "chunked"),
        h("Upgrade", "h2c"),
        h("x-two", "2"),
        h("te", "trailers"),
    ];
    remove_hop_headers(&mut hs);
    assert_eq!(
        pairs(&hs),
        vec![
            ("Accept".to_string(), "*/*".to_string()),
            ("x-one".to_string(), "1".to_string()),
            ("x-two".to_string(), "2".to_string()),
        ]
    );
}

#[test]
fn redirect_is_routed_through_this_proxy() {
    let c = ctx("proxy.example", "8080");
    assert_eq!(
        redirect_target_exec(&c, b"http://other.example/x"),
        b"http://proxy.example:8080/?dest=http://other.example/x".to_vec()
    );
    let c = ctx("proxy.example", "");
    assert_eq!(
        redirect_target_exec(&c, b"http://other.example/x"),
        b"http://proxy.example/?dest=http://other.example/x".to_vec()
    );
    assert_eq!(
        redirect_target_exec(&c, b"http://proxy.example/?dest=abc"),
        b"http://proxy.example/?dest=abc".to_vec()
    );
    assert_eq!(redirect_target_exec(&c, b"/relative/path"), b"/relative/path".to_vec());
    assert_eq!(
        redirect_target_exec(&c, b"http://www.wucuoxs.com/1.html"),
        b"http://proxy.example/?dest=https://m.wucuoxs.com/1.html".to_vec()
    );
}

#[test]
fn modify_response_rewrites_location_and_skips_compression() {
    let c = ctx("proxy.example", "");
    let hs = vec![
        h("location", "http://a.example/old"),
        h("set-cookie", "id=1; domain=.booklink.me"),
        h("location", "http://other.example/x"),
        h("content-type", "text/html"),
    ];
    let r = modify_response(&c, &hs, b"", "gzip").unwrap();
    assert_eq!(
        pairs(&r.headers),
        vec![
            ("set-cookie".to_string(), "id=1; domain=proxy.example".to_string()),
            ("location".to_string(), "http://proxy.example/?dest=http://other.example/x".to_string()),
            ("content-type".to_string(), "text/html".to_string()),
        ]
    );
    assert!(r.body.is_empty());
}

#[test]
fn modify_response_edits_and_compresses_text() {
    let c = ctx("proxy.example", "");
    let hs = vec![h("content-type", "text/html; charset=utf-8"), h("content-length", "999")];
    let body = b"<html><body><script src=\"//google-analytics.com/a.js\"></script><ins class=\"adsbygoogle\"></ins></body></html>";
    let r = modify_response(&c, &hs, body, "gzip").unwrap();
    let names: Vec<(String, String)> = pairs(&r.headers);
    assert_eq!(names[0], ("content-type".to_string(), "text/html; charset=utf-8".to_string()));
    let enc = names.iter().find(|p| p.0 == "content-encoding").unwrap().1.clone();
    let len = names.iter().find(|p| p.0 == "content-length").unwrap().1.clone();
    assert!(enc == "gzip" || enc == "br");
    assert_eq!(len, r.body.len().to_string());
    assert_eq!(names.iter().filter(|p| p.0 == "content-length").count(), 1);
    let mut plain = Vec::new();
    if enc == "gzip" {
        std::io::Read::read_to_end(&mut flate2::read::GzDecoder::new(&r.body[..]), &mut plain).unwrap();
    } else {
        std::io::Read::read_to_end(&mut brotli::Decompressor::new(&r.body[..], 4096), &mut plain).unwrap();
    }
    assert_eq!(plain, edit_page(body));
    let text = String::from_utf8(plain).unwrap();
    assert!(text.contains("0.0.0.0/a.js"));
    assert!(text.contains("xxxxxxx"));
    assert!(!text.contains("</body></html>"));
    assert!(text.contains("prefers-color-scheme"));
}

#[test]
fn modify_response_errors() {
    let c = ctx("proxy.example", "");
    let bad = vec![Header { name: b"x-bin".to_vec(), value: vec![0xff, 0x41] }];
    assert!(matches!(modify_response(&c, &bad, b"", "br"), Err(ProxyError::InvalidHeader)));
    let text = vec![h("content-type", "text/plain")];
    assert!(matches!(modify_response(&c, &text, b"\xff\xfe", "br"), Err(ProxyError::Malformed)));
}

#[test]
fn page_edits_hide_the_side_list_only_when_present() {
    let with = edit_page(b"<body><div class=\"slist sec\"></div>");
    assert!(String::from_utf8(with).unwrap().starts_with("<body><style>ul.list.sec {display: none;}</style>"));
    let without = edit_page(b"<body><li class=\"hla\">x</li>");
    assert_eq!(without, b"<body><li class=\"\">x</li>".to_vec());
    let grey = edit_page(b"<td><font color=\"#646464\">");
    assert_eq!(grey, b"<td class=\"grey\"><font>".to_vec());
}

#[test]
fn upstream_gb18030_html_is_converted() {
    let hs = vec![
        h("Content-Type", "text/html; charset=GBK"),
        h("Connection", "close"),
        h("content-encoding", "identity"),
    ];
    let u = create_proxied_response(hs, b"\xc4\xe3\xba\xc3").unwrap();
    assert_eq!(u.body, "你好".as_bytes().to_vec());
    assert_eq!(pairs(&u.headers), vec![("Content-Type".to_string(), "text/html; charset=utf-8".to_string())]);
}

#[test]
fn upstream_content_type_is_rewritten_in_place() {
    let hs = vec![h("x-a", "1"), h("content-type", "text/html; charset=utf-8"), h("x-b", "2")];
    let u = create_proxied_response(hs, "页".as_bytes()).unwrap();
    assert_eq!(
        pairs(&u.headers),
        vec![
            ("x-a".to_string(), "1".to_string()),
            ("content-type".to_string(), "text/html; charset=utf-8".to_string()),
            ("x-b".to_string(), "2".to_string()),
        ]
    );
    assert_eq!(u.body, "页".as_bytes().to_vec());
}

#[test]
fn page_edits_are_idempotent() {
    for page in [
        "<html><body><div class=\"slist sec\"></div><li class=\"hla\">a</li></body></html>",
        "<body><script src=\"https://google-analytics.com/x.js\"></script></body>",
        "plain text without tags",
    ] {
        let once = edit_page(page.as_bytes());
        assert_eq!(edit_page(&once), once);
    }
    let once = edit_page(b"<html><body>x</body></html>");
    assert_eq!(String::from_utf8(once.clone()).unwrap().matches("prefers-color-scheme").count(), 2);
}

#[test]
fn upstream_html_without_charset_is_gb18030() {
    let hs = vec![h("content-type", "text/html")];
    let u = create_proxied_response(hs, b"\xca\xc0\xbd\xe7").unwrap();
    assert_eq!(u.body, "世界".as_bytes().to_vec());
}

#[test]
fn upstream_gzip_body_is_decoded() {
    let mut gz = flate2::write::GzEncoder::new(Vec::new(), flate2::Compression::default());
    std::io::Write::write_all(&mut gz, b"{\"a\":1}").unwrap();
    let hs = vec![h("content-type", "application/json"), h("Content-Encoding", "gzip")];
    let u = create_proxied_response(hs, &gz.finish().unwrap()).unwrap();
    assert_eq!(u.body, b"{\"a\":1}".to_vec());
    assert_eq!(pairs(&u.headers), vec![("content-type".to_string(), "application/json".to_string())]);
}

#[test]
fn upstream_errors() {
    assert!(matches!(create_proxied_response(vec![], b"x"), Err(ProxyError::MissingContentType)));
    let hs = vec![h("content-type", "text/html; charset=klingon")];
    assert!(matches!(create_proxied_response(hs, b"x"), Err(ProxyError::UnknownCharset)));
    let hs = vec![h("content-type", "text/plain"), h("content-encoding", "gzip")];
    assert!(matches!(create_proxied_response(hs, b"garbage"), Err(ProxyError::Decompression)));
}

#[test]
fn outbound_request_headers() {
    let c = ctx("proxy.example", "");
    let hs = vec![
        h("Host", "proxy.example"),
        h("Connection", "keep-alive"),
        h("Accept-Encoding", "identity"),
        h("User-Agent", "curl"),
        h("Accept", "text/html"),
    ];
    let r = create_proxied_request(&c, "https://m.booklink.me", "/book/1", Some("p=2"), "/book/1?p=2", hs).unwrap();
    assert_eq!(r.uri, "https://m.booklink.me/book/1?p=2");
    assert_eq!(
        pairs(&r.headers),
        vec![
            ("Host".to_string(), "m.booklink.me".to_string()),
            ("User-Agent".to_string(), "test-agent/1.0".to_string()),
            ("Accept".to_string(), "text/html".to_string()),
            ("accept-encoding".to_string(), "gzip, deflate, br".to_string()),
        ]
    );
}

#[test]
fn outbound_request_without_host_fails() {
    let c = ctx("proxy.example", "");
    assert!(matches!(create_proxied_request(&c, "", "/x", None, "/x", vec![]), Err(ProxyError::InvalidUrl)));
}

#[test]
fn forward_uri_shapes() {
    assert_eq!(forward_uri("https://a.b", "/p", None, "/p"), "https://a.b/p");
    assert_eq!(forward_uri("https://a.b", "/p", Some("q=1"), "/p?q=1"), "https://a.b/p?q=1");
    assert_eq!(forward_uri("", "/p", Some("q=1"), "http://c.d/p?q=1"), "http://c.d/p?q=1");
}

#[test]
fn decimal_digits() {
    assert_eq!(decimal_exec(0), b"0".to_vec());
    assert_eq!(decimal_exec(7), b"7".to_vec());
    assert_eq!(decimal_exec(1234567), b"1234567".to_vec());
}
