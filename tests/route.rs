use reader_proxy::route::{render_page, route_request, Route, PAGE_HEAD};

fn describe(r: Route) -> String {
    match r {
        Route::Redirect(u) => format!("redirect {}", u),
        Route::Read(u) => format!("read {}", u),
        Route::Listen(u) => format!("listen {}", u),
        Route::Proxy => "proxy".to_string(),
    }
}

#[test]
fn routes_by_query() {
    assert_eq!(describe(route_request(None)), "proxy");
    assert_eq!(describe(route_request(Some("a=1"))), "proxy");
    assert_eq!(describe(route_request(Some("dest=http%3A%2F%2Fx.example%2F1.html"))), "read http://x.example/1.html");
    assert_eq!(describe(route_request(Some("dest=http://www.fkzww.net/a"))), "redirect http://www.fkzww.net/a");
    assert_eq!(describe(route_request(Some("listen=http://x.example/1.html"))), "listen http://x.example/1.html");
    assert_eq!(describe(route_request(Some("dest=&listen=u"))), "listen u");
    assert_eq!(describe(route_request(Some("dest=a&dest=b"))), "read b");
}

#[test]
fn reading_page_holds_title_size_and_text() {
    let page = String::from_utf8(render_page("Chapter 1", "17", "<p>text</p>")).unwrap();
    assert!(page.starts_with(PAGE_HEAD));
    assert!(page.contains("<title>Chapter 1</title>"));
    assert!(page.contains("<h3>Chapter 1</h3>"));
    assert!(page.contains("font-size:17px;"));
    assert!(page.contains("Listen</button></div><p>text</p>"));
    assert!(page.ends_with("</body></html>"));
}

#[test]
fn reading_response_is_compressed_with_matching_headers() {
    let context = reader_proxy::AppContext {
        booksite: "https://m.booklink.me".to_string(),
        fontsize: "20".to_string(),
        ua: "ua".to_string(),
        host: "127.0.0.1".to_string(),
        port: String::new(),
        scheme: "http".to_string(),
    };
    let r = reader_proxy::route::reading_response(&context, "T", "<p>body</p>", "gzip").unwrap();
    let headers: Vec<(Vec<u8>, Vec<u8>)> = r.headers.iter().map(|h| (h.name.clone(), h.value.clone())).collect();
    assert_eq!(headers[0], (b"content-type".to_vec(), b"text/html".to_vec()));
    assert_eq!(headers[2], (b"content-length".to_vec(), r.body.len().to_string().into_bytes()));
    let codec = String::from_utf8(headers[1].1.clone()).unwrap();
    assert!(codec == "gzip" || codec == "br");
    let mut page = Vec::new();
    if codec == "gzip" {
        std::io::Read::read_to_end(&mut flate2::read::GzDecoder::new(&r.body[..]), &mut page).unwrap();
    } else {
        std::io::Read::read_to_end(&mut brotli::Decompressor::new(&r.body[..], 4096), &mut page).unwrap();
    }
    assert_eq!(page, render_page("T", "20", "<p>body</p>"));
}
