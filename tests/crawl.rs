use reader_proxy::crawl::{
    get_next_link, href_matches_exec, page_matcher, read_page, Crawl, Dom, DomAttr, DomNode, FetchStep,
    RedirectFollower,
};
use reader_proxy::error::ProxyError;

fn node(tag: &str, href: Option<&str>, children: Vec<usize>) -> DomNode {
    DomNode {
        tag: tag.to_string(),
        attrs: href
            .map(|v| vec![DomAttr { name: "href".to_string(), value: v.to_string() }])
            .unwrap_or_default(),
        children,
    }
}

#[test]
fn matcher_takes_the_base_name() {
    let m = page_matcher("http://example.com/book/123.html");
    assert_eq!(m.base, Some(b"123".to_vec()));
    assert!(href_matches_exec(&m, b"/book/123_2.html"));
    assert!(href_matches_exec(&m, b"http://example.com/book/123-17.html"));
    assert!(!href_matches_exec(&m, b"/book/124_2.html"));
    assert!(!href_matches_exec(&m, b"/book/123_x.html"));
    assert!(!href_matches_exec(&m, b"/book/123.html"));
}

#[test]
fn matcher_fails_closed_without_a_base_name() {
    for url in ["nopath", "http://example.com/", "http://example.com/dir.v2/page", "a.b/c"] {
        let m = page_matcher(url);
        assert_eq!(m.base, None, "{}", url);
        assert!(!href_matches_exec(&m, b"/book/123_2.html"));
        assert!(!href_matches_exec(&m, b"/x/_1.html"));
    }
}

#[test]
fn next_link_prefers_the_shallowest_anchor() {
    // 0 -> [1, 2]; 1 -> [3]; 3 is a deep match, 2 a shallow one.
    let dom = Dom {
        nodes: vec![
            node("", None, vec![1, 2]),
            node("div", None, vec![3]),
            node("a", Some("/b/7_3.html"), vec![]),
            node("a", Some("/b/7_2.html"), vec![]),
        ],
    };
    let m = page_matcher("http://h.example/b/7.html");
    assert_eq!(get_next_link(&dom, &m), "/b/7_3.html");
}

#[test]
fn next_link_takes_document_order_within_a_level() {
    let dom = Dom {
        nodes: vec![
            node("", None, vec![1, 2, 3]),
            node("a", Some("/b/other.html"), vec![]),
            node("a", Some("/b/7_2.html"), vec![]),
            node("a", Some("/b/7_9.html"), vec![]),
        ],
    };
    let m = page_matcher("http://h.example/b/7.html");
    assert_eq!(get_next_link(&dom, &m), "/b/7_2.html");
}

#[test]
fn next_link_is_empty_when_nothing_matches() {
    let dom = Dom { nodes: vec![node("", None, vec![1, 9]), node("a", Some("/b/x_1.html"), vec![])] };
    assert_eq!(get_next_link(&dom, &page_matcher("http://h.example/b/7.html")), "");
    assert_eq!(get_next_link(&Dom { nodes: vec![] }, &page_matcher("http://h.example/b/7.html")), "");
    let dom = Dom { nodes: vec![node("", None, vec![1]), node("a", Some("/b/7_2.html"), vec![])] };
    assert_eq!(get_next_link(&dom, &page_matcher("nopath")), "");
}

#[test]
fn crawl_without_base_name_reads_one_page() {
    let mut c = Crawl::start("http://h.example/").unwrap();
    let dom = Dom { nodes: vec![node("", None, vec![1]), node("a", Some("/b/7_2.html"), vec![])] };
    let link = get_next_link(&dom, &c.matcher);
    let next = c.on_page("T".to_string(), "<p>one</p>", &link).unwrap();
    assert_eq!(next, None);
    assert_eq!(c.text, "<p>one</p>");
    assert_eq!(c.title, "T");
    assert_eq!(c.pages, 1);
}

#[test]
fn crawl_resolves_links_against_the_first_url() {
    let mut c = Crawl::start("http://h.example/b/7.html").unwrap();
    let next = c.on_page("First".to_string(), "a", "7_2.html").unwrap();
    assert_eq!(next, Some("http://h.example/b/7_2.html".to_string()));
    let next = c.on_page("Second".to_string(), "b", "http://other.example/b/7_3.html").unwrap();
    assert_eq!(next, Some("http://other.example/b/7_3.html".to_string()));
    let next = c.on_page("Third".to_string(), "c", "").unwrap();
    assert_eq!(next, None);
    assert_eq!(c.text, "abc");
    assert_eq!(c.title, "First");
}

#[test]
fn crawl_start_needs_a_url() {
    assert!(matches!(Crawl::start("not a url"), Err(ProxyError::InvalidUrl)));
}

#[test]
fn redirects_are_followed_up_to_the_limit() {
    let mut f = RedirectFollower::new("http://h.example/a/b.html");
    match f.on_response(true, Some(b"c.html")).unwrap() {
        FetchStep::Follow(u) => assert_eq!(u, "http://h.example/a/c.html"),
        FetchStep::Body => panic!("expected a redirect"),
    }
    assert_eq!(f.current, "http://h.example/a/c.html");
    match f.on_response(true, Some(b"https://x.example/")).unwrap() {
        FetchStep::Follow(u) => assert_eq!(u, "https://x.example/"),
        FetchStep::Body => panic!("expected a redirect"),
    }
    assert!(matches!(f.on_response(true, None), Ok(FetchStep::Body)));
    assert!(matches!(f.on_response(false, Some(b"/z")), Ok(FetchStep::Body)));
    let mut g = RedirectFollower::new("http://h.example/");
    for _ in 0..9 {
        assert!(matches!(g.on_response(true, Some(b"/loop")), Ok(FetchStep::Follow(_))));
    }
    assert!(matches!(g.on_response(true, Some(b"/loop")), Err(ProxyError::TooManyRedirects)));
}

#[test]
fn redirect_with_binary_location_fails() {
    let mut f = RedirectFollower::new("http://h.example/");
    assert!(matches!(f.on_response(true, Some(&[0x80, 0x81])), Err(ProxyError::InvalidHeader)));
}

#[test]
fn read_page_extracts_and_finds_the_link() {
    let html = b"<html><head><title>Book</title></head><body><div><p>It was a dark and stormy night; the rain fell in torrents, except at occasional intervals.</p><p>Second paragraph of the chapter, long enough to be kept by the scorer.</p></div></body></html>";
    let dom = Dom { nodes: vec![node("", None, vec![1]), node("a", Some("/b/7_2.html"), vec![])] };
    let m = page_matcher("http://h.example/b/7.html");
    let page = read_page(html, "http://h.example/b/7.html", &dom, &m).unwrap();
    assert_eq!(page.title, "Book");
    assert!(page.text.contains("dark and stormy night"));
    assert_eq!(page.link, "/b/7_2.html");
}

#[test]
fn read_page_needs_a_url() {
    let dom = Dom { nodes: vec![] };
    let m = page_matcher("x");
    assert!(matches!(read_page(b"<p>x</p>", "not a url", &dom, &m), Err(ProxyError::Extraction)));
}
