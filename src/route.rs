//! Request routing and the reading page: which mode a request asks for,
//! and the HTML page that presents an extracted document.
use vstd::prelude::*;
use vstd::string::StringSliceAdditionalSpecFns;

use crate::bytestr::{contains, contains_exec, push_all, to_vec};
use crate::codec::{compress_body, negotiated};
use crate::error::ProxyError;
use crate::headers::{
    content_encoding, content_encoding_name, content_length, content_length_name, content_type,
    content_type_name, hviews, Header,
};
use crate::rewrite::{decimal, decimal_exec, sb, ProxiedResponse};
use crate::urls::{form_pairs, pair_views, parse_query};
use crate::AppContext;

verus! {

/// Destinations that are only ever redirected to, never read.
pub const PASSTHROUGH_SITE: &'static str = "fkzww.net";
pub const DEST_KEY: &'static str = "dest";
pub const LISTEN_KEY: &'static str = "listen";

/// The reading page up to its title.
pub const PAGE_HEAD: &'static str = r##"<html><head><meta charset="utf-8"><meta name="viewport" content="width=device-width, initial-scale=1.0" /><title>"##;
/// Between the title and the heading.
pub const PAGE_TITLE_END: &'static str = r##"</title></head><body><h3>"##;
/// Between the heading and the font size.
pub const PAGE_STYLE_START: &'static str = r##"</h3><style> p{text-indent:2em; font-size:"##;
/// Between the font size and the content: the player and its button.
pub const PAGE_STYLE_END: &'static str = r##"px;}</style><div id="div1" style="text-align:center"><audio id="au"><source src = "data:audio/mpeg;base64,SUQzBAAAAAABEVRYWFgAAAAtAAADY29tbWVudABCaWdTb3VuZEJhbmsuY29tIC8gTGFTb25vdGhlcXVlLm9yZwBURU5DAAAAHQAAA1N3aXRjaCBQbHVzIMKpIE5DSCBTb2Z0d2FyZQBUSVQyAAAABgAAAzIyMzUAVFNTRQAAAA8AAANMYXZmNTcuODMuMTAwAAAAAAAAAAAAAAD/80DEAAAAA0gAAAAATEFNRTMuMTAwVVVVVVVVVVVVVUxBTUUzLjEwMFVVVVVVVVVVVVVVVVVVVVVVVVVVVVVVVVVVVVVVVVVVVVVVVVVVVVVVVVVVVVVVVVVVVVVVVVVVVVVVVVVVVf/zQsRbAAADSAAAAABVVVVVVVVVVVVVVVVVVVVVVVVVVVVVVVVVVVVVVVVVVVVVVVVVVVVVVVVVVVVVVVVVVVVVVVVVVVVVVVVVVVVVVVVVVVVVVVVVVVVVVVVVVVVVVVVVVVVVVVVVVf/zQMSkAAADSAAAAABVVVVVVVVVVVVVVVVVVVVVVVVVVVVVVVVVVVVVVVVVVVVVVVVVVVVVVVVVVVVVVVVVVVVVVVVVVVVVVVVVVVVVVVVVVVVVVVVVVVVVVVVVVVVVVVVVVVVVVVVV"></audio><button id="listen" type="button" onclick="listen()">Listen</button></div>"##;
/// After the content: the dark-mode and listen scripts.
pub const PAGE_TAIL: &'static str = r##"
<script type="text/javascript">
function chg(e) {
    if (e === "dark") {
        document.body.style.color = "white";
        document.body.style.backgroundColor = "black";
    } else {
        document.body.style.color = "black";
        document.body.style.backgroundColor = "white";
    }
}
if (window.matchMedia && window.matchMedia('(prefers-color-scheme: dark)').matches) {
    chg("dark");
} else {
    chg("bright");
}
window.matchMedia('(prefers-color-scheme: dark)').addEventListener('change', event => {
    const newColorScheme = event.matches ? "dark" : "light";
    chg(newColorScheme);
});
function listen() {
    let full = window.location.href;
    let dest = full.replace("dest=", "listen=");
    let btn = document.getElementById("listen");
    let div = document.getElementById("div1");
    let au = document.getElementById("au");
    au.autoplay = true;
    try {
        au.src=dest;
        au.addEventListener("canplaythrough", (event) => {
            au.play();
        });
        au.controls = true;
        div.insertBefore(au, btn);
        btn.style.display = "none";
    } catch (e) {
        alert(e.stack);
    }
}
</script>
</body></html>"##;

/// What a request asks for.
pub enum Route {
    /// Redirect the client to this URL.
    Redirect(String),
    /// Read the document at this URL as one page.
    Read(String),
    /// Read the document at this URL aloud.
    Listen(String),
    /// Forward the request to the default site.
    Proxy,
}

/// The value of the last pair named `key`, as a map built from the pairs
/// keeps it.
pub open spec fn last_value(pairs: Seq<(Seq<char>, Seq<char>)>, key: Seq<char>) -> Option<Seq<char>>
    decreases pairs.len(),
{
    if pairs.len() == 0 {
        None
    } else if pairs.last().0 == key {
        Some(pairs.last().1)
    } else {
        last_value(pairs.drop_last(), key)
    }
}

/// The route for a request with this query string (none when absent).
pub open spec fn route_spec(query: Seq<u8>) -> (Option<Seq<char>>, Option<Seq<char>>) {
    (last_value(form_pairs(query), DEST_KEY@), last_value(form_pairs(query), LISTEN_KEY@))
}

/// The value of the last pair named `key`.
pub fn query_value(pairs: &Vec<(String, String)>, key: &str) -> (r: Option<String>)
    ensures
        crate::urls::opt_str(r) == last_value(pair_views(pairs@), key@),
{
    let ghost ps = pair_views(pairs@);
    let mut i: usize = pairs.len();
    assert(ps.subrange(0, ps.len() as int) =~= ps);
    while i > 0
        invariant
            i <= pairs.len(),
            ps == pair_views(pairs@),
            last_value(ps.subrange(0, i as int), key@) == last_value(ps, key@),
        decreases i,
    {
        let ghost pre = ps.subrange(0, i as int);
        assert(pre.last() == (pairs@[i - 1].0@, pairs@[i - 1].1@));
        assert(pre.drop_last() =~= ps.subrange(0, i - 1));
        if pairs[i - 1].0 == key.to_owned() {
            return Some(pairs[i - 1].1.clone());
        }
        i = i - 1;
    }
    None
}

/// Decides what a request asks for. A non-empty `dest` parameter reads
/// that URL, or redirects to it when it names the pass-through site;
/// otherwise a `listen` parameter reads its URL aloud; otherwise the
/// request is forwarded.
pub fn route_request(query: Option<&str>) -> (r: Route)
    ensures
        ({
            let (dest, listen) = match query {
                Some(q) => route_spec(q.spec_bytes()),
                None => (None, None),
            };
            match dest {
                Some(d) if d.len() > 0 => if contains(
                    vstd::utf8::encode_utf8(d),
                    PASSTHROUGH_SITE.spec_bytes(),
                ) {
                    r matches Route::Redirect(u) && u@ == d
                } else {
                    r matches Route::Read(u) && u@ == d
                },
                _ => match listen {
                    Some(l) => r matches Route::Listen(u) && u@ == l,
                    None => r is Proxy,
                },
            }
        }),
{
    let pairs = match query {
        Some(q) => parse_query(q.as_bytes()),
        None => Vec::new(),
    };
    proof {
        if query is None {
            assert(pair_views(pairs@) =~= Seq::empty());
        }
    }
    match query_value(&pairs, DEST_KEY) {
        Some(d) => if !d.as_str().is_empty() {
            if contains_exec(d.as_str().as_bytes(), PASSTHROUGH_SITE.as_bytes()) {
                return Route::Redirect(d);
            } else {
                return Route::Read(d);
            }
        },
        None => {},
    }
    match query_value(&pairs, LISTEN_KEY) {
        Some(l) => Route::Listen(l),
        None => Route::Proxy,
    }
}

/// The reading page for a document with this title and text, at this
/// font size.
pub open spec fn page_spec(title: Seq<u8>, fontsize: Seq<u8>, content: Seq<u8>) -> Seq<u8> {
    PAGE_HEAD.spec_bytes() + title + PAGE_TITLE_END.spec_bytes() + title
        + PAGE_STYLE_START.spec_bytes() + fontsize + PAGE_STYLE_END.spec_bytes() + content
        + PAGE_TAIL.spec_bytes()
}

/// Renders the reading page.
pub fn render_page(title: &str, fontsize: &str, content: &str) -> (r: Vec<u8>)
    ensures
        r@ == page_spec(title.spec_bytes(), fontsize.spec_bytes(), content.spec_bytes()),
{
    let mut out = to_vec(PAGE_HEAD.as_bytes());
    push_all(&mut out, title.as_bytes());
    push_all(&mut out, PAGE_TITLE_END.as_bytes());
    push_all(&mut out, title.as_bytes());
    push_all(&mut out, PAGE_STYLE_START.as_bytes());
    push_all(&mut out, fontsize.as_bytes());
    push_all(&mut out, PAGE_STYLE_END.as_bytes());
    push_all(&mut out, content.as_bytes());
    push_all(&mut out, PAGE_TAIL.as_bytes());
    out
}

/// The content type of the reading page.
pub const TEXT_HTML: &'static str = "text/html";

/// The response that presents a read document: the page, compressed with
/// the codec negotiated from the client's `Accept-Encoding` value, with
/// its content type, coding and length.
pub fn reading_response(
    context: &AppContext,
    title: &str,
    text: &str,
    accept_encoding: &str,
) -> (r: Result<ProxiedResponse, ProxyError>)
    ensures
        ({
            let page = page_spec(title.spec_bytes(), sb(context.fontsize@), text.spec_bytes());
            let c = negotiated(page, sb(accept_encoding@));
            r matches Ok(p) && p.body@ == c.output(page) && hviews(p.headers@) == seq![
                (content_type(), TEXT_HTML.spec_bytes()),
                (content_encoding(), sb(c.label())),
                (content_length(), decimal(c.output(page).len())),
            ]
        }),
{
    let page = render_page(title, context.fontsize.as_str(), text);
    let mut codec = accept_encoding.to_owned();
    let body = compress_body(page.as_slice(), &mut codec)?;
    let mut headers: Vec<Header> = Vec::new();
    headers.push(Header { name: content_type_name(), value: to_vec(TEXT_HTML.as_bytes()) });
    headers.push(Header { name: content_encoding_name(), value: to_vec(codec.as_str().as_bytes()) });
    headers.push(Header { name: content_length_name(), value: decimal_exec(body.len()) });
    assert(hviews(headers@) =~= seq![
        (content_type(), TEXT_HTML.spec_bytes()),
        (content_encoding(), sb(codec@)),
        (content_length(), decimal(body@.len())),
    ]);
    Ok(ProxiedResponse { headers, body })
}

} // verus!
