//! The proxy rewrite engine: the outbound request's headers, the
//! normalisation of an upstream response (hop-by-hop headers, content
//! decoding, charset) and the rewriting of what goes back to the client
//! (cookies, redirects, page edits, re-compression).
use vstd::prelude::*;
use vstd::string::StringSliceAdditionalSpecFns;

use crate::bytestr::{
    after_first, before_first, contains, contains_exec, lower_all, lower_exec, occurs_at_exec,
    push_all, replace_all, replace_all_exec, split_first, starts_with, to_vec, trim, trim_bounds,
};
use crate::charset::{labelled_decode, to_utf8_bytes};
use crate::codec::{compress_body, content_decoded, decode_content, negotiated};
use crate::error::ProxyError;
use crate::urls::{url_host, url_host_of};
use crate::headers::{
    content_encoding, content_encoding_name, content_length, content_length_name, content_type,
    content_type_name, end_to_end, first_value, get_first, hviews, is_text_value,
    is_text_value_exec, is_valid_value, is_valid_value_exec, location, location_name,
    remove_hop_headers, remove_named, same_name, set_cookie, set_cookie_name, set_header,
    with_header, without, Header, accept_encoding, accept_encoding_name, host, host_name,
    user_agent, user_agent_name, is_hop, hop_names, insert_header, insert_header_exec,
};
use crate::bytestr::eq_ignore_ascii_case;
use crate::AppContext;
use vstd::utf8::{encode_utf8, valid_utf8};

verus! {

/// Codecs that the proxy accepts from upstream.
pub const UPSTREAM_ACCEPT: &'static str = "gzip, deflate, br";

/// Cookie domain of the default forward site.
pub const COOKIE_DOMAIN: &'static str = ".booklink.me";

pub const WCXSW_OLD: &'static str = "http://www.wcxsw.org/";
pub const WCXSW_NEW: &'static str = "https://m.wcxsw.org/";
pub const WUCUO_OLD: &'static str = "http://www.wucuoxs.com";
pub const WUCUO_NEW: &'static str = "https://m.wucuoxs.com";

/// Page edits: tracker neutralisation, cosmetic patches and the dark-mode
/// script, applied in this order.
pub const TRACKER: &'static str = "google-analytics.com";
pub const TRACKER_SINK: &'static str = "0.0.0.0";
pub const AD_SLOT: &'static str = "adsbygoogle";
pub const AD_SLOT_MASK: &'static str = "xxxxxxx";
pub const HIGHLIGHT_ITEM: &'static str = r##"<li class="hla">"##;
pub const PLAIN_ITEM: &'static str = r##"<li class="">"##;
pub const SIDE_LIST_MARK: &'static str = "slist sec";
pub const BODY_OPEN: &'static str = "<body>";
pub const BODY_OPEN_HIDE_LIST: &'static str = "<body><style>ul.list.sec {display: none;}</style>";
pub const GREY_FONT: &'static str = r##"><font color="#646464">"##;
pub const GREY_CLASS: &'static str = r##" class="grey"><font>"##;
pub const BODY_CLOSE: &'static str = "</body>";
pub const DARK_MODE_SCRIPT: &'static str = r##"
                <script type="text/javascript">
                function chg(e) {
                    if (e === "dark") {
                        document.body.style.color = "white";
                        document.body.style.backgroundColor = "black";
                        var all = document.querySelectorAll('a');
                        var top = document.querySelectorAll('a.top');
                        [].slice.call(all).forEach(function(elem) {
                            elem.style.color = '#338dff';
                        });
                        [].slice.call(top).forEach(function(elem) {
                            elem.style.color = '#f00';
                        });
                        var elements = document.getElementsByClassName('grey');
                        [].slice.call(elements).forEach(function(elem) {
                            elem.style.color = '#a9a196';
                        });
                    } else {
                        document.body.style.color = "black";
                        document.body.style.backgroundColor = "white";
                        var all = document.querySelectorAll('a');
                        var top = document.querySelectorAll('a.top');
                        [].slice.call(all).forEach(function(elem) {
                            elem.style.color = '#03f';
                        });
                        [].slice.call(top).forEach(function(elem) {
                            elem.style.color = '#f00';
                        });
                        var elements = document.getElementsByClassName('grey');
                        [].slice.call(elements).forEach(function(elem) {
                            elem.style.color = '#646464';
                        });
                    }
                }
                if (window.matchMedia && window.matchMedia('(prefers-color-scheme: dark)').matches) {
                    chg("dark");
                } else {
                    chg("light");
                }
                window.matchMedia('(prefers-color-scheme: dark)').addEventListener('change', event => {
                    const newColorScheme = event.matches ? "dark" : "light";
                    chg(newColorScheme);
                });
                </script>
                </body>
                "##;

pub const SCHEME_SEP: &'static str = "://";
pub const DEST_QUERY: &'static str = "/?dest=";
pub const PORT_SEP: &'static str = ":";
pub const HTTP_PREFIX: &'static str = "http";
pub const TEXT_MARK: &'static str = "text";
pub const HTML_MARK: &'static str = "text/html";
pub const CHARSET_MARK: &'static str = "charset=";
pub const UTF8_CHARSET: &'static str = "charset=utf-8";
pub const DEFAULT_PAGE_CHARSET: &'static str = "gb18030";

/// The UTF-8 bytes of a string.
pub open spec fn sb(s: Seq<char>) -> Seq<u8> {
    encode_utf8(s)
}

/// `"http(s)://host[:port]"`: this proxy as its clients see it.
pub open spec fn self_origin(ctx: &AppContext) -> Seq<u8> {
    let base = sb(ctx.scheme@) + SCHEME_SEP.spec_bytes() + sb(ctx.host@);
    if ctx.port@.len() > 0 {
        base + PORT_SEP.spec_bytes() + sb(ctx.port@)
    } else {
        base
    }
}

/// A `Location` value with the two moved sites mapped to their new homes.
pub open spec fn moved_sites(v: Seq<u8>) -> Seq<u8> {
    replace_all(
        replace_all(v, WCXSW_OLD.spec_bytes(), WCXSW_NEW.spec_bytes()),
        WUCUO_OLD.spec_bytes(),
        WUCUO_NEW.spec_bytes(),
    )
}

/// An absolute target that does not already point at this proxy.
pub open spec fn routes_through_self(ctx: &AppContext, t: Seq<u8>) -> bool {
    starts_with(t, HTTP_PREFIX.spec_bytes()) && !contains(t, sb(ctx.host@))
}

/// The `Location` value sent to the client for an upstream value `v`.
pub open spec fn redirect_target(ctx: &AppContext, v: Seq<u8>) -> Seq<u8> {
    let t = moved_sites(v);
    if routes_through_self(ctx, t) {
        self_origin(ctx) + DEST_QUERY.spec_bytes() + t
    } else {
        t
    }
}

/// The value sent to the client for an upstream header `name: v`.
pub open spec fn rewritten_value(ctx: &AppContext, name: Seq<u8>, v: Seq<u8>) -> Seq<u8> {
    if same_name(name, location()) {
        redirect_target(ctx, v)
    } else if same_name(name, set_cookie()) {
        replace_all(v, COOKIE_DOMAIN.spec_bytes(), sb(ctx.host@))
    } else {
        v
    }
}

/// One header added to the rewritten list `acc`.
pub open spec fn header_step(
    ctx: &AppContext,
    acc: Option<Seq<(Seq<u8>, Seq<u8>)>>,
    h: (Seq<u8>, Seq<u8>),
) -> Option<Seq<(Seq<u8>, Seq<u8>)>> {
    match acc {
        None => None,
        Some(out) => {
            let t = rewritten_value(ctx, h.0, h.1);
            if !is_text_value(h.1) || !is_valid_value(t) {
                None
            } else if same_name(h.0, location()) && routes_through_self(ctx, moved_sites(h.1)) {
                Some(without(out, location()).push((h.0, t)))
            } else {
                Some(out.push((h.0, t)))
            }
        },
    }
}

/// The upstream headers rewritten for the client, or `None` when a value
/// is not text or a rewritten value cannot be sent.
pub open spec fn rewrite_headers_spec(ctx: &AppContext, hs: Seq<(Seq<u8>, Seq<u8>)>) -> Option<
    Seq<(Seq<u8>, Seq<u8>)>,
>
    decreases hs.len(),
{
    if hs.len() == 0 {
        Some(Seq::empty())
    } else {
        header_step(ctx, rewrite_headers_spec(ctx, hs.drop_last()), hs.last())
    }
}

/// One pass of the literal edits made to a text page, in order. The
/// side-list style and the dark-mode script are injected only when the
/// page does not already carry them.
pub open spec fn edit_pass(b: Seq<u8>) -> Seq<u8> {
    let b1 = replace_all(b, TRACKER.spec_bytes(), TRACKER_SINK.spec_bytes());
    let b2 = replace_all(b1, AD_SLOT.spec_bytes(), AD_SLOT_MASK.spec_bytes());
    let b3 = replace_all(b2, HIGHLIGHT_ITEM.spec_bytes(), PLAIN_ITEM.spec_bytes());
    let b4 = if contains(b3, SIDE_LIST_MARK.spec_bytes()) && !contains(
        b3,
        BODY_OPEN_HIDE_LIST.spec_bytes(),
    ) {
        replace_all(b3, BODY_OPEN.spec_bytes(), BODY_OPEN_HIDE_LIST.spec_bytes())
    } else {
        b3
    };
    let b5 = replace_all(b4, GREY_FONT.spec_bytes(), GREY_CLASS.spec_bytes());
    if contains(b5, DARK_MODE_SCRIPT.spec_bytes()) {
        b5
    } else {
        replace_all(b5, BODY_CLOSE.spec_bytes(), DARK_MODE_SCRIPT.spec_bytes())
    }
}

/// The edits made to a text page: one pass, kept when a second pass would
/// change nothing more (as on any page that the edits have settled);
/// otherwise the page is passed through unedited.
pub open spec fn page_edits(b: Seq<u8>) -> Seq<u8> {
    let e = edit_pass(b);
    if edit_pass(e) == e {
        e
    } else {
        b
    }
}

/// The page edits are idempotent: editing an edited page changes nothing.
pub proof fn lemma_page_edits_idempotent(b: Seq<u8>)
    ensures
        page_edits(page_edits(b)) == page_edits(b),
{
}

/// Decimal digits of `n`.
pub open spec fn decimal(n: nat) -> Seq<u8>
    decreases n,
{
    if n < 10 {
        seq![(48 + n) as u8]
    } else {
        decimal(n / 10).push((48 + n % 10) as u8)
    }
}

/// Decimal digits of `n`.
pub fn decimal_exec(n: usize) -> (r: Vec<u8>)
    ensures
        r@ == decimal(n as nat),
    decreases n,
{
    if n < 10 {
        vec![48u8 + n as u8]
    } else {
        let mut v = decimal_exec(n / 10);
        v.push(48u8 + (n % 10) as u8);
        v
    }
}

fn self_origin_exec(ctx: &AppContext) -> (r: Vec<u8>)
    ensures
        r@ == self_origin(ctx),
{
    let mut out = to_vec(ctx.scheme.as_str().as_bytes());
    push_all(&mut out, SCHEME_SEP.as_bytes());
    push_all(&mut out, ctx.host.as_str().as_bytes());
    if !ctx.port.as_str().is_empty() {
        push_all(&mut out, PORT_SEP.as_bytes());
        push_all(&mut out, ctx.port.as_str().as_bytes());
    }
    out
}

fn moved_sites_exec(v: &[u8]) -> (r: Vec<u8>)
    ensures
        r@ == moved_sites(v@),
{
    let t = replace_all_exec(v, WCXSW_OLD.as_bytes(), WCXSW_NEW.as_bytes());
    replace_all_exec(t.as_slice(), WUCUO_OLD.as_bytes(), WUCUO_NEW.as_bytes())
}

fn routes_through_self_exec(ctx: &AppContext, t: &[u8]) -> (r: bool)
    ensures
        r == routes_through_self(ctx, t@),
{
    occurs_at_exec(t, HTTP_PREFIX.as_bytes(), 0) && !contains_exec(t, ctx.host.as_str().as_bytes())
}

/// The `Location` value sent to the client for an upstream value `v`.
pub fn redirect_target_exec(ctx: &AppContext, v: &[u8]) -> (r: Vec<u8>)
    ensures
        r@ == redirect_target(ctx, v@),
{
    let t = moved_sites_exec(v);
    if routes_through_self_exec(ctx, t.as_slice()) {
        let mut out = self_origin_exec(ctx);
        push_all(&mut out, DEST_QUERY.as_bytes());
        push_all(&mut out, t.as_slice());
        out
    } else {
        t
    }
}

proof fn lemma_rewrite_failure_sticks(ctx: &AppContext, hs: Seq<(Seq<u8>, Seq<u8>)>, i: int)
    requires
        0 <= i <= hs.len(),
        rewrite_headers_spec(ctx, hs.subrange(0, i)) is None,
    ensures
        rewrite_headers_spec(ctx, hs) is None,
    decreases hs.len() - i,
{
    if i < hs.len() {
        assert(hs.subrange(0, i + 1).drop_last() =~= hs.subrange(0, i));
        lemma_rewrite_failure_sticks(ctx, hs, i + 1);
    } else {
        assert(hs.subrange(0, i) =~= hs);
    }
}

/// Rewrites upstream headers for the client: `Set-Cookie` domains move to
/// this proxy's host, an absolute `Location` elsewhere is routed back
/// through this proxy (replacing any earlier `Location`), the rest is kept.
pub fn rewrite_headers(ctx: &AppContext, headers: &Vec<Header>) -> (r: Result<Vec<Header>, ProxyError>)
    ensures
        match rewrite_headers_spec(ctx, hviews(headers@)) {
            Some(h) => r matches Ok(v) && hviews(v@) == h,
            None => r matches Err(e) && e == ProxyError::InvalidHeader,
        },
{
    let ghost hs = hviews(headers@);
    let mut out: Vec<Header> = Vec::new();
    let mut i: usize = 0;
    while i < headers.len()
        invariant
            i <= headers.len(),
            hs == hviews(headers@),
            rewrite_headers_spec(ctx, hs.subrange(0, i as int)) == Some(hviews(out@)),
        decreases headers.len() - i,
    {
        let h = &headers[i];
        assert(hs.subrange(0, i + 1).drop_last() =~= hs.subrange(0, i as int));
        assert(hs.subrange(0, i + 1).last() == h@);
        if !is_text_value_exec(h.value.as_slice()) {
            proof {
                lemma_rewrite_failure_sticks(ctx, hs, i + 1);
            }
            return Err(ProxyError::InvalidHeader);
        }
        let is_location = eq_ignore_ascii_case(h.name.as_slice(), location_name().as_slice());
        let text = if is_location {
            redirect_target_exec(ctx, h.value.as_slice())
        } else if eq_ignore_ascii_case(h.name.as_slice(), set_cookie_name().as_slice()) {
            replace_all_exec(h.value.as_slice(), COOKIE_DOMAIN.as_bytes(), ctx.host.as_str().as_bytes())
        } else {
            to_vec(h.value.as_slice())
        };
        if !is_valid_value_exec(text.as_slice()) {
            proof {
                lemma_rewrite_failure_sticks(ctx, hs, i + 1);
            }
            return Err(ProxyError::InvalidHeader);
        }
        if is_location {
            let t = moved_sites_exec(h.value.as_slice());
            if routes_through_self_exec(ctx, t.as_slice()) {
                remove_named(&mut out, location_name().as_slice());
            }
        }
        let ghost before = hviews(out@);
        out.push(Header { name: to_vec(h.name.as_slice()), value: text });
        assert(hviews(out@) =~= before.push(hviews(out@).last()));
        i = i + 1;
    }
    assert(hs.subrange(0, hs.len() as int) =~= hs);
    Ok(out)
}

fn edit_pass_exec(body: &[u8]) -> (r: Vec<u8>)
    ensures
        r@ == edit_pass(body@),
{
    let b1 = replace_all_exec(body, TRACKER.as_bytes(), TRACKER_SINK.as_bytes());
    let b2 = replace_all_exec(b1.as_slice(), AD_SLOT.as_bytes(), AD_SLOT_MASK.as_bytes());
    let b3 = replace_all_exec(b2.as_slice(), HIGHLIGHT_ITEM.as_bytes(), PLAIN_ITEM.as_bytes());
    let b4 = if contains_exec(b3.as_slice(), SIDE_LIST_MARK.as_bytes()) && !contains_exec(
        b3.as_slice(),
        BODY_OPEN_HIDE_LIST.as_bytes(),
    ) {
        replace_all_exec(b3.as_slice(), BODY_OPEN.as_bytes(), BODY_OPEN_HIDE_LIST.as_bytes())
    } else {
        b3
    };
    let b5 = replace_all_exec(b4.as_slice(), GREY_FONT.as_bytes(), GREY_CLASS.as_bytes());
    if contains_exec(b5.as_slice(), DARK_MODE_SCRIPT.as_bytes()) {
        b5
    } else {
        replace_all_exec(b5.as_slice(), BODY_CLOSE.as_bytes(), DARK_MODE_SCRIPT.as_bytes())
    }
}

/// Applies the page edits to a text body.
pub fn edit_page(body: &[u8]) -> (r: Vec<u8>)
    ensures
        r@ == page_edits(body@),
{
    let e = edit_pass_exec(body);
    let again = edit_pass_exec(e.as_slice());
    if crate::bytestr::bytes_eq(again.as_slice(), e.as_slice()) {
        e
    } else {
        to_vec(body)
    }
}

/// A response ready for the client.
pub struct ProxiedResponse {
    pub headers: Vec<Header>,
    pub body: Vec<u8>,
}

/// The response's content type marks it as text.
pub open spec fn is_text_page(hs: Seq<(Seq<u8>, Seq<u8>)>) -> bool {
    match first_value(hs, content_type()) {
        Some(v) => contains(v, TEXT_MARK.spec_bytes()),
        None => false,
    }
}

/// The body sent to the client before compression: a text page gets the
/// page edits and must be UTF-8; any other body is kept.
pub open spec fn edited_body(hs: Seq<(Seq<u8>, Seq<u8>)>, body: Seq<u8>) -> Option<Seq<u8>> {
    if is_text_page(hs) {
        if valid_utf8(body) {
            Some(page_edits(body))
        } else {
            None
        }
    } else {
        Some(body)
    }
}

/// A redirect (any `Location` header) is passed on without compression.
pub open spec fn is_redirect(hs: Seq<(Seq<u8>, Seq<u8>)>) -> bool {
    first_value(hs, location()) is Some
}

/// Rewrites a normalised upstream response for the client: headers as
/// `rewrite_headers` says, page edits on text, and, unless it redirects,
/// the body compressed with the codec negotiated from the client's
/// `Accept-Encoding` value, with `Content-Encoding` and `Content-Length`
/// set to match.
pub fn modify_response(
    context: &AppContext,
    headers: &Vec<Header>,
    body: &[u8],
    accept_encoding: &str,
) -> (r: Result<ProxiedResponse, ProxyError>)
    ensures
        match rewrite_headers_spec(context, hviews(headers@)) {
            None => r matches Err(e) && e == ProxyError::InvalidHeader,
            Some(hs) => match edited_body(hs, body@) {
                None => r matches Err(e) && e == ProxyError::Malformed,
                Some(b) => if is_redirect(hviews(headers@)) {
                    r matches Ok(p) && hviews(p.headers@) == hs && p.body@ == b
                } else {
                    let c = negotiated(b, sb(accept_encoding@));
                    r matches Ok(p) && p.body@ == c.output(b) && hviews(p.headers@) == with_header(
                        with_header(hs, content_encoding(), sb(c.label())),
                        content_length(),
                        decimal(c.output(b).len()),
                    )
                },
            },
        },
{
    let mut out = rewrite_headers(context, headers)?;
    let text = match get_first(&out, content_type_name().as_slice()) {
        Some(v) => contains_exec(v.as_slice(), TEXT_MARK.as_bytes()),
        None => false,
    };
    let page = if text {
        if !crate::charset::is_utf8(body) {
            return Err(ProxyError::Malformed);
        }
        edit_page(body)
    } else {
        to_vec(body)
    };
    if get_first(headers, location_name().as_slice()).is_some() {
        return Ok(ProxiedResponse { headers: out, body: page });
    }
    let mut codec = accept_encoding.to_owned();
    let compressed = compress_body(page.as_slice(), &mut codec)?;
    let len = decimal_exec(compressed.len());
    set_header(&mut out, content_encoding_name(), to_vec(codec.as_str().as_bytes()));
    set_header(&mut out, content_length_name(), len);
    Ok(ProxiedResponse { headers: out, body: compressed })
}

/// An upstream response after normalisation.
pub struct UpstreamResponse {
    pub headers: Vec<Header>,
    pub body: Vec<u8>,
}

/// The charset label of an HTML content type: its `charset=` parameter,
/// trimmed and in lower case, or gb18030 when there is none.
pub open spec fn page_charset(ct: Seq<u8>) -> Seq<u8> {
    if contains(ct, CHARSET_MARK.spec_bytes()) {
        lower_all(trim(before_first(after_first(ct, CHARSET_MARK.spec_bytes()), CHARSET_MARK.spec_bytes())))
    } else {
        DEFAULT_PAGE_CHARSET.spec_bytes()
    }
}

/// The content type declared after conversion to UTF-8.
pub open spec fn utf8_content_type(ct: Seq<u8>) -> Seq<u8> {
    before_first(ct, CHARSET_MARK.spec_bytes()) + UTF8_CHARSET.spec_bytes()
}

/// The content coding that an upstream response declares: the first
/// `Content-Encoding` value when it reads as text, else none.
pub open spec fn declared_coding(hs: Seq<(Seq<u8>, Seq<u8>)>) -> Seq<u8> {
    match first_value(hs, content_encoding()) {
        Some(v) => if is_text_value(v) {
            v
        } else {
            Seq::empty()
        },
        None => Seq::empty(),
    }
}

/// Normalisation of an upstream response: hop-by-hop headers and
/// `Content-Encoding` are dropped and the body decoded; an HTML body is
/// converted from its declared charset (gb18030 when none) to UTF-8, and a
/// declared charset is rewritten to utf-8.
pub open spec fn upstream_spec(hs: Seq<(Seq<u8>, Seq<u8>)>, body: Seq<u8>) -> Result<
    (Seq<(Seq<u8>, Seq<u8>)>, Seq<u8>),
    ProxyError,
> {
    let e2e = end_to_end(hs);
    let hs1 = without(e2e, content_encoding());
    match content_decoded(declared_coding(e2e), body) {
        None => Err(ProxyError::Decompression),
        Some(decoded) => match first_value(e2e, content_type()) {
            None => Err(ProxyError::MissingContentType),
            Some(ct) => if !is_text_value(ct) {
                Err(ProxyError::InvalidHeader)
            } else if !contains(ct, HTML_MARK.spec_bytes()) {
                Ok((hs1, decoded))
            } else {
                html_spec(hs1, ct, decoded)
            },
        },
    }
}

/// Normalises an upstream response (see `upstream_spec`).
pub fn create_proxied_response(mut headers: Vec<Header>, body: &[u8]) -> (r: Result<UpstreamResponse, ProxyError>)
    ensures
        match upstream_spec(hviews(headers@), body@) {
            Ok((h, b)) => r matches Ok(u) && hviews(u.headers@) == h && u.body@ == b,
            Err(e) => r matches Err(f) && f == e,
        },
{
    remove_hop_headers(&mut headers);
    let coding = match get_first(&headers, content_encoding_name().as_slice()) {
        Some(v) => if is_text_value_exec(v.as_slice()) {
            v
        } else {
            Vec::new()
        },
        None => Vec::new(),
    };
    let content_type_value = get_first(&headers, content_type_name().as_slice());
    remove_named(&mut headers, content_encoding_name().as_slice());
    let decoded = decode_content(coding.as_slice(), body)?;
    let ct = match content_type_value {
        Some(v) => v,
        None => {
            return Err(ProxyError::MissingContentType);
        },
    };
    if !is_text_value_exec(ct.as_slice()) {
        return Err(ProxyError::InvalidHeader);
    }
    if !contains_exec(ct.as_slice(), HTML_MARK.as_bytes()) {
        return Ok(UpstreamResponse { headers, body: decoded });
    }
    html_to_utf8(&mut headers, ct.as_slice(), decoded.as_slice())
}

/// The HTML branch of `upstream_spec`: the declared charset rewritten to
/// utf-8 and the body converted.
pub open spec fn html_spec(hs: Seq<(Seq<u8>, Seq<u8>)>, ct: Seq<u8>, decoded: Seq<u8>) -> Result<
    (Seq<(Seq<u8>, Seq<u8>)>, Seq<u8>),
    ProxyError,
> {
    let hs2 = if contains(ct, CHARSET_MARK.spec_bytes()) {
        insert_header(hs, content_type(), utf8_content_type(ct))
    } else {
        hs
    };
    match labelled_decode(page_charset(ct), decoded) {
        None => Err(ProxyError::UnknownCharset),
        Some(None) => Err(ProxyError::Malformed),
        Some(Some(t)) => Ok((hs2, sb(t))),
    }
}

fn html_to_utf8(headers: &mut Vec<Header>, ct: &[u8], decoded: &[u8]) -> (r: Result<UpstreamResponse, ProxyError>)
    ensures
        match html_spec(hviews(old(headers)@), ct@, decoded@) {
            Ok((h, b)) => r matches Ok(u) && hviews(u.headers@) == h && u.body@ == b,
            Err(e) => r matches Err(f) && f == e,
        },
{
    let label = if contains_exec(ct, CHARSET_MARK.as_bytes()) {
        let (front, rest) = split_first(ct, CHARSET_MARK.as_bytes());
        let (param, _) = split_first(rest.as_slice(), CHARSET_MARK.as_bytes());
        let mut value = front;
        push_all(&mut value, UTF8_CHARSET.as_bytes());
        insert_header_exec(headers, content_type_name(), value);
        let (a, b) = trim_bounds(param.as_slice());
        lower_exec(&param.as_slice()[a..b])
    } else {
        to_vec(DEFAULT_PAGE_CHARSET.as_bytes())
    };
    let text = to_utf8_bytes(decoded, label.as_slice())?;
    let mut out: Vec<Header> = Vec::new();
    std::mem::swap(headers, &mut out);
    Ok(UpstreamResponse { headers: out, body: to_vec(text.as_str().as_bytes()) })
}

/// The view of an optional string slice.
pub open spec fn opt_chars(q: Option<&str>) -> Option<Seq<char>> {
    match q {
        Some(s) => Some(s@),
        None => None,
    }
}

/// The URI of the outbound request: the forward base followed by the
/// client's path and query, or the client's URI when there is no base.
pub open spec fn forward_uri_spec(
    forward_url: Seq<char>,
    path: Seq<char>,
    query: Option<Seq<char>>,
    client_uri: Seq<char>,
) -> Seq<char> {
    if forward_url.len() == 0 {
        client_uri
    } else {
        match query {
            Some(q) => forward_url + path + "?"@ + q,
            None => forward_url + path,
        }
    }
}

/// The URI of the outbound request.
pub fn forward_uri(forward_url: &str, path: &str, query: Option<&str>, client_uri: &str) -> (r: String)
    ensures
        r@ == forward_uri_spec(forward_url@, path@, opt_chars(query), client_uri@),
{
    if forward_url.is_empty() {
        return client_uri.to_owned();
    }
    let mut uri = forward_url.to_owned();
    uri.append(path);
    match query {
        Some(q) => {
            uri.append("?");
            uri.append(q);
        },
        None => {},
    }
    uri
}

/// An outbound request: its URI and headers.
pub struct ProxiedRequest {
    pub uri: String,
    pub headers: Vec<Header>,
}

/// The headers of the outbound request: hop-by-hop headers dropped,
/// `Accept-Encoding` replaced by the codecs this proxy decodes (at the
/// end), `Host` set to the forward target's host and `User-Agent` to the
/// configured one (each in place when the client sent it).
pub open spec fn request_headers_spec(
    ua: Seq<u8>,
    target_host: Seq<u8>,
    hs: Seq<(Seq<u8>, Seq<u8>)>,
) -> Seq<(Seq<u8>, Seq<u8>)> {
    insert_header(
        insert_header(
            with_header(end_to_end(hs), accept_encoding(), UPSTREAM_ACCEPT.spec_bytes()),
            host(),
            target_host,
        ),
        user_agent(),
        ua,
    )
}

/// Builds the outbound request for a client request with the given path,
/// query, URI and headers. Fails with `InvalidUrl` when the target URI has
/// no host and with `InvalidHeader` when the host or the configured user
/// agent cannot be sent as a header value.
pub fn create_proxied_request(
    context: &AppContext,
    forward_url: &str,
    path: &str,
    query: Option<&str>,
    client_uri: &str,
    mut headers: Vec<Header>,
) -> (r: Result<ProxiedRequest, ProxyError>)
    ensures
        ({
            let uri = forward_uri_spec(forward_url@, path@, opt_chars(query), client_uri@);
            match url_host_of(uri) {
                Some(Some(h)) => if is_valid_value(sb(h)) && is_valid_value(sb(context.ua@)) {
                    r matches Ok(p) && p.uri@ == uri && hviews(p.headers@) == request_headers_spec(
                        sb(context.ua@),
                        sb(h),
                        hviews(headers@),
                    )
                } else {
                    r matches Err(e) && e == ProxyError::InvalidHeader
                },
                _ => r matches Err(e) && e == ProxyError::InvalidUrl,
            }
        }),
{
    let uri = forward_uri(forward_url, path, query, client_uri);
    let target = match url_host(uri.as_str()) {
        Some(Some(h)) => h,
        _ => {
            return Err(ProxyError::InvalidUrl);
        },
    };
    let target_bytes = to_vec(target.as_str().as_bytes());
    let ua = to_vec(context.ua.as_str().as_bytes());
    if !is_valid_value_exec(target_bytes.as_slice()) || !is_valid_value_exec(ua.as_slice()) {
        return Err(ProxyError::InvalidHeader);
    }
    remove_hop_headers(&mut headers);
    set_header(&mut headers, accept_encoding_name(), to_vec(UPSTREAM_ACCEPT.as_bytes()));
    insert_header_exec(&mut headers, host_name(), target_bytes);
    insert_header_exec(&mut headers, user_agent_name(), ua);
    Ok(ProxiedRequest { uri, headers })
}

/// A redirect to an absolute URL elsewhere comes back through this proxy
/// as `<scheme>://<host>[:<port>]/?dest=<URL>`; a redirect that already
/// names this proxy's host is left as it is (for targets outside the two
/// moved sites).
pub proof fn lemma_redirect_self_routing(ctx: &AppContext, v: Seq<u8>)
    requires
        !contains(v, WCXSW_OLD.spec_bytes()),
        !contains(v, WUCUO_OLD.spec_bytes()),
    ensures
        starts_with(v, HTTP_PREFIX.spec_bytes()) && !contains(v, sb(ctx.host@)) ==> redirect_target(
            ctx,
            v,
        ) == self_origin(ctx) + DEST_QUERY.spec_bytes() + v,
        contains(v, sb(ctx.host@)) ==> redirect_target(ctx, v) == v,
{
    crate::bytestr::lemma_replace_absent(v, WCXSW_OLD.spec_bytes(), WCXSW_NEW.spec_bytes());
    crate::bytestr::lemma_replace_absent(v, WUCUO_OLD.spec_bytes(), WUCUO_NEW.spec_bytes());
}

proof fn lemma_not_hop(name: Seq<u8>)
    requires
        lower_all(name) == name,
        forall|k: int| 0 <= k < hop_names().len() ==> (#[trigger] hop_names()[k]).len() != name.len()
            || hop_names()[k][0] != name[0] || hop_names()[k][1] != name[1],
    ensures
        !is_hop(name),
{
    if is_hop(name) {
        let k = choose|k: int| 0 <= k < hop_names().len() && hop_names()[k] == lower_all(name);
        assert(hop_names()[k] == name);
    }
}

/// The outbound request carries no hop-by-hop header in any letter case:
/// the client's are stripped, and the three headers the proxy sets are
/// end-to-end.
pub proof fn lemma_request_headers_end_to_end(ua: Seq<u8>, target_host: Seq<u8>, hs: Seq<(Seq<u8>, Seq<u8>)>)
    ensures
        forall|i: int|
            0 <= i < request_headers_spec(ua, target_host, hs).len() ==> !is_hop(
                #[trigger] request_headers_spec(ua, target_host, hs)[i].0,
            ),
{
    crate::headers::lemma_end_to_end(hs);
    assert(lower_all(accept_encoding()) =~= accept_encoding());
    assert(lower_all(host()) =~= host());
    assert(lower_all(user_agent()) =~= user_agent());
    lemma_not_hop(accept_encoding());
    lemma_not_hop(host());
    lemma_not_hop(user_agent());
    let h1 = with_header(end_to_end(hs), accept_encoding(), UPSTREAM_ACCEPT.spec_bytes());
    crate::headers::lemma_without_end_to_end(end_to_end(hs), accept_encoding());
    assert forall|i: int| 0 <= i < h1.len() implies !is_hop(#[trigger] h1[i].0) by {
        if i < h1.len() - 1 {
            assert(h1[i] == without(end_to_end(hs), accept_encoding())[i]);
        }
    }
    let h2 = insert_header(h1, host(), target_host);
    crate::headers::lemma_insert_end_to_end(h1, host(), target_host);
    crate::headers::lemma_insert_end_to_end(h2, user_agent(), ua);
}

/// A normalised upstream response carries no hop-by-hop header in any
/// letter case.
pub proof fn lemma_upstream_headers_end_to_end(hs: Seq<(Seq<u8>, Seq<u8>)>, body: Seq<u8>)
    ensures
        upstream_spec(hs, body) matches Ok((h, _)) ==> forall|i: int|
            0 <= i < h.len() ==> !is_hop(#[trigger] h[i].0),
{
    crate::headers::lemma_end_to_end(hs);
    let h1 = without(end_to_end(hs), content_encoding());
    crate::headers::lemma_without_end_to_end(end_to_end(hs), content_encoding());
    assert(lower_all(content_type()) =~= content_type());
    lemma_not_hop(content_type());
    match first_value(end_to_end(hs), content_type()) {
        Some(ct) => crate::headers::lemma_insert_end_to_end(h1, content_type(), utf8_content_type(ct)),
        None => {},
    }
}

/// A response whose one header is a `Location: v` goes to the client with
/// exactly one `Location`, whose value is `redirect_target(ctx, v)` (see
/// `lemma_redirect_self_routing` for its shape).
pub proof fn lemma_single_location(ctx: &AppContext, name: Seq<u8>, v: Seq<u8>)
    requires
        same_name(name, location()),
        is_text_value(v),
        is_valid_value(redirect_target(ctx, v)),
    ensures
        rewrite_headers_spec(ctx, seq![(name, v)]) == Some(seq![(name, redirect_target(ctx, v))]),
{
    let hs = seq![(name, v)];
    let empty = Seq::<(Seq<u8>, Seq<u8>)>::empty();
    assert(hs.drop_last() =~= empty);
    assert(hs.last() == (name, v));
    assert(rewrite_headers_spec(ctx, empty) == Some(empty));
    assert(rewritten_value(ctx, name, v) == redirect_target(ctx, v));
    assert(rewrite_headers_spec(ctx, hs) == header_step(ctx, Some(empty), (name, v)));
    assert(without(Seq::<(Seq<u8>, Seq<u8>)>::empty(), location()) =~= Seq::<(Seq<u8>, Seq<u8>)>::empty());
    assert(Seq::<(Seq<u8>, Seq<u8>)>::empty().push((name, redirect_target(ctx, v))) =~= seq![
        (name, redirect_target(ctx, v)),
    ]);
}

} // verus!
