//! URL handling, which the `url` crate performs: parsing, resolution of
//! references, the parts of a URL and the decoding of query strings.
use vstd::prelude::*;

verus! {

/// The serialisation of `s` parsed as an absolute URL, or `None` when it
/// does not parse.
pub uninterp spec fn parsed_url(s: Seq<char>) -> Option<Seq<char>>;

/// The serialisation of `reference` resolved against the URL `base`, or
/// `None` when either does not parse.
pub uninterp spec fn joined_url(base: Seq<char>, reference: Seq<char>) -> Option<Seq<char>>;

/// The host of the URL `s`: `None` when it does not parse, `Some(None)`
/// when it has no host.
pub uninterp spec fn url_host_of(s: Seq<char>) -> Option<Option<Seq<char>>>;

/// The scheme of the URL `s`, or `None` when it does not parse.
pub uninterp spec fn url_scheme_of(s: Seq<char>) -> Option<Seq<char>>;

/// The explicit port of the URL `s`: `None` when it does not parse,
/// `Some(None)` when it has none or names its scheme's default.
pub uninterp spec fn url_port_of(s: Seq<char>) -> Option<Option<u16>>;

/// The name/value pairs that an `application/x-www-form-urlencoded` string
/// decodes to, in order.
pub uninterp spec fn form_pairs(query: Seq<u8>) -> Seq<(Seq<char>, Seq<char>)>;

/// The view of an optional string.
pub open spec fn opt_str(r: Option<String>) -> Option<Seq<char>> {
    match r {
        Some(s) => Some(s@),
        None => None,
    }
}

/// The view of a nested optional string.
pub open spec fn opt_opt_str(r: Option<Option<String>>) -> Option<Option<Seq<char>>> {
    match r {
        Some(Some(s)) => Some(Some(s@)),
        Some(None) => Some(None),
        None => None,
    }
}

/// The views of a list of string pairs.
pub open spec fn pair_views(v: Seq<(String, String)>) -> Seq<(Seq<char>, Seq<char>)> {
    v.map_values(|p: (String, String)| (p.0@, p.1@))
}

/// Relies on `url::Url::parse` and `Url::as_str`: parsing is a function of
/// the text alone.
#[verifier::external_body]
pub(crate) fn parse_url(s: &str) -> (r: Option<String>)
    ensures
        opt_str(r) == parsed_url(s@),
{
    url::Url::parse(s).ok().map(|u| u.as_str().to_owned())
}

/// Relies on `url::Url::join`, applied to `base` parsed by `Url::parse`.
#[verifier::external_body]
pub(crate) fn join_url(base: &str, reference: &str) -> (r: Option<String>)
    ensures
        opt_str(r) == joined_url(base@, reference@),
{
    url::Url::parse(base).ok()?.join(reference).ok().map(|u| u.as_str().to_owned())
}

/// Relies on `url::Url::host_str`, applied to `s` parsed by `Url::parse`.
#[verifier::external_body]
pub(crate) fn url_host(s: &str) -> (r: Option<Option<String>>)
    ensures
        opt_opt_str(r) == url_host_of(s@),
{
    url::Url::parse(s).ok().map(|u| u.host_str().map(|h| h.to_owned()))
}

/// Relies on `url::Url::scheme`, applied to `s` parsed by `Url::parse`.
#[verifier::external_body]
pub(crate) fn url_scheme(s: &str) -> (r: Option<String>)
    ensures
        opt_str(r) == url_scheme_of(s@),
{
    url::Url::parse(s).ok().map(|u| u.scheme().to_owned())
}

/// Relies on `url::Url::port`, applied to `s` parsed by `Url::parse`.
#[verifier::external_body]
pub(crate) fn url_port(s: &str) -> (r: Option<Option<u16>>)
    ensures
        r == url_port_of(s@),
{
    url::Url::parse(s).ok().map(|u| u.port())
}

/// Relies on `url::form_urlencoded::parse`: the pairs, percent- and
/// plus-decoded, in the order they stand.
#[verifier::external_body]
pub(crate) fn parse_query(query: &[u8]) -> (r: Vec<(String, String)>)
    ensures
        pair_views(r@) == form_pairs(query@),
{
    url::form_urlencoded::parse(query).into_owned().collect()
}

} // verus!
