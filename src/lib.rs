//! A content-rewriting reverse proxy: header sanitising, redirect
//! rewriting, charset normalisation, codec negotiation, paginated article
//! crawling and a framed speech-synthesis client, each stated and proved
//! with Verus.
use vstd::prelude::*;

pub mod bytestr;
pub mod charset;
pub mod codec;
pub mod crawl;
pub mod error;
pub mod headers;
pub mod rewrite;
pub mod route;
pub mod speech;
pub mod urls;

verus! {

/// Process-wide configuration, fixed at startup and shared read-only.
#[derive(Debug)]
pub struct AppContext {
    /// Base URL of the site that plain requests are forwarded to.
    pub booksite: String,
    /// Font size, in pixels, of the rendered reading page.
    pub fontsize: String,
    /// User agent sent on outbound requests.
    pub ua: String,
    /// Externally visible host of this proxy.
    pub host: String,
    /// Externally visible port; empty when the scheme's default is used.
    pub port: String,
    /// Externally visible scheme (`http` or `https`).
    pub scheme: String,
}

} // verus!
