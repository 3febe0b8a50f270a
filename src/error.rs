//! The library's error type.
use vstd::prelude::*;

verus! {

/// Why a request could not be served.
#[derive(Debug, Clone, Copy, PartialEq, Eq, Structural)]
pub enum ProxyError {
    /// A codec failed while compressing a body.
    Compression,
    /// A body was not a valid stream of its declared content encoding.
    Decompression,
    /// A character-set label that names no known encoding.
    UnknownCharset,
    /// Bytes that are malformed under their declared character set.
    Malformed,
    /// A header value that is not visible ASCII text.
    InvalidHeader,
    /// An upstream response without a `Content-Type` header.
    MissingContentType,
    /// A URL that could not be parsed or resolved.
    InvalidUrl,
    /// More redirects than the follow limit allows.
    TooManyRedirects,
    /// A page from which no article could be extracted.
    Extraction,
    /// A synthesis frame without the marker that it must carry.
    Protocol,
    /// A synthesis connection that failed or closed before the end of the
    /// stream.
    Transport,
}

} // verus!
