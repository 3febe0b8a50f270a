//! Charset normalisation: strict decoding of byte streams under a WHATWG
//! encoding label.
use vstd::prelude::*;

use crate::error::ProxyError;
use vstd::utf8::{encode_utf8, valid_utf8};

verus! {

/// The text that `bytes` decode to under the encoding that `label` names:
/// `None` when the label names no encoding, `Some(None)` when the bytes are
/// malformed for it.
pub uninterp spec fn labelled_decode(label: Seq<u8>, bytes: Seq<u8>) -> Option<Option<Seq<char>>>;

/// The view of a nested optional string.
pub open spec fn opt_text(r: Option<Option<String>>) -> Option<Option<Seq<char>>> {
    match r {
        Some(Some(s)) => Some(Some(s@)),
        Some(None) => Some(None),
        None => None,
    }
}

/// The label `gb18030`, assumed for pages that are not UTF-8.
pub open spec fn gb18030_label() -> Seq<u8> {
    /* gb18030 */
    seq![103u8, 98u8, 49u8, 56u8, 48u8, 51u8, 48u8]
}

/// Relies on encoding_rs: `Encoding::for_label` resolves a WHATWG label,
/// and `Encoding::decode` reports in its third result whether it met
/// malformed input. The outcome depends on the label and bytes alone.
#[verifier::external_body]
fn decode_with_label(label: &[u8], bytes: &[u8]) -> (r: Option<Option<String>>)
    ensures
        opt_text(r) == labelled_decode(label@, bytes@),
{
    encoding_rs::Encoding::for_label(label).map(|enc| {
        let (text, _, had_errors) = enc.decode(bytes);
        if had_errors { None } else { Some(text.into_owned()) }
    })
}

/// Relies on `std::str::from_utf8`: it succeeds exactly on valid UTF-8.
#[verifier::external_body]
pub(crate) fn is_utf8(bytes: &[u8]) -> (r: bool)
    ensures
        r == valid_utf8(bytes@),
{
    std::str::from_utf8(bytes).is_ok()
}

/// Decodes `orig` under the encoding that `charset` names. An unknown label
/// and malformed input are errors; nothing is ever replaced.
pub fn to_utf8(orig: &[u8], charset: &str) -> (r: Result<String, ProxyError>)
    ensures
        match labelled_decode(encode_utf8(charset@), orig@) {
            None => r == Err::<String, ProxyError>(ProxyError::UnknownCharset),
            Some(None) => r == Err::<String, ProxyError>(ProxyError::Malformed),
            Some(Some(t)) => r matches Ok(s) && s@ == t,
        },
{
    to_utf8_bytes(orig, charset.as_bytes())
}

/// Decodes `orig` under the encoding that the label bytes `label` name.
pub fn to_utf8_bytes(orig: &[u8], label: &[u8]) -> (r: Result<String, ProxyError>)
    ensures
        match labelled_decode(label@, orig@) {
            None => r == Err::<String, ProxyError>(ProxyError::UnknownCharset),
            Some(None) => r == Err::<String, ProxyError>(ProxyError::Malformed),
            Some(Some(t)) => r matches Ok(s) && s@ == t,
        },
{
    match decode_with_label(label, orig) {
        None => Err(ProxyError::UnknownCharset),
        Some(None) => Err(ProxyError::Malformed),
        Some(Some(s)) => Ok(s),
    }
}

/// The UTF-8 text of a fetched page: the bytes themselves when they are
/// valid UTF-8, else their decoding as gb18030.
pub open spec fn page_text_spec(bytes: Seq<u8>) -> Option<Seq<u8>> {
    if valid_utf8(bytes) {
        Some(bytes)
    } else {
        match labelled_decode(gb18030_label(), bytes) {
            Some(Some(t)) => Some(encode_utf8(t)),
            _ => None,
        }
    }
}

/// Normalises a fetched page to UTF-8 bytes.
pub fn page_text(bytes: &[u8]) -> (r: Result<Vec<u8>, ProxyError>)
    ensures
        match page_text_spec(bytes@) {
            Some(t) => r matches Ok(v) && v@ == t,
            None => r is Err,
        },
{
    if is_utf8(bytes) {
        return Ok(crate::bytestr::to_vec(bytes));
    }
    let label = vec![103u8, 98u8, 49u8, 56u8, 48u8, 51u8, 48u8];
    assert(label@ == gb18030_label());
    let s = to_utf8_bytes(bytes, label.as_slice())?;
    Ok(crate::bytestr::to_vec(s.as_str().as_bytes()))
}

} // verus!
