//! Content codecs: negotiation of the response codec from a client's
//! `Accept-Encoding` list, compression with the smallest result, and
//! decoding of upstream bodies by their `Content-Encoding`.
use vstd::prelude::*;

use crate::bytestr::{bytes_eq, split, split_exec, trim, trim_bounds, views};
use vstd::utf8::encode_utf8;
use crate::error::ProxyError;

verus! {

/// A compression codec that this proxy can produce.
#[derive(Debug, Clone, Copy, PartialEq, Eq, Structural)]
pub enum Codec {
    Brotli,
    Zstd,
    Gzip,
    Deflate,
}

/// The stream that brotli (quality 4, window 22) makes of `data`.
pub uninterp spec fn brotli_compressed(data: Seq<u8>) -> Seq<u8>;

/// The frame that zstd (level 7) makes of `data`.
pub uninterp spec fn zstd_compressed(data: Seq<u8>) -> Seq<u8>;

/// The gzip member that flate2 (fast level) makes of `data`.
pub uninterp spec fn gzip_compressed(data: Seq<u8>) -> Seq<u8>;

/// The raw deflate stream that flate2 (fast level) makes of `data`.
pub uninterp spec fn deflate_compressed(data: Seq<u8>) -> Seq<u8>;

/// What a gzip stream decodes to, or `None` when it is malformed.
pub uninterp spec fn gzip_decompressed(data: Seq<u8>) -> Option<Seq<u8>>;

/// What a raw deflate stream decodes to, or `None` when it is malformed.
pub uninterp spec fn deflate_decompressed(data: Seq<u8>) -> Option<Seq<u8>>;

/// What a brotli stream decodes to, or `None` when it is malformed.
pub uninterp spec fn brotli_decompressed(data: Seq<u8>) -> Option<Seq<u8>>;

/// The view of an optional byte vector.
pub open spec fn opt_view(r: Option<Vec<u8>>) -> Option<Seq<u8>> {
    match r {
        Some(v) => Some(v@),
        None => None,
    }
}

impl Codec {
    /// The token that names the codec in `Accept-Encoding`.
    pub open spec fn token(self) -> Seq<u8> {
        match self {
            Codec::Brotli => /* br */ seq![98u8, 114u8],
            Codec::Zstd => /* zstd */ seq![122u8, 115u8, 116u8, 100u8],
            Codec::Gzip => /* gzip */ seq![103u8, 122u8, 105u8, 112u8],
            Codec::Deflate => /* deflate */ seq![100u8, 101u8, 102u8, 108u8, 97u8, 116u8, 101u8],
        }
    }

    /// The name written into `Content-Encoding`.
    pub open spec fn label(self) -> Seq<char> {
        match self {
            Codec::Brotli => "br"@,
            Codec::Zstd => "zstd"@,
            Codec::Gzip => "gzip"@,
            Codec::Deflate => "deflate"@,
        }
    }

    /// What the codec makes of `data`.
    pub open spec fn output(self, data: Seq<u8>) -> Seq<u8> {
        match self {
            Codec::Brotli => brotli_compressed(data),
            Codec::Zstd => zstd_compressed(data),
            Codec::Gzip => gzip_compressed(data),
            Codec::Deflate => deflate_compressed(data),
        }
    }

    /// The token as bytes.
    pub fn token_exec(&self) -> (r: Vec<u8>)
        ensures
            r@ == self.token(),
    {
        match self {
            Codec::Brotli => vec![98u8, 114u8],
            Codec::Zstd => vec![122u8, 115u8, 116u8, 100u8],
            Codec::Gzip => vec![103u8, 122u8, 105u8, 112u8],
            Codec::Deflate => vec![100u8, 101u8, 102u8, 108u8, 97u8, 116u8, 101u8],
        }
    }

    /// The name written into `Content-Encoding`.
    pub fn label_exec(&self) -> (r: String)
        ensures
            r@ == self.label(),
    {
        match self {
            Codec::Brotli => "br".to_owned(),
            Codec::Zstd => "zstd".to_owned(),
            Codec::Gzip => "gzip".to_owned(),
            Codec::Deflate => "deflate".to_owned(),
        }
    }
}

/// The codec that a trimmed `Accept-Encoding` token names, if any.
pub open spec fn codec_of(token: Seq<u8>) -> Option<Codec> {
    if token == Codec::Brotli.token() {
        Some(Codec::Brotli)
    } else if token == Codec::Zstd.token() {
        Some(Codec::Zstd)
    } else if token == Codec::Gzip.token() {
        Some(Codec::Gzip)
    } else if token == Codec::Deflate.token() {
        Some(Codec::Deflate)
    } else {
        None
    }
}

/// `list` with `c` added at the end, unless it is absent or already there.
pub open spec fn add_candidate(list: Seq<Codec>, c: Option<Codec>) -> Seq<Codec> {
    match c {
        Some(k) => if list.contains(k) {
            list
        } else {
            list.push(k)
        },
        None => list,
    }
}

/// The known codecs that `tokens` name, first occurrences only, in order.
pub open spec fn codecs_in(tokens: Seq<Seq<u8>>) -> Seq<Codec>
    decreases tokens.len(),
{
    if tokens.len() == 0 {
        Seq::<Codec>::empty()
    } else {
        add_candidate(codecs_in(tokens.drop_last()), codec_of(trim(tokens.last())))
    }
}

/// The candidate codecs for a comma-separated `Accept-Encoding` value:
/// those it names, in order and without repeats, with brotli added at the
/// end when it is not among them. Unknown names take no part.
pub open spec fn candidates(header: Seq<u8>) -> Seq<Codec> {
    let c = codecs_in(split(header, 44u8));
    if c.contains(Codec::Brotli) {
        c
    } else {
        c.push(Codec::Brotli)
    }
}

/// Index of the first of the shortest sequences in `outs`.
pub open spec fn smallest(outs: Seq<Seq<u8>>) -> int
    decreases outs.len(),
{
    if outs.len() <= 1 {
        0
    } else {
        let j = smallest(outs.drop_last());
        if outs.last().len() < outs[j].len() {
            outs.len() - 1
        } else {
            j
        }
    }
}

/// What each candidate codec makes of `body`.
pub open spec fn outputs(cands: Seq<Codec>, body: Seq<u8>) -> Seq<Seq<u8>> {
    cands.map_values(|c: Codec| c.output(body))
}

/// The codec chosen for `body` under the `Accept-Encoding` value `header`:
/// the first candidate whose output is shortest.
pub open spec fn negotiated(body: Seq<u8>, header: Seq<u8>) -> Codec {
    let cands = candidates(header);
    cands[smallest(outputs(cands, body))]
}

/// Relies on `brotli::CompressorReader` at quality 4 with a 22-bit window:
/// the stream depends on the input bytes alone, and reading it fails only
/// when the input reader does, which a slice never does.
#[verifier::external_body]
fn brotli_compress(data: &[u8]) -> (r: Option<Vec<u8>>)
    ensures
        r is Some,
        r matches Some(v) ==> v@ == brotli_compressed(data@),
{
    let mut out = Vec::with_capacity(data.len());
    let mut reader = brotli::CompressorReader::new(data, data.len(), 4, 22);
    std::io::Read::read_to_end(&mut reader, &mut out).ok().map(|_| out)
}

/// Relies on `zstd::bulk::compress` at level 7: the frame depends on the
/// input bytes alone, and the output buffer is sized by `compress_bound`,
/// so compression does not fail.
#[verifier::external_body]
fn zstd_compress(data: &[u8]) -> (r: Option<Vec<u8>>)
    ensures
        r is Some,
        r matches Some(v) ==> v@ == zstd_compressed(data@),
{
    zstd::bulk::compress(data, 7).ok()
}

/// Relies on `flate2::write::GzEncoder` at the fast level: the member
/// depends on the input bytes alone (its header carries no time stamp), and
/// writing into a `Vec` does not fail.
#[verifier::external_body]
fn gzip_compress(data: &[u8]) -> (r: Option<Vec<u8>>)
    ensures
        r is Some,
        r matches Some(v) ==> v@ == gzip_compressed(data@),
{
    let mut enc = flate2::write::GzEncoder::new(Vec::new(), flate2::Compression::fast());
    std::io::Write::write_all(&mut enc, data).ok()?;
    enc.finish().ok()
}

/// Relies on `flate2::write::DeflateEncoder` at the fast level: the stream
/// depends on the input bytes alone, and writing into a `Vec` does not fail.
#[verifier::external_body]
fn deflate_compress(data: &[u8]) -> (r: Option<Vec<u8>>)
    ensures
        r is Some,
        r matches Some(v) ==> v@ == deflate_compressed(data@),
{
    let mut enc = flate2::write::DeflateEncoder::new(Vec::new(), flate2::Compression::fast());
    std::io::Write::write_all(&mut enc, data).ok()?;
    enc.finish().ok()
}

/// Relies on `flate2::read::GzDecoder`: reading a complete in-memory stream
/// to its end gives the decoded bytes, or an error when it is malformed.
#[verifier::external_body]
fn gzip_decompress(data: &[u8]) -> (r: Option<Vec<u8>>)
    ensures
        opt_view(r) == gzip_decompressed(data@),
{
    let mut out = Vec::new();
    std::io::Read::read_to_end(&mut flate2::read::GzDecoder::new(data), &mut out).ok().map(|_| out)
}

/// Relies on `flate2::read::DeflateDecoder`, as for gzip.
#[verifier::external_body]
fn deflate_decompress(data: &[u8]) -> (r: Option<Vec<u8>>)
    ensures
        opt_view(r) == deflate_decompressed(data@),
{
    let mut out = Vec::new();
    let mut reader = flate2::read::DeflateDecoder::new(data);
    std::io::Read::read_to_end(&mut reader, &mut out).ok().map(|_| out)
}

/// Relies on `brotli::Decompressor`, as for gzip.
#[verifier::external_body]
fn brotli_decompress(data: &[u8]) -> (r: Option<Vec<u8>>)
    ensures
        opt_view(r) == brotli_decompressed(data@),
{
    let mut out = Vec::new();
    let mut reader = brotli::Decompressor::new(data, data.len());
    std::io::Read::read_to_end(&mut reader, &mut out).ok().map(|_| out)
}

/// The codec that a trimmed token names, if any.
pub fn codec_of_exec(token: &[u8]) -> (r: Option<Codec>)
    ensures
        r == codec_of(token@),
{
    let br = Codec::Brotli.token_exec();
    let zs = Codec::Zstd.token_exec();
    let gz = Codec::Gzip.token_exec();
    let df = Codec::Deflate.token_exec();
    if bytes_eq(token, br.as_slice()) {
        Some(Codec::Brotli)
    } else if bytes_eq(token, zs.as_slice()) {
        Some(Codec::Zstd)
    } else if bytes_eq(token, gz.as_slice()) {
        Some(Codec::Gzip)
    } else if bytes_eq(token, df.as_slice()) {
        Some(Codec::Deflate)
    } else {
        None
    }
}

fn contains_codec(list: &Vec<Codec>, c: Codec) -> (r: bool)
    ensures
        r == list@.contains(c),
{
    let mut i: usize = 0;
    while i < list.len()
        invariant
            i <= list.len(),
            forall|k: int| 0 <= k < i ==> list@[k] != c,
        decreases list.len() - i,
    {
        if list[i] == c {
            return true;
        }
        i = i + 1;
    }
    false
}

/// The candidate codecs for an `Accept-Encoding` value.
pub fn candidate_codecs(header: &[u8]) -> (r: Vec<Codec>)
    ensures
        r@ == candidates(header@),
        r@.len() >= 1,
{
    let tokens = split_exec(header, 44u8);
    let ghost toks = split(header@, 44u8);
    let mut list: Vec<Codec> = Vec::new();
    let mut i: usize = 0;
    while i < tokens.len()
        invariant
            i <= tokens.len(),
            views(tokens@) == toks,
            list@ == codecs_in(toks.subrange(0, i as int)),
        decreases tokens.len() - i,
    {
        let t = &tokens[i];
        let (a, b) = trim_bounds(t.as_slice());
        let c = codec_of_exec(&t.as_slice()[a..b]);
        assert(t@ == toks[i as int]);
        assert(toks.subrange(0, i + 1).drop_last() =~= toks.subrange(0, i as int));
        match c {
            Some(k) => {
                if !contains_codec(&list, k) {
                    list.push(k);
                }
            },
            None => {},
        }
        i = i + 1;
    }
    assert(toks.subrange(0, toks.len() as int) =~= toks);
    if !contains_codec(&list, Codec::Brotli) {
        list.push(Codec::Brotli);
    } else {
        assert(list@.len() > 0);
    }
    list
}

/// Index of the first of the shortest outputs.
pub fn pick_smallest(outs: &Vec<Vec<u8>>) -> (r: usize)
    requires
        outs@.len() > 0,
    ensures
        r == smallest(views(outs@)),
        r < outs@.len(),
{
    let mut best: usize = 0;
    let mut i: usize = 1;
    while i < outs.len()
        invariant
            1 <= i <= outs.len(),
            best < i,
            best == smallest(views(outs@.subrange(0, i as int))),
        decreases outs.len() - i,
    {
        let ghost pre = views(outs@.subrange(0, i as int));
        assert(views(outs@.subrange(0, i + 1)).drop_last() =~= pre);
        if outs[i].len() < outs[best].len() {
            best = i;
        }
        i = i + 1;
    }
    assert(outs@.subrange(0, outs@.len() as int) =~= outs@);
    best
}

/// Compresses `data` with one codec.
pub fn compress_with(codec: Codec, data: &[u8]) -> (r: Option<Vec<u8>>)
    ensures
        r matches Some(v) && v@ == codec.output(data@),
{
    match codec {
        Codec::Brotli => brotli_compress(data),
        Codec::Zstd => zstd_compress(data),
        Codec::Gzip => gzip_compress(data),
        Codec::Deflate => deflate_compress(data),
    }
}

/// Compresses `body` with every candidate codec that `compression_type`
/// (an `Accept-Encoding` value) admits and keeps the shortest result;
/// `compression_type` is replaced by the winning codec's name. Brotli is
/// always a candidate, so this always succeeds.
pub fn compress_body(body: &[u8], compression_type: &mut String) -> (r: Result<Vec<u8>, ProxyError>)
    ensures
        ({
            let c = negotiated(body@, encode_utf8(old(compression_type)@));
            &&& r matches Ok(v) && v@ == c.output(body@)
            &&& final(compression_type)@ == c.label()
        }),
{
    let header = compression_type.as_str().as_bytes();
    assert(header@ == encode_utf8(compression_type@));
    let cands = candidate_codecs(header);
    let ghost cs = cands@;
    let mut outs: Vec<Vec<u8>> = Vec::new();
    let mut i: usize = 0;
    while i < cands.len()
        invariant
            i <= cands.len(),
            cands@ == cs,
            outs@.len() == i,
            views(outs@) == outputs(cs.subrange(0, i as int), body@),
        decreases cands.len() - i,
    {
        let c = cands[i];
        match compress_with(c, body) {
            Some(v) => {
                let ghost before = outs@;
                outs.push(v);
                assert(outs@[i as int]@ == cs[i as int].output(body@));
                assert(views(before) == outputs(cs.subrange(0, i as int), body@));
                assert forall|k: int| 0 <= k < i implies outs@[k]@ == cs[k].output(body@) by {
                    assert(views(before)[k] == outputs(cs.subrange(0, i as int), body@)[k]);
                }
            },
            None => {
                return Err(ProxyError::Compression);
            },
        }
        i = i + 1;
        assert(views(outs@) =~= outputs(cs.subrange(0, i as int), body@));
    }
    assert(cs.subrange(0, cs.len() as int) =~= cs);
    let best = pick_smallest(&outs);
    *compression_type = cands[best].label_exec();
    assert(views(outs@) == outputs(cs, body@));
    assert(views(outs@)[best as int] == outs@[best as int]@);
    let chosen = outs.swap_remove(best);
    Ok(chosen)
}

proof fn lemma_smallest(outs: Seq<Seq<u8>>)
    requires
        outs.len() > 0,
    ensures
        0 <= smallest(outs) < outs.len(),
        forall|k: int| 0 <= k < outs.len() ==> outs[smallest(outs)].len() <= (#[trigger] outs[k]).len(),
        forall|k: int| 0 <= k < smallest(outs) ==> outs[smallest(outs)].len() < (#[trigger] outs[k]).len(),
    decreases outs.len(),
{
    if outs.len() > 1 {
        let front = outs.drop_last();
        lemma_smallest(front);
        assert forall|k: int| 0 <= k < front.len() implies front[k] == outs[k] by {}
    }
}

/// The codec that negotiation picks is one of the candidates, brotli is
/// always a candidate, no candidate gives a shorter output, and every
/// candidate listed before the winner gives a strictly longer one.
pub proof fn lemma_negotiation(body: Seq<u8>, header: Seq<u8>)
    ensures
        candidates(header).contains(negotiated(body, header)),
        candidates(header).contains(Codec::Brotli),
        forall|k: int|
            0 <= k < candidates(header).len() ==> negotiated(body, header).output(body).len()
                <= (#[trigger] candidates(header)[k]).output(body).len(),
        exists|w: int|
            0 <= w < candidates(header).len() && candidates(header)[w] == negotiated(body, header)
                && forall|k: int|
                0 <= k < w ==> negotiated(body, header).output(body).len() < (
                #[trigger] candidates(header)[k]).output(body).len(),
{
    let cands = candidates(header);
    let c = codecs_in(split(header, 44u8));
    if !c.contains(Codec::Brotli) {
        assert(cands[cands.len() - 1] == Codec::Brotli);
    }
    let outs = outputs(cands, body);
    lemma_smallest(outs);
    let w = smallest(outs);
    assert forall|k: int| 0 <= k < cands.len() implies outs[k] == (
    #[trigger] cands[k]).output(body) by {}
    assert(cands[w] == negotiated(body, header));
}

/// What an upstream body declared with `Content-Encoding: encoding` decodes
/// to: gzip, deflate and brotli are undone, any other value leaves the body
/// as it is; `None` when the body is not a valid stream of its codec.
pub open spec fn content_decoded(encoding: Seq<u8>, body: Seq<u8>) -> Option<Seq<u8>> {
    if encoding == Codec::Gzip.token() {
        gzip_decompressed(body)
    } else if encoding == Codec::Deflate.token() {
        deflate_decompressed(body)
    } else if encoding == Codec::Brotli.token() {
        brotli_decompressed(body)
    } else {
        Some(body)
    }
}

/// Undoes the content encoding of an upstream body.
pub fn decode_content(encoding: &[u8], body: &[u8]) -> (r: Result<Vec<u8>, ProxyError>)
    ensures
        match content_decoded(encoding@, body@) {
            Some(d) => r matches Ok(v) && v@ == d,
            None => r == Err::<Vec<u8>, ProxyError>(ProxyError::Decompression),
        },
{
    let gz = Codec::Gzip.token_exec();
    let df = Codec::Deflate.token_exec();
    let br = Codec::Brotli.token_exec();
    let decoded = if bytes_eq(encoding, gz.as_slice()) {
        gzip_decompress(body)
    } else if bytes_eq(encoding, df.as_slice()) {
        deflate_decompress(body)
    } else if bytes_eq(encoding, br.as_slice()) {
        brotli_decompress(body)
    } else {
        Some(crate::bytestr::to_vec(body))
    };
    match decoded {
        Some(v) => Ok(v),
        None => Err(ProxyError::Decompression),
    }
}

} // verus!
