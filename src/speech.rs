//! The speech-synthesis client: the connection URL, the two frames sent
//! per call, the parsing of the audio that comes back, and the split of a
//! long text into partitions whose audio is joined in index order.
use vstd::prelude::*;
use vstd::string::StringSliceAdditionalSpecFns;

use crate::urls::{url_host, url_host_of, url_port, url_port_of, url_scheme, url_scheme_of};
use vstd::utf8::encode_utf8;
use crate::bytestr::{
    after_first, contains, contains_exec, occurs_at, occurs_at_exec, push_all,
    replace_all, replace_all_exec, split_first, to_vec,
};

verus! {

/// The synthesis endpoint.
pub const ENDPOINT: &'static str = "wss://speech.platform.bing.com/consumer/speech/synthesize/readaloud/edge/v1";
pub const CLIENT_TOKEN_QUERY: &'static str = "?TrustedClientToken=6A5AA1D4EAFF4E9FB37E23D68491D6F4";
pub const CONNECTION_ID_QUERY: &'static str = "&X-ConnectionId=";
/// The `Origin` header of the upgrade request.
pub const ORIGIN: &'static str = "chrome-extension://jdiccldimpdaibmpdkjnbmckianbfold";
/// The browser identity sent on outbound connections.
pub const BROWSER_UA: &'static str = "Mozilla/5.0 (Macintosh; Intel Mac OS X 10_15_7) AppleWebKit/537.36 (KHTML, like Gecko) Chrome/143.0.0.0 Safari/537.36";

pub const CONFIG_HEAD: &'static str = "X-Timestamp: ";
pub const CONFIG_TAIL: &'static str = "\r\nContent-Type: application/json; charset=utf-8\r\nPath: speech.config\r\n\r\n";
/// The output format: 24 kHz, 48 kbit/s mono MP3, no boundary metadata.
pub const CONFIG_PAYLOAD: &'static str = r##"{"context":{"synthesis":{"audio":{"metadataoptions":{"sentenceBoundaryEnabled":"false","wordBoundaryEnabled":"false"},"outputFormat":"audio-24khz-48kbitrate-mono-mp3"}}}}"##;
pub const SSML_HEAD: &'static str = "X-RequestId:";
pub const SSML_MID: &'static str = "\r\nContent-Type:application/ssml+xml\r\nX-Timestamp:";
pub const SSML_TAIL: &'static str = "\r\nPath:ssml\r\n\r\n";
/// Ends the sub-header of a binary audio frame.
pub const AUDIO_MARK: &'static str = "Path:audio\r\n";
/// Marks the text frame that ends the stream.
pub const TURN_END: &'static str = "Path:turn.end";

/// SSML around each partition of a text.
pub const SSML_OPEN: &'static str = r##"<speak version="1.0" xmlns="http://www.w3.org/2001/10/synthesis" xmlns:mstts="https://www.w3.org/2001/mstts" xml:lang="zh-CN"> <voice name="zh-CN-XiaoxiaoNeural"> <prosody rate="+50.00%">"##;
pub const SSML_CLOSE: &'static str = "</prosody> </voice> </speak>";
pub const PARAGRAPH_OPEN: &'static str = "<p>";
pub const PARAGRAPH_CLOSE: &'static str = "</p>";
/// Number of partitions a long text is split into.
pub const PARTS: usize = 10;

// ---------------------------------------------------------------------
// Correlation identifier

/// A lower-case hexadecimal digit.
pub open spec fn is_lower_hex(b: u8) -> bool {
    (48 <= b && b <= 57) || (97 <= b && b <= 102)
}

/// An upper-case hexadecimal digit.
pub open spec fn is_upper_hex(b: u8) -> bool {
    (48 <= b && b <= 57) || (65 <= b && b <= 70)
}

/// Relies on `uuid::Uuid::new_v4` and its simple format: 32 lower-case
/// hexadecimal digits. The value is random.
#[verifier::external_body]
fn random_uuid() -> (r: Vec<u8>)
    ensures
        r@.len() == 32,
        forall|i: int| 0 <= i < 32 ==> is_lower_hex(#[trigger] r@[i]),
{
    uuid::Uuid::new_v4().as_simple().to_string().into_bytes()
}

/// Upper-case of an ASCII byte.
pub open spec fn upper(b: u8) -> u8 {
    if 97 <= b && b <= 122 {
        (b - 32) as u8
    } else {
        b
    }
}

/// Upper-case copy of an ASCII byte string.
pub fn upper_exec(s: &[u8]) -> (r: Vec<u8>)
    ensures
        r@ == s@.map_values(|b: u8| upper(b)),
{
    let mut out: Vec<u8> = Vec::new();
    let mut i: usize = 0;
    while i < s.len()
        invariant
            i <= s.len(),
            out@ == s@.subrange(0, i as int).map_values(|b: u8| upper(b)),
        decreases s.len() - i,
    {
        let b = s[i];
        out.push(if 97 <= b && b <= 122 { b - 32 } else { b });
        i = i + 1;
        assert(out@ =~= s@.subrange(0, i as int).map_values(|b: u8| upper(b)));
    }
    assert(s@.subrange(0, s@.len() as int) =~= s@);
    out
}

/// A fresh correlation identifier: 32 upper-case hexadecimal digits.
pub fn new_request_id() -> (r: Vec<u8>)
    ensures
        r@.len() == 32,
        forall|i: int| 0 <= i < 32 ==> is_upper_hex(#[trigger] r@[i]),
{
    let id = random_uuid();
    let r = upper_exec(id.as_slice());
    assert forall|i: int| 0 <= i < 32 implies is_upper_hex(#[trigger] r@[i]) by {
        assert(is_lower_hex(id@[i]));
    }
    r
}

// ---------------------------------------------------------------------
// Time stamps

/// A UTC instant to the millisecond, as calendar fields.
#[derive(Debug, Clone, Copy, PartialEq, Eq, Structural)]
pub struct Timestamp {
    pub year: i32,
    pub month: u8,
    pub day: u8,
    pub hour: u8,
    pub minute: u8,
    pub second: u8,
    pub millisecond: u16,
}

impl Timestamp {
    /// Each field lies in its calendar range.
    pub open spec fn wf(self) -> bool {
        &&& -9999 <= self.year <= 9999
        &&& 1 <= self.month <= 12
        &&& 1 <= self.day <= 31
        &&& self.hour < 24
        &&& self.minute < 60
        &&& self.second < 60
        &&& self.millisecond < 1000
    }
}

/// Relies on `time::OffsetDateTime::now_utc` and its field getters, whose
/// documented ranges (years within ±9999 without the `large-dates`
/// feature) make the result well formed. The value is the clock's.
#[verifier::external_body]
pub(crate) fn now_utc() -> (r: Timestamp)
    ensures
        r.wf(),
{
    let t = time::OffsetDateTime::now_utc();
    Timestamp {
        year: t.year(),
        month: t.month() as u8,
        day: t.day(),
        hour: t.hour(),
        minute: t.minute(),
        second: t.second(),
        millisecond: t.millisecond(),
    }
}

/// The current UTC time in the protocol's text form.
pub fn timestamp_now() -> (r: Vec<u8>)
    ensures
        exists|t: Timestamp| t.wf() && r@ == timestamp_text(t),
{
    let t = now_utc();
    timestamp_bytes(&t)
}

/// The ASCII digit for `n` in `0..10`.
pub open spec fn digit(n: int) -> u8 {
    (48 + n) as u8
}

pub open spec fn pad2(n: int) -> Seq<u8> {
    seq![digit(n / 10), digit(n % 10)]
}

pub open spec fn pad3(n: int) -> Seq<u8> {
    seq![digit(n / 100), digit((n / 10) % 10), digit(n % 10)]
}

pub open spec fn pad4(n: int) -> Seq<u8> {
    seq![digit(n / 1000), digit((n / 100) % 10), digit((n / 10) % 10), digit(n % 10)]
}

/// A year in four digits, with a minus sign when it is negative.
pub open spec fn year_text(y: int) -> Seq<u8> {
    if y < 0 {
        seq![45u8] + pad4(-y)
    } else {
        pad4(y)
    }
}

/// `YYYY-MM-DDTHH:MM:SS.mmmZ`
pub open spec fn timestamp_text(t: Timestamp) -> Seq<u8> {
    year_text(t.year as int) + seq![45u8] + pad2(t.month as int) + seq![45u8] + pad2(t.day as int)
        + seq![84u8] + pad2(t.hour as int) + seq![58u8] + pad2(t.minute as int) + seq![58u8]
        + pad2(t.second as int) + seq![46u8] + pad3(t.millisecond as int) + seq![90u8]
}

fn push_pad2(out: &mut Vec<u8>, n: u8)
    requires
        n < 100,
    ensures
        final(out)@ == old(out)@ + pad2(n as int),
{
    let ghost start = out@;
    out.push(48 + n / 10);
    out.push(48 + n % 10);
    assert(out@ =~= start + pad2(n as int));
}

fn push_pad3(out: &mut Vec<u8>, n: u16)
    requires
        n < 1000,
    ensures
        final(out)@ == old(out)@ + pad3(n as int),
{
    let ghost start = out@;
    out.push(48 + (n / 100) as u8);
    out.push(48 + ((n / 10) % 10) as u8);
    out.push(48 + (n % 10) as u8);
    assert(out@ =~= start + pad3(n as int));
}

fn push_pad4(out: &mut Vec<u8>, n: u32)
    requires
        n < 10000,
    ensures
        final(out)@ == old(out)@ + pad4(n as int),
{
    let ghost start = out@;
    out.push(48 + (n / 1000) as u8);
    out.push(48 + ((n / 100) % 10) as u8);
    out.push(48 + ((n / 10) % 10) as u8);
    out.push(48 + (n % 10) as u8);
    assert(out@ =~= start + pad4(n as int));
}

/// The text form of a time stamp, as the synthesis protocol writes it.
pub fn timestamp_bytes(t: &Timestamp) -> (r: Vec<u8>)
    requires
        t.wf(),
    ensures
        r@ == timestamp_text(*t),
{
    let mut out: Vec<u8> = Vec::new();
    if t.year < 0 {
        out.push(45);
        push_pad4(&mut out, (-t.year) as u32);
    } else {
        push_pad4(&mut out, t.year as u32);
    }
    assert(out@ =~= year_text(t.year as int));
    out.push(45);
    push_pad2(&mut out, t.month);
    out.push(45);
    push_pad2(&mut out, t.day);
    out.push(84);
    push_pad2(&mut out, t.hour);
    out.push(58);
    push_pad2(&mut out, t.minute);
    out.push(58);
    push_pad2(&mut out, t.second);
    out.push(46);
    push_pad3(&mut out, t.millisecond);
    out.push(90);
    assert(out@ =~= timestamp_text(*t));
    out
}

// ---------------------------------------------------------------------
// Frames

/// The URL of a synthesis connection with the given identifier.
pub open spec fn connection_url(id: Seq<u8>) -> Seq<u8> {
    ENDPOINT.spec_bytes() + CLIENT_TOKEN_QUERY.spec_bytes() + CONNECTION_ID_QUERY.spec_bytes() + id
}

/// The control frame that declares the output format.
pub open spec fn config_frame(ts: Seq<u8>) -> Seq<u8> {
    CONFIG_HEAD.spec_bytes() + ts + CONFIG_TAIL.spec_bytes() + CONFIG_PAYLOAD.spec_bytes()
}

/// The data frame that carries an SSML document.
pub open spec fn ssml_frame(id: Seq<u8>, ts: Seq<u8>, ssml: Seq<u8>) -> Seq<u8> {
    SSML_HEAD.spec_bytes() + id + SSML_MID.spec_bytes() + ts + SSML_TAIL.spec_bytes() + ssml
}

/// The URL of a synthesis connection.
pub fn synthesis_url(id: &[u8]) -> (r: Vec<u8>)
    ensures
        r@ == connection_url(id@),
{
    let mut out = to_vec(ENDPOINT.as_bytes());
    push_all(&mut out, CLIENT_TOKEN_QUERY.as_bytes());
    push_all(&mut out, CONNECTION_ID_QUERY.as_bytes());
    push_all(&mut out, id);
    out
}

/// The control frame, stamped `ts`.
pub fn speech_config_message(ts: &[u8]) -> (r: Vec<u8>)
    ensures
        r@ == config_frame(ts@),
{
    let mut out = to_vec(CONFIG_HEAD.as_bytes());
    push_all(&mut out, ts);
    push_all(&mut out, CONFIG_TAIL.as_bytes());
    push_all(&mut out, CONFIG_PAYLOAD.as_bytes());
    out
}

/// The data frame for `ssml`, with identifier `id`, stamped `ts`.
pub fn ssml_message(id: &[u8], ts: &[u8], ssml: &[u8]) -> (r: Vec<u8>)
    ensures
        r@ == ssml_frame(id@, ts@, ssml@),
{
    let mut out = to_vec(SSML_HEAD.as_bytes());
    push_all(&mut out, id);
    push_all(&mut out, SSML_MID.as_bytes());
    push_all(&mut out, ts);
    push_all(&mut out, SSML_TAIL.as_bytes());
    push_all(&mut out, ssml);
    out
}

/// The audio that a binary frame carries: what follows the first audio
/// marker, or nothing when there is no marker.
pub open spec fn frame_audio(frame: Seq<u8>) -> Seq<u8> {
    after_first(frame, AUDIO_MARK.spec_bytes())
}

/// A text frame that ends the stream.
pub open spec fn is_turn_end(text: Seq<u8>) -> bool {
    contains(text, TURN_END.spec_bytes())
}

/// One read from a synthesis connection.
pub enum Frame {
    /// A binary frame: a sub-header, the audio marker, then audio.
    Binary(Vec<u8>),
    /// A text frame: an out-of-band signal.
    Text(String),
    /// A ping, pong or other control frame.
    Control,
    /// The read failed.
    Failed,
    /// The connection ended.
    Closed,
}

/// What a frame does to a call in progress: `Ok(true)` ends the stream,
/// `Ok(false)` reads on, an error fails the call.
pub open spec fn frame_outcome(frame: Frame) -> Result<bool, crate::error::ProxyError> {
    match frame {
        Frame::Binary(b) => if contains(b@, AUDIO_MARK.spec_bytes()) {
            Ok(false)
        } else {
            Err(crate::error::ProxyError::Protocol)
        },
        Frame::Text(t) => Ok(is_turn_end(encode_utf8(t@))),
        Frame::Control => Ok(false),
        Frame::Failed => Err(crate::error::ProxyError::Transport),
        Frame::Closed => Err(crate::error::ProxyError::Transport),
    }
}

/// Audio gathered from the frames of one synthesis call.
pub struct AudioCollector {
    audio: Vec<u8>,
}

impl AudioCollector {
    /// The audio gathered so far.
    pub closed spec fn view(&self) -> Seq<u8> {
        self.audio@
    }

    /// A collector with no audio yet.
    pub fn new() -> (r: AudioCollector)
        ensures
            r.view() == Seq::<u8>::empty(),
    {
        AudioCollector { audio: Vec::new() }
    }

    /// Takes in the next read of the connection. A binary frame adds what
    /// follows its audio marker; a frame without the marker, a failed read
    /// and a closed connection fail the call.
    pub fn on_frame(&mut self, frame: Frame) -> (r: Result<bool, crate::error::ProxyError>)
        ensures
            r == frame_outcome(frame),
            final(self).view() == match frame {
                Frame::Binary(b) => if contains(b@, AUDIO_MARK.spec_bytes()) {
                    old(self).view() + frame_audio(b@)
                } else {
                    old(self).view()
                },
                _ => old(self).view(),
            },
    {
        match frame {
            Frame::Binary(b) => {
                if !contains_exec(b.as_slice(), AUDIO_MARK.as_bytes()) {
                    return Err(crate::error::ProxyError::Protocol);
                }
                let (_, tail) = split_first(b.as_slice(), AUDIO_MARK.as_bytes());
                push_all(&mut self.audio, tail.as_slice());
                Ok(false)
            },
            Frame::Text(t) => Ok(contains_exec(t.as_str().as_bytes(), TURN_END.as_bytes())),
            Frame::Control => Ok(false),
            Frame::Failed => Err(crate::error::ProxyError::Transport),
            Frame::Closed => Err(crate::error::ProxyError::Transport),
        }
    }

    /// The audio of a call whose stream has ended; a call that failed is
    /// dropped with what it had gathered.
    pub fn finish(self) -> (r: Vec<u8>)
        ensures
            r@ == self.view(),
    {
        self.audio
    }
}

// ---------------------------------------------------------------------
// Partitions

/// The pieces of `s[start..]` between occurrences of `pat`, scanning from
/// `i`; there is always one more piece than there are separators.
pub open spec fn split_from(s: Seq<u8>, pat: Seq<u8>, start: int, i: int) -> Seq<Seq<u8>>
    decreases s.len() - i,
{
    if pat.len() == 0 || i < start || i + pat.len() > s.len() {
        seq![s.subrange(start, s.len() as int)]
    } else if occurs_at(s, pat, i) {
        seq![s.subrange(start, i)] + split_from(s, pat, i + pat.len(), i + pat.len())
    } else {
        split_from(s, pat, start, i + 1)
    }
}

/// The pieces of `s` between occurrences of `pat`.
pub open spec fn split_all(s: Seq<u8>, pat: Seq<u8>) -> Seq<Seq<u8>> {
    split_from(s, pat, 0, 0)
}

/// The concatenation of a sequence of byte strings.
pub open spec fn concat_all(s: Seq<Seq<u8>>) -> Seq<u8>
    decreases s.len(),
{
    if s.len() == 0 {
        Seq::empty()
    } else {
        concat_all(s.drop_last()) + s.last()
    }
}

/// The paragraphs of an extracted text: closing tags removed, split at
/// each opening tag.
pub open spec fn paragraphs(text: Seq<u8>) -> Seq<Seq<u8>> {
    split_all(replace_all(text, PARAGRAPH_CLOSE.spec_bytes(), Seq::empty()), PARAGRAPH_OPEN.spec_bytes())
}

/// Paragraph bounds of partition `i` of `n` paragraphs: equal shares of
/// `n / PARTS`, the last taking the rest.
pub open spec fn part_lo(n: int, i: int) -> int {
    i * (n / PARTS as int)
}

pub open spec fn part_hi(n: int, i: int) -> int {
    if i == PARTS - 1 {
        n
    } else {
        (i + 1) * (n / PARTS as int)
    }
}

/// The SSML document for partition `i` of the paragraphs `ps`.
pub open spec fn ssml_part(ps: Seq<Seq<u8>>, i: int) -> Seq<u8> {
    SSML_OPEN.spec_bytes() + concat_all(ps.subrange(part_lo(ps.len() as int, i), part_hi(ps.len() as int, i)))
        + SSML_CLOSE.spec_bytes()
}

/// The SSML documents for the partitions of `text`, in order.
pub open spec fn ssml_parts(text: Seq<u8>) -> Seq<Seq<u8>> {
    Seq::new(PARTS as nat, |i: int| ssml_part(paragraphs(text), i))
}

/// The pieces of `s` between occurrences of `pat`.
pub fn split_all_exec(s: &[u8], pat: &[u8]) -> (r: Vec<Vec<u8>>)
    ensures
        crate::bytestr::views(r@) == split_all(s@, pat@),
{
    let mut pieces: Vec<Vec<u8>> = Vec::new();
    let mut start: usize = 0;
    let mut i: usize = 0;
    if pat.len() == 0 {
        pieces.push(to_vec(s));
        assert(s@.subrange(0, s@.len() as int) =~= s@);
        assert(crate::bytestr::views(pieces@) =~= seq![s@]);
        return pieces;
    }
    while pat.len() <= s.len() - i
        invariant
            pat@.len() > 0,
            start <= i <= s.len(),
            crate::bytestr::views(pieces@) + split_from(s@, pat@, start as int, i as int) == split_all(s@, pat@),
        decreases s.len() - i,
    {
        if occurs_at_exec(s, pat, i) {
            let ghost before = crate::bytestr::views(pieces@);
            pieces.push(to_vec(&s[start..i]));
            assert(crate::bytestr::views(pieces@) =~= before.push(s@.subrange(start as int, i as int)));
            i = i + pat.len();
            start = i;
            assert(crate::bytestr::views(pieces@) + split_from(s@, pat@, start as int, i as int) =~= split_all(s@, pat@));
        } else {
            i = i + 1;
        }
    }
    let ghost before = crate::bytestr::views(pieces@);
    pieces.push(to_vec(&s[start..s.len()]));
    assert(crate::bytestr::views(pieces@) =~= before + seq![s@.subrange(start as int, s@.len() as int)]);
    pieces
}

proof fn lemma_part_bounds(n: int, i: int)
    requires
        0 <= n,
        0 <= i < PARTS,
    ensures
        0 <= part_lo(n, i) <= part_hi(n, i) <= n,
        i + 1 < PARTS ==> part_hi(n, i) <= n - n / PARTS as int,
{
    let size = n / PARTS as int;
    assert(0 <= size && size * 10 <= n) by (nonlinear_arith)
        requires
            size == n / 10,
            n >= 0,
    ;
    assert(0 <= i * size <= (i + 1) * size <= 10 * size) by (nonlinear_arith)
        requires
            0 <= i < 10,
            size >= 0,
    ;
    if i + 1 < PARTS {
        assert((i + 1) * size <= 9 * size) by (nonlinear_arith)
            requires
                i + 1 <= 9,
                size >= 0,
        ;
    }
}

/// The SSML documents for a text to be read aloud: its paragraphs in
/// `PARTS` partitions, each wrapped in the voice and prosody settings.
pub fn listen_payloads(text: &str) -> (r: Vec<Vec<u8>>)
    ensures
        crate::bytestr::views(r@) == ssml_parts(text.spec_bytes()),
{
    let empty: Vec<u8> = Vec::new();
    let cleaned = replace_all_exec(text.as_bytes(), PARAGRAPH_CLOSE.as_bytes(), empty.as_slice());
    let lines = split_all_exec(cleaned.as_slice(), PARAGRAPH_OPEN.as_bytes());
    let ghost ps = paragraphs(text.spec_bytes());
    assert(crate::bytestr::views(lines@) == ps);
    let n = lines.len();
    let size = n / PARTS;
    let mut out: Vec<Vec<u8>> = Vec::new();
    let mut i: usize = 0;
    while i < PARTS
        invariant
            i <= PARTS,
            n == lines@.len(),
            size == n / PARTS,
            ps == paragraphs(text.spec_bytes()),
            crate::bytestr::views(lines@) == ps,
            crate::bytestr::views(out@) == ssml_parts(text.spec_bytes()).subrange(0, i as int),
        decreases PARTS - i,
    {
        proof {
            lemma_part_bounds(n as int, i as int);
        }
        let lo = i * size;
        let hi = if i == PARTS - 1 {
            n
        } else {
            (i + 1) * size
        };
        assert(lo == part_lo(n as int, i as int) && hi == part_hi(n as int, i as int));
        let mut buf = to_vec(SSML_OPEN.as_bytes());
        let mut j: usize = lo;
        while j < hi
            invariant
                lo <= j <= hi <= n,
                n == lines@.len(),
                crate::bytestr::views(lines@) == ps,
                buf@ == SSML_OPEN.spec_bytes() + concat_all(ps.subrange(lo as int, j as int)),
            decreases hi - j,
        {
            assert(ps.subrange(lo as int, j + 1).drop_last() =~= ps.subrange(lo as int, j as int));
            assert(ps[j as int] == lines@[j as int]@);
            push_all(&mut buf, lines[j].as_slice());
            j = j + 1;
            assert(buf@ =~= SSML_OPEN.spec_bytes() + concat_all(ps.subrange(lo as int, j as int)));
        }
        push_all(&mut buf, SSML_CLOSE.as_bytes());
        assert(ps.len() == n);
        assert(j == hi);
        assert(buf@ == ssml_part(ps, i as int));
        assert(buf@ == ssml_parts(text.spec_bytes())[i as int]);
        let ghost before = crate::bytestr::views(out@);
        out.push(buf);
        assert(crate::bytestr::views(out@) =~= before.push(ssml_parts(text.spec_bytes())[i as int]));
        i = i + 1;
        assert(crate::bytestr::views(out@) =~= ssml_parts(text.spec_bytes()).subrange(0, i as int));
    }
    assert(ssml_parts(text.spec_bytes()).subrange(0, PARTS as int) =~= ssml_parts(text.spec_bytes()));
    out
}

// ---------------------------------------------------------------------
// Ordered assembly

/// The audio of each partition, once its call has completed.
pub struct AudioParts {
    pub parts: Vec<Option<Vec<u8>>>,
}

/// The view of the partition slots.
pub open spec fn slot_views(p: Seq<Option<Vec<u8>>>) -> Seq<Option<Seq<u8>>> {
    p.map_values(|o: Option<Vec<u8>>| crate::codec::opt_view(o))
}

/// Every partition has its audio.
pub open spec fn all_filled(p: Seq<Option<Seq<u8>>>) -> bool {
    forall|i: int| 0 <= i < p.len() ==> (#[trigger] p[i]) is Some
}

/// The audio of the slots in index order.
pub open spec fn joined(p: Seq<Option<Seq<u8>>>) -> Seq<u8>
    decreases p.len(),
{
    if p.len() == 0 {
        Seq::empty()
    } else {
        joined(p.drop_last()) + match p.last() {
            Some(a) => a,
            None => Seq::empty(),
        }
    }
}

impl AudioParts {
    pub open spec fn view(&self) -> Seq<Option<Seq<u8>>> {
        slot_views(self.parts@)
    }

    /// `n` empty slots.
    pub fn new(n: usize) -> (r: AudioParts)
        ensures
            r.view() == Seq::new(n as nat, |i: int| None::<Seq<u8>>),
    {
        let mut parts: Vec<Option<Vec<u8>>> = Vec::new();
        let mut i: usize = 0;
        while i < n
            invariant
                i <= n,
                slot_views(parts@) == Seq::new(i as nat, |k: int| None::<Seq<u8>>),
            decreases n - i,
        {
            let ghost before = parts@;
            parts.push(None);
            assert(parts@ =~= before.push(None));
            assert(slot_views(parts@) =~= slot_views(before).push(None));
            i = i + 1;
            assert(slot_views(parts@) =~= Seq::new(i as nat, |k: int| None::<Seq<u8>>));
        }
        AudioParts { parts }
    }

    /// Records the audio of partition `index`, whenever its call completes.
    pub fn fill(&mut self, index: usize, audio: Vec<u8>)
        requires
            index < old(self).view().len(),
        ensures
            final(self).view() == old(self).view().update(index as int, Some(audio@)),
    {
        let ghost before = self.view();
        let ghost a = audio@;
        self.parts.set(index, Some(audio));
        assert(self.view() =~= before.update(index as int, Some(a)));
    }

    /// The audio of all partitions in index order, once every one has
    /// completed; `None` while one is missing.
    pub fn assemble(&self) -> (r: Option<Vec<u8>>)
        ensures
            all_filled(self.view()) ==> (r matches Some(v) && v@ == joined(self.view())),
            !all_filled(self.view()) ==> r is None,
    {
        let mut out: Vec<u8> = Vec::new();
        let mut i: usize = 0;
        while i < self.parts.len()
            invariant
                i <= self.parts@.len(),
                all_filled(self.view().subrange(0, i as int)),
                out@ == joined(self.view().subrange(0, i as int)),
            decreases self.parts.len() - i,
        {
            assert(self.view().subrange(0, i + 1).drop_last() =~= self.view().subrange(0, i as int));
            match &self.parts[i] {
                Some(a) => {
                    push_all(&mut out, a.as_slice());
                },
                None => {
                    assert(self.view()[i as int] is None);
                    return None;
                },
            }
            i = i + 1;
            assert(all_filled(self.view().subrange(0, i as int)));
        }
        assert(self.view().subrange(0, self.parts@.len() as int) =~= self.view());
        Some(out)
    }
}

/// Slots after the calls complete in the order `order`, partition `k`
/// bringing `audio[k]`.
pub open spec fn filled_in_order(
    p: Seq<Option<Seq<u8>>>,
    order: Seq<int>,
    audio: Seq<Seq<u8>>,
) -> Seq<Option<Seq<u8>>>
    decreases order.len(),
{
    if order.len() == 0 {
        p
    } else {
        filled_in_order(p, order.drop_last(), audio).update(order.last(), Some(audio[order.last()]))
    }
}

/// Partition `i` is among those whose call completed in `order`.
pub open spec fn completed(order: Seq<int>, i: int) -> bool {
    exists|k: int| 0 <= k < order.len() && order[k] == i
}

proof fn lemma_filled_slot(p: Seq<Option<Seq<u8>>>, order: Seq<int>, audio: Seq<Seq<u8>>, i: int)
    requires
        forall|k: int| 0 <= k < order.len() ==> 0 <= #[trigger] order[k] < p.len(),
        0 <= i < p.len(),
    ensures
        filled_in_order(p, order, audio).len() == p.len(),
        filled_in_order(p, order, audio)[i] == if completed(order, i) {
            Some(audio[i])
        } else {
            p[i]
        },
    decreases order.len(),
{
    if order.len() > 0 {
        let front = order.drop_last();
        assert forall|k: int| 0 <= k < front.len() implies 0 <= #[trigger] front[k] < p.len() by {
            assert(front[k] == order[k]);
        }
        lemma_filled_slot(p, front, audio, i);
        if order.last() != i {
            if completed(order, i) {
                let k = choose|k: int| 0 <= k < order.len() && order[k] == i;
                assert(k < order.len() - 1);
                assert(front[k] == i);
            }
        } else {
            assert(order[order.len() - 1] == i);
        }
    }
}

proof fn lemma_joined_all(audio: Seq<Seq<u8>>)
    ensures
        joined(Seq::new(audio.len(), |i: int| Some(audio[i]))) == concat_all(audio),
    decreases audio.len(),
{
    if audio.len() > 0 {
        let front = audio.drop_last();
        lemma_joined_all(front);
        assert(Seq::new(audio.len(), |i: int| Some(audio[i])).drop_last() =~= Seq::new(
            front.len(),
            |i: int| Some(front[i]),
        ));
    }
}

/// Whatever the order in which the partition calls complete, once each
/// has completed the slots hold every partition's audio and their
/// assembly is the concatenation of the audio in partition order.
pub proof fn lemma_completion_order_irrelevant(order: Seq<int>, audio: Seq<Seq<u8>>)
    requires
        forall|k: int| 0 <= k < order.len() ==> 0 <= #[trigger] order[k] < audio.len(),
        forall|i: int| 0 <= i < audio.len() ==> #[trigger] completed(order, i),
    ensures
        filled_in_order(Seq::new(audio.len(), |i: int| None::<Seq<u8>>), order, audio) == Seq::new(
            audio.len(),
            |i: int| Some(audio[i]),
        ),
        joined(filled_in_order(Seq::new(audio.len(), |i: int| None::<Seq<u8>>), order, audio))
            == concat_all(audio),
{
    let p = Seq::new(audio.len(), |i: int| None::<Seq<u8>>);
    let f = filled_in_order(p, order, audio);
    assert forall|i: int| 0 <= i < audio.len() implies f[i] == Some(audio[i]) by {
        lemma_filled_slot(p, order, audio, i);
    }
    lemma_filled_slot_len(p, order, audio);
    assert(f =~= Seq::new(audio.len(), |i: int| Some(audio[i])));
    lemma_joined_all(audio);
}

proof fn lemma_filled_slot_len(p: Seq<Option<Seq<u8>>>, order: Seq<int>, audio: Seq<Seq<u8>>)
    requires
        forall|k: int| 0 <= k < order.len() ==> 0 <= #[trigger] order[k] < p.len(),
    ensures
        filled_in_order(p, order, audio).len() == p.len(),
    decreases order.len(),
{
    if order.len() > 0 {
        let front = order.drop_last();
        assert forall|k: int| 0 <= k < front.len() implies 0 <= #[trigger] front[k] < p.len() by {
            assert(front[k] == order[k]);
        }
        lemma_filled_slot_len(p, front, audio);
    }
}

// ---------------------------------------------------------------------
// Connecting

/// The only proxy scheme that synthesis connections go through.
pub const SOCKS5: &'static str = "socks5";
/// The port of a synthesis connection whose URL names none.
pub const DEFAULT_TLS_PORT: u16 = 443;

/// A host and port to connect to.
pub struct Address {
    pub host: String,
    pub port: u16,
}

/// A connection through a SOCKS5 proxy.
pub struct ProxyRoute {
    pub proxy: Address,
    pub target: Address,
}

/// Where a connection to `url` goes: its host, and its port or 443.
pub open spec fn target_of(url: Seq<char>) -> Option<(Seq<char>, u16)> {
    match (url_host_of(url), url_port_of(url)) {
        (Some(Some(h)), Some(p)) => Some(
            (
                h,
                match p {
                    Some(n) => n,
                    None => DEFAULT_TLS_PORT,
                },
            ),
        ),
        _ => None,
    }
}

/// The direct address of a connection to `url`.
pub fn direct_target(url: &str) -> (r: Option<Address>)
    ensures
        match target_of(url@) {
            Some((h, p)) => r matches Some(a) && a.host@ == h && a.port == p,
            None => r is None,
        },
{
    let host = match url_host(url) {
        Some(Some(h)) => h,
        _ => {
            return None;
        },
    };
    let port = match url_port(url) {
        Some(Some(p)) => p,
        Some(None) => DEFAULT_TLS_PORT,
        None => {
            return None;
        },
    };
    Some(Address { host, port })
}

/// A SOCKS5 route for a connection to `target` through the proxy URL
/// `proxy`: only a `socks5` proxy with a host and an explicit port is
/// used; with any other the connection goes direct.
pub fn socks5_route(proxy: &str, target: &str) -> (r: Option<ProxyRoute>)
    ensures
        ({
            let usable = url_scheme_of(proxy@) == Some(SOCKS5@) && (url_host_of(proxy@) matches Some(
                Some(_),
            )) && (url_port_of(proxy@) matches Some(Some(_))) && target_of(target@) is Some;
            if usable {
                r matches Some(route) && Some(Some(route.proxy.host@)) == url_host_of(proxy@) && Some(
                    Some(route.proxy.port),
                ) == url_port_of(proxy@) && target_of(target@) == Some(
                    (route.target.host@, route.target.port),
                )
            } else {
                r is None
            }
        }),
{
    let scheme = match url_scheme(proxy) {
        Some(s) => s,
        None => {
            return None;
        },
    };
    if scheme != SOCKS5.to_owned() {
        return None;
    }
    let host = match url_host(proxy) {
        Some(Some(h)) => h,
        _ => {
            return None;
        },
    };
    let port = match url_port(proxy) {
        Some(Some(p)) => p,
        _ => {
            return None;
        },
    };
    match direct_target(target) {
        Some(t) => Some(ProxyRoute { proxy: Address { host, port }, target: t }),
        None => None,
    }
}

/// The content type of synthesised audio.
pub const AUDIO_MPEG: &'static str = "audio/mpeg";

/// The response that reads a document aloud: the audio of every partition
/// in index order, uncompressed, as `audio/mpeg`; `None` while a partition
/// has no audio.
pub fn audio_response(parts: &AudioParts) -> (r: Option<crate::rewrite::ProxiedResponse>)
    ensures
        all_filled(parts.view()) ==> (r matches Some(p) && p.body@ == joined(parts.view())
            && crate::headers::hviews(p.headers@) == seq![
            (crate::headers::content_type(), AUDIO_MPEG.spec_bytes()),
        ]),
        !all_filled(parts.view()) ==> r is None,
{
    let body = parts.assemble()?;
    let mut headers: Vec<crate::headers::Header> = Vec::new();
    headers.push(
        crate::headers::Header {
            name: crate::headers::content_type_name(),
            value: to_vec(AUDIO_MPEG.as_bytes()),
        },
    );
    assert(crate::headers::hviews(headers@) =~= seq![
        (crate::headers::content_type(), AUDIO_MPEG.spec_bytes()),
    ]);
    Some(crate::rewrite::ProxiedResponse { headers, body })
}

} // verus!
