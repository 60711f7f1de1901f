//! HTTP/3 (RFC 9114), as much of it as one extended CONNECT and the datagrams behind it need.
//!
//! Nothing here touches the network. This is the byte layout of each stream and the rules about
//! what may arrive where.
//!
//! Three kinds of stream are in play. The control streams, one per side, carry SETTINGS first and
//! stay open for the life of the connection. The request stream carries the CONNECT and its
//! response, then stays open as the tunnel's anchor: nothing is written on it after the request.
//! The packets themselves are QUIC datagrams, each tagged with the request stream it belongs to.

use bytes::{Bytes, BytesMut};
use vstd::prelude::*;
use vstd::string::StringExecFns;
use crate::address::shown::{hex_digits, hexadecimal};

pub mod code;
pub mod frame;
pub mod laws;
pub mod setting;
pub mod stream;

use crate::buffer::{
    advance, advance_frozen, as_slice, frozen, frozen_slice, held, put_slice, put_u8,
};
use crate::text::{between, decimal, digits, joined};
use crate::transport::qpack;
use crate::transport::qpack::{
    borrowed_lines, owned_lines, qpack_text, section_bytes, Line, QpackError,
};
use crate::transport::varint;
use crate::transport::varint::{decoded, encoded, encoded_len};

verus! {

/// The largest frame this side will buffer.
///
/// The same reasoning as the capsule ceiling: a length is a number the endpoint writes, and waiting
/// for all of an arbitrary one is memory without a bound. The frames buffered here are SETTINGS,
/// GOAWAY and one response's HEADERS, a few hundred bytes each. Frame types this side does not know
/// are skipped as they arrive rather than buffered, so they are not held to this.
pub const MAX_FRAME: u64 = 65_535;

/// The endpoint breaking a rule of the protocol. Each maps to the code the connection is closed
/// with, so the endpoint's logs say what this side objected to.
#[derive(Debug, Clone, Copy, PartialEq, Eq)]
pub enum H3Error {
    /// The endpoint closed its control stream, which lives as long as the connection.
    ControlClosed,
    /// The endpoint opened a second control stream.
    SecondControl,
    /// A frame declared more bytes than this side buffers.
    FrameTooLong { kind: u64, length: u64 },
    /// A frame arrived on a stream where it has no place.
    Unexpected { kind: u64, stream: &'static str },
    /// A frame whose payload does not parse.
    Malformed(&'static str),
    /// The endpoint's control stream began with something other than SETTINGS.
    MissingSettings,
    /// The endpoint's SETTINGS break a rule.
    Settings(&'static str),
    /// The response header block could not be read.
    Qpack(QpackError),
    /// The response is not one.
    Message(&'static str),
}

/// What is said about the endpoint breaking a rule.
pub open spec fn h3_text(error: H3Error) -> Seq<char> {
    match error {
        H3Error::ControlClosed => {
            "the endpoint closed its control stream, which lives as long as the connection"@
        },
        H3Error::SecondControl => "the endpoint opened a second control stream"@,
        H3Error::FrameTooLong { kind, length } => "a frame of type 0x"@ + hex_digits(kind as nat)
            + " declared "@ + digits(length as nat) + " bytes, more than this side buffers"@,
        H3Error::Unexpected { kind, stream } => "a frame of type 0x"@ + hex_digits(kind as nat)
            + " arrived on the "@ + stream@ + " stream, where it has no place"@,
        H3Error::Malformed(what) => "a "@ + what@ + " frame whose payload does not parse"@,
        H3Error::MissingSettings => {
            "the endpoint's control stream began with something other than SETTINGS"@
        },
        H3Error::Settings(what) => "the endpoint's SETTINGS "@ + what@,
        H3Error::Qpack(error) => "the response header block: "@ + qpack_text(error),
        H3Error::Message(what) => "the response "@ + what@,
    }
}

impl H3Error {
    /// What is said about it.
    pub fn text(&self) -> (text: String)
        ensures
            text@ == h3_text(*self),
    {
        match self {
            H3Error::ControlClosed => String::from_str(
                "the endpoint closed its control stream, which lives as long as the connection",
            ),
            H3Error::SecondControl => String::from_str(
                "the endpoint opened a second control stream",
            ),
            H3Error::FrameTooLong { kind, length } => {
                let kind = hexadecimal(*kind as u128);
                let length = decimal(*length as u128);
                let start = between("a frame of type 0x", kind.as_str(), " declared ");
                between(start.as_str(), length.as_str(), " bytes, more than this side buffers")
            },
            H3Error::Unexpected { kind, stream } => {
                let kind = hexadecimal(*kind as u128);
                let start = between("a frame of type 0x", kind.as_str(), " arrived on the ");
                between(start.as_str(), stream, " stream, where it has no place")
            },
            H3Error::Malformed(what) => between(
                "a ",
                what,
                " frame whose payload does not parse",
            ),
            H3Error::MissingSettings => String::from_str(
                "the endpoint's control stream began with something other than SETTINGS",
            ),
            H3Error::Settings(what) => joined("the endpoint's SETTINGS ", what),
            H3Error::Qpack(error) => {
                let why = error.text();
                joined("the response header block: ", why.as_str())
            },
            H3Error::Message(what) => joined("the response ", what),
        }
    }
}

impl H3Error {
    /// The application error code to close the connection with.
    pub fn code(&self) -> (value: u64)
        ensures
            value == match self {
                H3Error::ControlClosed => code::CLOSED_CRITICAL_STREAM,
                H3Error::SecondControl => code::STREAM_CREATION_ERROR,
                H3Error::FrameTooLong { .. } => code::EXCESSIVE_LOAD,
                H3Error::Unexpected { .. } => code::FRAME_UNEXPECTED,
                H3Error::Malformed(_) => code::FRAME_ERROR,
                H3Error::MissingSettings => code::MISSING_SETTINGS,
                H3Error::Settings(_) => code::SETTINGS_ERROR,
                H3Error::Qpack(_) => code::QPACK_DECOMPRESSION_FAILED,
                H3Error::Message(_) => code::MESSAGE_ERROR,
            },
    {
        match self {
            H3Error::ControlClosed => code::CLOSED_CRITICAL_STREAM,
            H3Error::SecondControl => code::STREAM_CREATION_ERROR,
            H3Error::FrameTooLong { .. } => code::EXCESSIVE_LOAD,
            H3Error::Unexpected { .. } => code::FRAME_UNEXPECTED,
            H3Error::Malformed(_) => code::FRAME_ERROR,
            H3Error::MissingSettings => code::MISSING_SETTINGS,
            H3Error::Settings(_) => code::SETTINGS_ERROR,
            H3Error::Qpack(_) => code::QPACK_DECOMPRESSION_FAILED,
            H3Error::Message(_) => code::MESSAGE_ERROR,
        }
    }
}

/// One whole frame.
#[derive(Debug, PartialEq, Eq)]
pub struct Frame {
    pub kind: u64,
    pub payload: Bytes,
}

// ── frames ──────────────────────────────────────────────────────────────────────────────────────

/// Types with a meaning in RFC 9114, including the reserved HTTP/2 ones.
pub open spec fn is_known_spec(kind: u64) -> bool {
    ||| kind == frame::DATA
    ||| kind == frame::HEADERS
    ||| kind == frame::CANCEL_PUSH
    ||| kind == frame::SETTINGS
    ||| kind == frame::PUSH_PROMISE
    ||| kind == frame::GOAWAY
    ||| kind == frame::MAX_PUSH_ID
    ||| kind == 0x02
    ||| kind == 0x06
    ||| kind == 0x08
    ||| kind == 0x09
}

/// One frame as bytes.
pub open spec fn frame_bytes(kind: u64, payload: Seq<u8>) -> Seq<u8> {
    encoded(kind) + encoded(payload.len() as u64) + payload
}

/// The type and length in front of a frame, and the bytes they take.
pub open spec fn frame_header(bytes: Seq<u8>) -> Option<(u64, u64, int)> {
    match decoded(bytes) {
        None => None,
        Some((kind, kind_len)) => match decoded(bytes.skip(kind_len)) {
            None => None,
            Some((length, length_len)) => Some((kind, length, kind_len + length_len)),
        },
    }
}

/// A stream part of the way through: the bytes kept, and how many of an unknown frame's are still
/// to be discarded.
#[verifier::ext_equal]
pub struct Pending {
    pub kept: Seq<u8>,
    pub skipping: nat,
}

/// What comes next on a stream.
pub enum Next {
    /// Nothing whole yet.
    Partial,
    /// A known frame that is not waited for.
    TooLong(u64, u64),
    /// A whole frame of a known type.
    Whole(u64, Seq<u8>),
}

/// A stream with what it can discard discarded.
pub open spec fn discarded(stream: Pending) -> Pending {
    let skip = if stream.kept.len() <= stream.skipping {
        stream.kept.len()
    } else {
        stream.skipping
    };
    Pending { kept: stream.kept.skip(skip as int), skipping: (stream.skipping - skip) as nat }
}

/// What comes next on a stream, and what is left of it. Frames of unknown types are discarded as
/// they arrive and never seen.
pub open spec fn next(stream: Pending) -> (Next, Pending)
    decreases stream.kept.len(),
{
    let here = discarded(stream);
    if here.skipping > 0 {
        (Next::Partial, here)
    } else {
        match frame_header(here.kept) {
            None => (Next::Partial, here),
            Some((kind, length, header)) => if !is_known_spec(kind) && 0 < header
                <= here.kept.len() {
                next(Pending { kept: here.kept.skip(header), skipping: length as nat })
            } else if length > MAX_FRAME {
                (Next::TooLong(kind, length), here)
            } else if here.kept.len() < header + length {
                (Next::Partial, here)
            } else {
                (
                    Next::Whole(kind, here.kept.subrange(header, header + length)),
                    Pending { kept: here.kept.skip(header + length), skipping: 0 },
                )
            },
        }
    }
}

/// Turns the bytes of one stream into frames, whatever pieces they arrive in.
///
/// Frame types this side does not know (GREASE, extensions) are dropped here, as RFC 9114 §9
/// requires, and are never seen by the caller. Their bytes are discarded as they arrive, so an
/// unknown frame of any length costs nothing to skip.
#[derive(Debug)]
pub struct FrameReader {
    pending: BytesMut,
    /// Bytes of an unknown frame still to come, which are discarded rather than kept.
    skipping: u64,
}

impl View for FrameReader {
    type V = Pending;

    closed spec fn view(&self) -> Pending {
        Pending { kept: held(self.pending), skipping: self.skipping as nat }
    }
}

impl Default for FrameReader {
    fn default() -> (reader: Self)
        ensures
            reader@ == (Pending { kept: Seq::empty(), skipping: 0 }),
    {
        FrameReader::new()
    }
}

pub proof fn lemma_header(bytes: Seq<u8>)
    ensures
        match frame_header(bytes) {
            Some((kind, length, header)) => 2 <= header <= bytes.len() && header <= 16,
            None => true,
        },
{
    if let Some((kind, kind_len)) = decoded(bytes) {
        varint::law_decoding_needs_its_bytes_and_no_more(bytes, Seq::empty());
        varint::law_decoding_needs_its_bytes_and_no_more(bytes.skip(kind_len), Seq::empty());
    }
}

impl FrameReader {
    /// A reader at the start of a stream.
    pub fn new() -> (reader: Self)
        ensures
            reader@ == (Pending { kept: Seq::empty(), skipping: 0 }),
    {
        FrameReader { pending: BytesMut::new(), skipping: 0 }
    }

    /// How many bytes are kept until the frame they belong to is whole.
    pub fn buffered(&self) -> (len: usize)
        ensures
            len == self@.kept.len(),
    {
        self.pending.len()
    }

    /// Add what the stream delivered.
    pub fn extend(&mut self, chunk: &[u8])
        requires
            old(self)@.kept.len() + chunk@.len() <= isize::MAX,
        ensures
            final(self)@ == (Pending { kept: old(self)@.kept + chunk@, ..old(self)@ }),
    {
        self.pending.extend_from_slice(chunk);
    }

    /// The varint at the front, if a whole one has arrived: the type that opens a unidirectional
    /// stream, read before any frame.
    pub fn take_varint(&mut self) -> (value: Option<u64>)
        ensures
            match decoded(old(self)@.kept) {
                Some((read, used)) => value == Some(read) && final(self)@ == (Pending {
                    kept: old(self)@.kept.skip(used),
                    ..old(self)@
                }),
                None => value is None && final(self)@ == old(self)@,
            },
    {
        match varint::get(as_slice(&self.pending)) {
            Some((value, used)) => {
                advance(&mut self.pending, used);
                Some(value)
            },
            None => None,
        }
    }

    /// The next whole frame of a known type, or `None` until more bytes arrive.
    pub fn next_frame(&mut self) -> (found: Result<Option<Frame>, H3Error>)
        ensures
            ({
                let (what, left) = next(old(self)@);
                &&& final(self)@ == left
                &&& match what {
                    Next::Partial => found matches Ok(None),
                    Next::TooLong(kind, length) => found == Err::<Option<Frame>, H3Error>(
                        (H3Error::FrameTooLong { kind, length }),
                    ),
                    Next::Whole(kind, payload) => found matches Ok(Some(whole)) && whole.kind == kind
                        && frozen(whole.payload) == payload,
                }
            }),
    {
        loop
            invariant
                next(self@) == next(old(self)@),
            decreases self@.kept.len(),
        {
            let ghost before = self@;
            if self.skipping > 0 {
                let kept = self.pending.len();
                let skip: usize = if kept as u64 <= self.skipping {
                    kept
                } else {
                    self.skipping as usize
                };
                advance(&mut self.pending, skip);
                self.skipping = self.skipping - skip as u64;
                assert(self@ =~= discarded(before));
                if self.skipping > 0 {
                    return Ok(None);
                }
            }
            let ghost here = self@;
            proof {
                assert(before.kept.skip(0) =~= before.kept);
                assert(here =~= discarded(before));
                assert(here =~= discarded(here));
                lemma_header(here.kept);
            }
            let (kind, kind_len) = match varint::get(as_slice(&self.pending)) {
                Some(read) => read,
                None => {
                    return Ok(None);
                },
            };
            let slice = as_slice(&self.pending);
            let rest = vstd::slice::slice_subrange(slice, kind_len, slice.len());
            assert(rest@ =~= here.kept.skip(kind_len as int));
            let (length, length_len) = match varint::get(rest) {
                Some(read) => read,
                None => {
                    return Ok(None);
                },
            };
            let header: usize = kind_len + length_len;
            if !is_known(kind) {
                advance(&mut self.pending, header);
                self.skipping = length;
                assert(self@ =~= Pending {
                    kept: here.kept.skip(header as int),
                    skipping: length as nat,
                });
                continue;
            }
            if length > MAX_FRAME {
                return Err(H3Error::FrameTooLong { kind, length });
            }
            if self.pending.len() - header < length as usize {
                return Ok(None);
            }
            advance(&mut self.pending, header);
            let payload = self.pending.split_to(length as usize).freeze();
            proof {
                let end = header + length;
                assert(here.kept.skip(header as int).take(length as int) =~= here.kept.subrange(
                    header as int,
                    end,
                ));
                assert(here.kept.skip(header as int).skip(length as int) =~= here.kept.skip(end));
                assert(self@ =~= next(before).1);
            }
            return Ok(Some(Frame { kind, payload }));
        }
    }
}

/// Types with a meaning in RFC 9114, including the reserved HTTP/2 ones: those are returned so the
/// stream they arrive on can refuse them.
fn is_known(kind: u64) -> (known: bool)
    ensures
        known == is_known_spec(kind),
{
    kind == frame::DATA || kind == frame::HEADERS || kind == frame::CANCEL_PUSH || kind
        == frame::SETTINGS || kind == frame::PUSH_PROMISE || kind == frame::GOAWAY || kind
        == frame::MAX_PUSH_ID || kind == frame::FROM_HTTP2[0] || kind == frame::FROM_HTTP2[1]
        || kind == frame::FROM_HTTP2[2] || kind == frame::FROM_HTTP2[3]
}

/// Append one frame.
pub fn put_frame(out: &mut BytesMut, kind: u64, payload: &[u8])
    requires
        kind <= varint::MAX,
        payload@.len() <= varint::MAX,
        held(*old(out)).len() + payload@.len() + 16 <= isize::MAX,
    ensures
        held(*final(out)) == held(*old(out)) + frame_bytes(kind, payload@),
{
    let ghost before = held(*out);
    out.reserve(varint::len(kind) + varint::len(payload.len() as u64) + payload.len());
    varint::put(out, kind);
    varint::put(out, payload.len() as u64);
    put_slice(out, payload);
    assert(held(*out) =~= before + frame_bytes(kind, payload@));
}

/// The three settings the tunnel needs, each switched on.
pub open spec fn our_settings() -> Seq<u8> {
    encoded(setting::ENABLE_CONNECT_PROTOCOL) + encoded(1) + encoded(setting::H3_DATAGRAM)
        + encoded(1) + encoded(setting::H3_DATAGRAM_DRAFT00) + encoded(1)
}

/// The opening of this side's control stream: its type, then SETTINGS.
///
/// No QPACK setting is sent, which leaves both at their default of zero: no dynamic table, so the
/// endpoint writes only self-contained header blocks and neither side needs QPACK streams.
pub fn control_stream_preface() -> (out: BytesMut)
    ensures
        held(out) == encoded(stream::CONTROL) + frame_bytes(frame::SETTINGS, our_settings()),
{
    let mut settings = BytesMut::new();
    varint::put(&mut settings, setting::ENABLE_CONNECT_PROTOCOL);
    varint::put(&mut settings, 1);
    varint::put(&mut settings, setting::H3_DATAGRAM);
    varint::put(&mut settings, 1);
    varint::put(&mut settings, setting::H3_DATAGRAM_DRAFT00);
    varint::put(&mut settings, 1);
    assert(held(settings) =~= our_settings());
    let mut out = BytesMut::new();
    varint::put(&mut out, stream::CONTROL);
    put_frame(&mut out, frame::SETTINGS, as_slice(&settings));
    assert(held(out) =~= encoded(stream::CONTROL) + frame_bytes(frame::SETTINGS, our_settings()));
    out
}

/// A request's HEADERS frame.
pub fn headers_frame(fields: &[(&[u8], &[u8])]) -> (out: BytesMut)
    requires
        section_bytes(borrowed_lines(fields@)).len() + 16 <= isize::MAX,
        section_bytes(borrowed_lines(fields@)).len() <= varint::MAX,
    ensures
        held(out) == frame_bytes(frame::HEADERS, section_bytes(borrowed_lines(fields@))),
{
    let mut section = BytesMut::new();
    qpack::encode(fields, &mut section);
    assert(held(section) =~= section_bytes(borrowed_lines(fields@)));
    let mut out = BytesMut::new();
    put_frame(&mut out, frame::HEADERS, as_slice(&section));
    assert(held(out) =~= frame_bytes(frame::HEADERS, section_bytes(borrowed_lines(fields@))));
    out
}

// ── settings ────────────────────────────────────────────────────────────────────────────────────

/// What the endpoint's SETTINGS say about the two things the tunnel needs.
#[derive(Debug, Clone, Copy, PartialEq, Eq, Structural)]
pub struct PeerSettings {
    pub h3_datagram: bool,
    pub extended_connect: bool,
}

impl Default for PeerSettings {
    fn default() -> (settings: Self)
        ensures
            settings == (PeerSettings { h3_datagram: false, extended_connect: false }),
    {
        PeerSettings { h3_datagram: false, extended_connect: false }
    }
}

/// The settings with one more taken in.
pub open spec fn with_setting(settings: PeerSettings, id: u64, value: u64) -> PeerSettings {
    if id == setting::H3_DATAGRAM {
        PeerSettings { h3_datagram: value == 1, ..settings }
    } else if id == setting::ENABLE_CONNECT_PROTOCOL {
        PeerSettings { extended_connect: value == 1, ..settings }
    } else {
        settings
    }
}

/// What a SETTINGS payload says, `seen` having been read before it. Unknown identifiers are
/// ignored; a repeated one, or one HTTP/2 used, is an error.
pub open spec fn read_settings(
    payload: Seq<u8>,
    seen: Seq<u64>,
    settings: PeerSettings,
) -> Result<PeerSettings, H3Error>
    decreases payload.len(),
{
    if payload.len() == 0 {
        Ok(settings)
    } else {
        match frame_header(payload) {
            None => Err(H3Error::Malformed("SETTINGS")),
            Some((id, value, used)) => if 0x02 <= id <= 0x05 {
                Err(H3Error::Settings("carry an identifier reserved from HTTP/2"))
            } else if seen.contains(id) {
                Err(H3Error::Settings("repeat an identifier"))
            } else if 0 < used <= payload.len() {
                read_settings(payload.skip(used), seen.push(id), with_setting(settings, id, value))
            } else {
                Err(H3Error::Malformed("SETTINGS"))
            },
        }
    }
}

/// What a whole SETTINGS payload says.
pub open spec fn settings_of(payload: Seq<u8>) -> Result<PeerSettings, H3Error> {
    read_settings(
        payload,
        Seq::empty(),
        PeerSettings { h3_datagram: false, extended_connect: false },
    )
}

fn contains(seen: &Vec<u64>, id: u64) -> (found: bool)
    ensures
        found == seen@.contains(id),
{
    let mut i: usize = 0;
    while i < seen.len()
        invariant
            i <= seen.len(),
            forall|j: int| 0 <= j < i ==> seen@[j] != id,
        decreases seen.len() - i,
    {
        if seen[i] == id {
            return true;
        }
        i += 1;
    }
    false
}

impl PeerSettings {
    /// Read a SETTINGS payload. Unknown identifiers are ignored; a repeated one, or one HTTP/2
    /// used, is an error (RFC 9114 §7.2.4).
    pub fn parse(payload: &[u8]) -> (settings: Result<Self, H3Error>)
        ensures
            settings == settings_of(payload@),
    {
        let mut settings = PeerSettings::default();
        let mut seen: Vec<u64> = Vec::new();
        let mut rest = payload;
        while rest.len() > 0
            invariant
                read_settings(rest@, seen@, settings) == settings_of(payload@),
            decreases rest@.len(),
        {
            let ghost here = rest@;
            proof {
                lemma_header(here);
            }
            let (id, id_len) = match varint::get(rest) {
                Some(read) => read,
                None => {
                    return Err(H3Error::Malformed("SETTINGS"));
                },
            };
            let after_id = vstd::slice::slice_subrange(rest, id_len, rest.len());
            assert(after_id@ =~= here.skip(id_len as int));
            let (value, value_len) = match varint::get(after_id) {
                Some(read) => read,
                None => {
                    return Err(H3Error::Malformed("SETTINGS"));
                },
            };
            rest = vstd::slice::slice_subrange(after_id, value_len, after_id.len());
            assert(rest@ =~= here.skip(id_len + value_len));
            if id == setting::FROM_HTTP2[0] || id == setting::FROM_HTTP2[1] || id
                == setting::FROM_HTTP2[2] || id == setting::FROM_HTTP2[3] {
                return Err(H3Error::Settings("carry an identifier reserved from HTTP/2"));
            }
            if contains(&seen, id) {
                return Err(H3Error::Settings("repeat an identifier"));
            }
            seen.push(id);
            if id == setting::H3_DATAGRAM {
                settings.h3_datagram = value == 1;
            } else if id == setting::ENABLE_CONNECT_PROTOCOL {
                settings.extended_connect = value == 1;
            }
        }
        Ok(settings)
    }
}

// ── the control stream ──────────────────────────────────────────────────────────────────────────

/// What the endpoint's control stream has said that the connection has to act on.
#[derive(Debug, Clone, Copy, PartialEq, Eq, Structural)]
pub enum ControlEvent {
    Settings(PeerSettings),
    /// The endpoint is shutting the connection down; the id is the first request it will not
    /// serve.
    GoAway(u64),
}

/// The rules of the endpoint's control stream: SETTINGS first and only once, and no frame that
/// belongs on a request stream.
#[derive(Debug)]
pub struct ControlStream {
    settled: bool,
}

impl Default for ControlStream {
    fn default() -> (control: Self)
        ensures
            !control.settled(),
    {
        ControlStream { settled: false }
    }
}

/// What a frame on the control stream means, SETTINGS having arrived before it or not.
pub open spec fn control_event(settled: bool, kind: u64, payload: Seq<u8>) -> Result<
    Option<ControlEvent>,
    H3Error,
> {
    if !settled {
        if kind != frame::SETTINGS {
            Err(H3Error::MissingSettings)
        } else {
            match settings_of(payload) {
                Ok(settings) => Ok(Some(ControlEvent::Settings(settings))),
                Err(problem) => Err(problem),
            }
        }
    } else if kind == frame::GOAWAY {
        match decoded(payload) {
            Some((id, used)) => if used == payload.len() {
                Ok(Some(ControlEvent::GoAway(id)))
            } else {
                Err(H3Error::Malformed("GOAWAY"))
            },
            None => Err(H3Error::Malformed("GOAWAY")),
        }
    } else if kind == frame::CANCEL_PUSH || kind == frame::MAX_PUSH_ID {
        Ok(None)
    } else {
        Err(H3Error::Unexpected { kind, stream: "control" })
    }
}

impl ControlStream {
    /// Whether SETTINGS has arrived.
    pub closed spec fn settled(&self) -> bool {
        self.settled
    }

    /// Take in one frame of the control stream.
    pub fn on_frame(&mut self, incoming: Frame) -> (event: Result<Option<ControlEvent>, H3Error>)
        ensures
            event == control_event(
                old(self).settled(),
                incoming.kind,
                frozen(incoming.payload),
            ),
            final(self).settled() == (old(self).settled() || incoming.kind == frame::SETTINGS),
    {
        if !self.settled {
            if incoming.kind != frame::SETTINGS {
                return Err(H3Error::MissingSettings);
            }
            self.settled = true;
            return match PeerSettings::parse(frozen_slice(&incoming.payload)) {
                Ok(settings) => Ok(Some(ControlEvent::Settings(settings))),
                Err(problem) => Err(problem),
            };
        }
        if incoming.kind == frame::GOAWAY {
            match varint::get(frozen_slice(&incoming.payload)) {
                Some((id, used)) => if used == incoming.payload.len() {
                    Ok(Some(ControlEvent::GoAway(id)))
                } else {
                    Err(H3Error::Malformed("GOAWAY"))
                },
                None => Err(H3Error::Malformed("GOAWAY")),
            }
        } else if incoming.kind == frame::CANCEL_PUSH || incoming.kind == frame::MAX_PUSH_ID {
            // Push is never enabled from this side, so these carry nothing to act on.
            Ok(None)
        } else {
            Err(H3Error::Unexpected { kind: incoming.kind, stream: "control" })
        }
    }
}

// ── the response ────────────────────────────────────────────────────────────────────────────────

/// The name of the pseudo-header a response's status travels in.
pub open spec fn status_name() -> Seq<u8> {
    seq![58u8, 115u8, 116u8, 97u8, 116u8, 117u8, 115u8]
}

/// The number a status code spells: three digits, the first not zero.
pub open spec fn status_number(text: Seq<u8>) -> Option<u16> {
    if text.len() == 3 && 49 <= text[0] <= 57 && 48 <= text[1] <= 57 && 48 <= text[2] <= 57 {
        Some(((text[0] - 48) * 100 + (text[1] - 48) * 10 + (text[2] - 48)) as u16)
    } else {
        None
    }
}

/// The values of the `:status` fields among these, in order.
pub open spec fn statuses(lines: Seq<Line>) -> Seq<Seq<u8>>
    decreases lines.len(),
{
    if lines.len() == 0 {
        Seq::empty()
    } else if lines.last().0 == status_name() {
        statuses(lines.drop_last()).push(lines.last().1)
    } else {
        statuses(lines.drop_last())
    }
}

/// The status a frame on the request stream says, interim ones passed over.
pub open spec fn response_status_spec(kind: u64, payload: Seq<u8>) -> Result<Option<u16>, H3Error> {
    if kind != frame::HEADERS {
        Err(H3Error::Unexpected { kind, stream: "request" })
    } else {
        match qpack::read_section(payload) {
            Err(problem) => Err(H3Error::Qpack(problem)),
            Ok(lines) => {
                let found = statuses(lines);
                if found.len() == 0 {
                    Err(H3Error::Message("has no :status"))
                } else if found.len() > 1 {
                    Err(H3Error::Message("has two :status fields"))
                } else {
                    match status_number(found[0]) {
                        None => Err(H3Error::Message("has a :status that is not a status code")),
                        Some(status) => if 100 <= status < 200 {
                            Ok(None)
                        } else {
                            Ok(Some(status))
                        },
                    }
                }
            },
        }
    }
}

/// `http::StatusCode::from_bytes`: exactly three digits are a status code, the first of them not
/// zero, and its number is the one they spell.
#[verifier::external_body]
fn status_code(text: &[u8]) -> (status: Option<u16>)
    ensures
        status == status_number(text@),
{
    match http::StatusCode::from_bytes(text) {
        Ok(code) => Some(code.as_u16()),
        Err(_) => None,
    }
}

fn is_status_name(name: &Vec<u8>) -> (is: bool)
    ensures
        is == (name@ == status_name()),
{
    let is = name.len() == 7 && name[0] == 58 && name[1] == 115 && name[2] == 116 && name[3] == 97
        && name[4] == 116 && name[5] == 117 && name[6] == 115;
    assert(is == (name@ =~= status_name()));
    is
}

/// Read the request stream up to the final response, and return its status.
///
/// Interim (1xx) responses are passed over. Anything but HEADERS before the response is an error:
/// a DATA frame would be a body with no response to belong to.
pub fn response_status(incoming: Frame) -> (status: Result<Option<u16>, H3Error>)
    ensures
        status == response_status_spec(incoming.kind, frozen(incoming.payload)),
{
    if incoming.kind != frame::HEADERS {
        return Err(H3Error::Unexpected { kind: incoming.kind, stream: "request" });
    }
    let fields = match qpack::decode(frozen_slice(&incoming.payload)) {
        Ok(fields) => fields,
        Err(problem) => {
            return Err(H3Error::Qpack(problem));
        },
    };
    let ghost lines = owned_lines(fields@);
    let mut found: usize = 0;
    let mut first: usize = 0;
    let mut i: usize = 0;
    assert(lines.take(0) =~= Seq::<Line>::empty());
    while i < fields.len()
        invariant
            i <= fields.len(),
            lines == owned_lines(fields@),
            found <= i,
            found == statuses(lines.take(i as int)).len(),
            found > 0 ==> first < fields.len() && statuses(lines.take(i as int))[0]
                == fields@[first as int].1@,
        decreases fields.len() - i,
    {
        assert(lines.take(i + 1).drop_last() =~= lines.take(i as int));
        assert(lines[i as int] == (fields@[i as int].0@, fields@[i as int].1@));
        if is_status_name(&fields[i].0) {
            if found == 0 {
                first = i;
            }
            found += 1;
        }
        i += 1;
    }
    assert(lines.take(i as int) =~= lines);
    if found == 0 {
        return Err(H3Error::Message("has no :status"));
    }
    if found > 1 {
        return Err(H3Error::Message("has two :status fields"));
    }
    match status_code(fields[first].1.as_slice()) {
        Some(status) => if 100 <= status && status < 200 {
            Ok(None)
        } else {
            Ok(Some(status))
        },
        None => Err(H3Error::Message("has a :status that is not a status code")),
    }
}

// ── datagrams ───────────────────────────────────────────────────────────────────────────────────

/// One packet as the HTTP datagram of the request on a stream.
pub open spec fn datagram_bytes(stream_id: u64, packet: Seq<u8>) -> Seq<u8> {
    encoded((stream_id / 4) as u64) + seq![0u8] + packet
}

/// The packet inside a datagram, when it belongs to the request on a stream and carries a whole
/// packet.
pub open spec fn datagram_packet_spec(datagram: Seq<u8>, stream_id: u64) -> Option<Seq<u8>> {
    match decoded(datagram) {
        Some((quarter, used)) => if quarter != stream_id / 4 {
            None
        } else {
            match decoded(datagram.skip(used)) {
                Some((context, more)) => if context != 0 {
                    None
                } else {
                    Some(datagram.skip(used).skip(more))
                },
                None => None,
            }
        },
        None => None,
    }
}

/// Frame one IP packet as the HTTP datagram of the request on `stream_id` (RFC 9297 §2.1), with
/// the context id CONNECT-IP uses for a whole packet (RFC 9484 §6): `varint(id/4) · 0 · packet`.
pub fn datagram(stream_id: u64, packet: &[u8]) -> (out: Bytes)
    requires
        packet@.len() + 9 <= isize::MAX,
    ensures
        frozen(out) == datagram_bytes(stream_id, packet@),
{
    let quarter = stream_id / 4;
    let mut out = BytesMut::new();
    out.reserve(varint::len(quarter) + 1 + packet.len());
    varint::put(&mut out, quarter);
    put_u8(&mut out, 0);
    put_slice(&mut out, packet);
    assert(held(out) =~= datagram_bytes(stream_id, packet@));
    out.freeze()
}

/// How many bytes `datagram` puts in front of a packet.
pub fn datagram_overhead(stream_id: u64) -> (overhead: usize)
    ensures
        overhead == encoded_len((stream_id / 4) as u64) + 1,
{
    varint::len(stream_id / 4) + 1
}

/// The IP packet inside a datagram, or `None` when it belongs to another request or carries a
/// context this tunnel did not ask for. Either is dropped, as RFC 9484 §6 allows.
pub fn datagram_packet(datagram: Bytes, stream_id: u64) -> (packet: Option<Bytes>)
    ensures
        match packet {
            Some(packet) => datagram_packet_spec(frozen(datagram), stream_id) == Some(
                frozen(packet),
            ),
            None => datagram_packet_spec(frozen(datagram), stream_id) is None,
        },
{
    let mut rest = datagram;
    let used = match varint::get(frozen_slice(&rest)) {
        Some((quarter, used)) => {
            if quarter != stream_id / 4 {
                return None;
            }
            used
        },
        None => {
            return None;
        },
    };
    advance_frozen(&mut rest, used);
    let more = match varint::get(frozen_slice(&rest)) {
        Some((context, more)) => {
            if context != 0 {
                return None;
            }
            more
        },
        None => {
            return None;
        },
    };
    advance_frozen(&mut rest, more);
    Some(rest)
}

// ── laws ────────────────────────────────────────────────────────────────────────────────────────

/// A frame of a known type survives the round trip, whatever follows it.
pub proof fn law_frame_round_trip(kind: u64, payload: Seq<u8>, rest: Seq<u8>)
    requires
        is_known_spec(kind),
        payload.len() <= MAX_FRAME,
    ensures
        next(Pending { kept: frame_bytes(kind, payload) + rest, skipping: 0 }) == (
            Next::Whole(kind, payload),
            Pending { kept: rest, skipping: 0 },
        ),
{
    let stream = frame_bytes(kind, payload) + rest;
    let here = Pending { kept: stream, skipping: 0 };
    assert(discarded(here) =~= here);
    lemma_frame_header(kind, payload.len() as u64, payload + rest);
    assert(stream =~= encoded(kind) + encoded(payload.len() as u64) + (payload + rest));
    let header = (encoded(kind).len() + encoded(payload.len() as u64).len()) as int;
    assert(stream.subrange(header, header + payload.len()) =~= payload);
    assert(stream.skip(header + payload.len()) =~= rest);
}

pub proof fn lemma_frame_header(kind: u64, length: u64, rest: Seq<u8>)
    requires
        kind <= varint::MAX,
        length <= varint::MAX,
    ensures
        frame_header(encoded(kind) + encoded(length) + rest) == Some(
            (kind, length, (encoded(kind).len() + encoded(length).len()) as int),
        ),
{
    let bytes = encoded(kind) + encoded(length) + rest;
    assert(bytes =~= encoded(kind) + (encoded(length) + rest));
    varint::law_varint_round_trip(kind, encoded(length) + rest);
    assert(bytes.skip(encoded(kind).len() as int) =~= encoded(length) + rest);
    varint::law_varint_round_trip(length, rest);
}

/// A header that is whole is read the same whatever follows.
pub proof fn lemma_header_extends(bytes: Seq<u8>, more: Seq<u8>)
    ensures
        frame_header(bytes) is Some ==> frame_header(bytes + more) == frame_header(bytes),
{
    if let Some((kind, kind_len)) = decoded(bytes) {
        varint::law_decoding_needs_its_bytes_and_no_more(bytes, more);
        let rest = bytes.skip(kind_len);
        assert((bytes + more).skip(kind_len) =~= rest + more);
        varint::law_decoding_needs_its_bytes_and_no_more(rest, more);
    }
}

/// The pieces a stream arrives in make no difference: what is found in the bytes so far is found
/// with more behind them, and where nothing was found, going on with what was kept finds what the
/// whole would have given. So a frame split across reads is never returned early, and an unknown
/// one is skipped without losing the next.
pub proof fn law_pieces_make_no_difference(stream: Pending, more: Seq<u8>)
    ensures
        ({
            let (what, left) = next(stream);
            let whole = Pending { kept: stream.kept + more, ..stream };
            let going_on = Pending { kept: left.kept + more, ..left };
            match what {
                Next::Whole(_, _) => next(whole) == (what, going_on),
                Next::TooLong(_, _) => next(whole) == (what, going_on),
                Next::Partial => next(whole) == next(going_on),
            }
        }),
    decreases stream.kept.len(),
{
    let whole = Pending { kept: stream.kept + more, ..stream };
    let here = discarded(stream);
    let here_more = Pending { kept: here.kept + more, ..here };
    lemma_discarding(stream, more);
    if here.skipping == 0 {
        assert(discarded(here_more) =~= here_more);
        lemma_header(here.kept);
        lemma_header_extends(here.kept, more);
        if let Some((kind, length, header)) = frame_header(here.kept) {
            let (what, left) = next(stream);
            if !is_known_spec(kind) {
                let after = Pending { kept: here.kept.skip(header), skipping: length as nat };
                law_pieces_make_no_difference(after, more);
                assert(here_more.kept.skip(header) =~= after.kept + more);
            } else if length <= MAX_FRAME && here.kept.len() >= header + length {
                let end = header + length;
                assert(here_more.kept.subrange(header, end) =~= here.kept.subrange(header, end));
                assert(here_more.kept.skip(end) =~= here.kept.skip(end) + more);
            }
        }
    }
}

/// Discarding now and again later discards what discarding at once would have.
proof fn lemma_discarding(stream: Pending, more: Seq<u8>)
    ensures
        ({
            let here = discarded(stream);
            let whole = Pending { kept: stream.kept + more, ..stream };
            let here_more = Pending { kept: here.kept + more, ..here };
            &&& discarded(whole) == discarded(here_more)
            &&& next(whole) == next(here_more)
        }),
{
    let here = discarded(stream);
    let whole = Pending { kept: stream.kept + more, ..stream };
    let here_more = Pending { kept: here.kept + more, ..here };
    assert(discarded(whole) =~= discarded(here_more));
}

/// An unknown frame is never kept: once its header has been read, nothing of its payload is.
pub proof fn law_unknown_frames_are_not_kept(kind: u64, length: u64, arrived: Seq<u8>)
    requires
        kind <= varint::MAX,
        length <= varint::MAX,
        !is_known_spec(kind),
        arrived.len() < length,
    ensures
        next(Pending { kept: encoded(kind) + encoded(length) + arrived, skipping: 0 }) == (
            Next::Partial,
            Pending { kept: Seq::empty(), skipping: (length - arrived.len()) as nat },
        ),
{
    let bytes = encoded(kind) + encoded(length) + arrived;
    let here = Pending { kept: bytes, skipping: 0 };
    assert(discarded(here) =~= here);
    lemma_frame_header(kind, length, arrived);
    lemma_header(bytes);
    let header = (encoded(kind).len() + encoded(length).len()) as int;
    assert(bytes.skip(header) =~= arrived);
    let after = Pending { kept: arrived, skipping: length as nat };
    assert(discarded(after) =~= Pending {
        kept: Seq::empty(),
        skipping: (length - arrived.len()) as nat,
    });
    assert(next(after) == (Next::Partial, discarded(after)));
}

/// Frames taken off a stream, one after another, until there is no whole one: those found, the one
/// not waited for where there is one, and what is left of the stream.
pub struct Drained {
    pub frames: Seq<(u64, Seq<u8>)>,
    pub too_long: Option<(u64, u64)>,
    pub left: Pending,
}

/// Every frame that can be taken off a stream.
pub open spec fn drained(stream: Pending) -> Drained
    decreases stream.kept.len(),
{
    let (what, left) = next(stream);
    match what {
        Next::Partial => Drained { frames: Seq::empty(), too_long: None, left },
        Next::TooLong(kind, length) => Drained {
            frames: Seq::empty(),
            too_long: Some((kind, length)),
            left,
        },
        Next::Whole(kind, payload) => {
            proof {
                lemma_next_shrinks(stream);
            }
            let rest = drained(left);
            Drained { frames: seq![(kind, payload)] + rest.frames, ..rest }
        },
    }
}

/// A whole frame takes bytes with it.
pub proof fn lemma_next_shrinks(stream: Pending)
    ensures
        next(stream).0 is Whole ==> next(stream).1.kept.len() < stream.kept.len(),
    decreases stream.kept.len(),
{
    let here = discarded(stream);
    lemma_header(here.kept);
    if here.skipping == 0 {
        if let Some((kind, length, header)) = frame_header(here.kept) {
            if !is_known_spec(kind) {
                lemma_next_shrinks(
                    Pending { kept: here.kept.skip(header), skipping: length as nat },
                );
            }
        }
    }
}

/// A stream nothing has arrived on.
pub open spec fn fresh_stream() -> Pending {
    Pending { kept: Seq::empty(), skipping: 0 }
}

/// What comes of a stream that arrives in pieces, each drained as it comes, up to a frame that is
/// not waited for.
pub open spec fn arriving(pieces: Seq<Seq<u8>>) -> Drained
    decreases pieces.len(),
{
    if pieces.len() == 0 {
        Drained { frames: Seq::empty(), too_long: None, left: fresh_stream() }
    } else {
        let before = arriving(pieces.drop_last());
        if before.too_long is Some {
            before
        } else {
            let then = drained(
                Pending { kept: before.left.kept + pieces.last(), ..before.left },
            );
            Drained { frames: before.frames + then.frames, ..then }
        }
    }
}

/// The bytes that pieces come to.
pub open spec fn all_of(pieces: Seq<Seq<u8>>) -> Seq<u8>
    decreases pieces.len(),
{
    if pieces.len() == 0 {
        Seq::empty()
    } else {
        all_of(pieces.drop_last()) + pieces.last()
    }
}

/// More bytes behind a stream change nothing of what was taken off it: taking goes on where it
/// stopped.
proof fn lemma_drained_extends(stream: Pending, more: Seq<u8>)
    ensures
        ({
            let before = drained(stream);
            let whole = drained(Pending { kept: stream.kept + more, ..stream });
            let then = drained(Pending { kept: before.left.kept + more, ..before.left });
            if before.too_long is Some {
                whole.frames == before.frames && whole.too_long == before.too_long
            } else {
                &&& whole.frames == before.frames + then.frames
                &&& whole.too_long == then.too_long
                &&& whole.left == then.left
            }
        }),
    decreases stream.kept.len(),
{
    law_pieces_make_no_difference(stream, more);
    let (what, left) = next(stream);
    let before = drained(stream);
    let whole = drained(Pending { kept: stream.kept + more, ..stream });
    let then = drained(Pending { kept: before.left.kept + more, ..before.left });
    match what {
        Next::Partial => {
            assert(Seq::<(u64, Seq<u8>)>::empty() + then.frames =~= then.frames);
        },
        Next::TooLong(_, _) => {},
        Next::Whole(kind, payload) => {
            lemma_next_shrinks(stream);
            lemma_drained_extends(left, more);
            let rest = drained(left);
            assert(seq![(kind, payload)] + (rest.frames + then.frames) =~= (seq![(kind, payload)]
                + rest.frames) + then.frames);
        },
    }
}

/// However the bytes of a stream are cut, what comes of them is what comes of all of them at once.
proof fn lemma_arriving(pieces: Seq<Seq<u8>>)
    ensures
        ({
            let cut = arriving(pieces);
            let whole = drained(Pending { kept: all_of(pieces), skipping: 0 });
            &&& cut.frames == whole.frames
            &&& cut.too_long == whole.too_long
            &&& cut.too_long is None ==> cut.left == whole.left
        }),
    decreases pieces.len(),
{
    if pieces.len() == 0 {
        let start = fresh_stream();
        assert(discarded(start) =~= start);
        lemma_header(start.kept);
    } else {
        let before = pieces.drop_last();
        lemma_arriving(before);
        lemma_drained_extends(Pending { kept: all_of(before), skipping: 0 }, pieces.last());
    }
}

/// Frames one after another.
pub open spec fn sent(frames: Seq<(u64, Seq<u8>)>) -> Seq<u8>
    decreases frames.len(),
{
    if frames.len() == 0 {
        Seq::empty()
    } else {
        frame_bytes(frames[0].0, frames[0].1) + sent(frames.drop_first())
    }
}

/// Those of a run of frames whose type is known, in order.
pub open spec fn known_of(frames: Seq<(u64, Seq<u8>)>) -> Seq<(u64, Seq<u8>)>
    decreases frames.len(),
{
    if frames.len() == 0 {
        Seq::empty()
    } else if is_known_spec(frames[0].0) {
        seq![frames[0]] + known_of(frames.drop_first())
    } else {
        known_of(frames.drop_first())
    }
}

/// Frames that can be sent, the known ones no longer than is waited for.
pub open spec fn can_be_sent(frames: Seq<(u64, Seq<u8>)>) -> bool {
    forall|i: int|
        0 <= i < frames.len() ==> (#[trigger] frames[i]).0 <= varint::MAX && frames[i].1.len()
            <= varint::MAX && (is_known_spec(frames[i].0) ==> frames[i].1.len() <= MAX_FRAME)
}

/// An unknown frame is passed over, whatever its length and whatever follows.
proof fn lemma_unknown_passed_over(kind: u64, payload: Seq<u8>, rest: Seq<u8>)
    requires
        kind <= varint::MAX,
        payload.len() <= varint::MAX,
        !is_known_spec(kind),
    ensures
        next(Pending { kept: frame_bytes(kind, payload) + rest, skipping: 0 }) == next(
            Pending { kept: rest, skipping: 0 },
        ),
{
    let length = payload.len() as u64;
    let bytes = frame_bytes(kind, payload) + rest;
    let here = Pending { kept: bytes, skipping: 0 };
    assert(discarded(here) =~= here);
    lemma_frame_header(kind, length, payload + rest);
    assert(bytes =~= encoded(kind) + encoded(length) + (payload + rest));
    lemma_header(bytes);
    let header = (encoded(kind).len() + encoded(length).len()) as int;
    let after = Pending { kept: bytes.skip(header), skipping: length as nat };
    let behind = Pending { kept: rest, skipping: 0 };
    assert(discarded(after) =~= behind);
    assert(discarded(behind) =~= behind);
    assert(next(here) == next(after));
    assert(next(after) == next(behind));
}

proof fn lemma_sent(frames: Seq<(u64, Seq<u8>)>, tail: Seq<u8>)
    requires
        can_be_sent(frames),
    ensures
        ({
            let whole = drained(Pending { kept: sent(frames) + tail, skipping: 0 });
            let behind = drained(Pending { kept: tail, skipping: 0 });
            &&& whole.frames == known_of(frames) + behind.frames
            &&& whole.too_long == behind.too_long
            &&& whole.left == behind.left
        }),
    decreases frames.len(),
{
    let behind = drained(Pending { kept: tail, skipping: 0 });
    if frames.len() == 0 {
        assert(sent(frames) + tail =~= tail);
        assert(known_of(frames) + behind.frames =~= behind.frames);
    } else {
        let (kind, payload) = frames[0];
        let rest = frames.drop_first();
        assert forall|i: int| 0 <= i < rest.len() implies rest[i] == #[trigger] frames[i + 1] by {}
        assert(can_be_sent(rest)) by {
            assert forall|i: int| 0 <= i < rest.len() implies (#[trigger] rest[i]).0 <= varint::MAX
                && rest[i].1.len() <= varint::MAX && (is_known_spec(rest[i].0)
                ==> rest[i].1.len() <= MAX_FRAME) by {
                assert(rest[i] == frames[i + 1]);
            }
        }
        lemma_sent(rest, tail);
        let bytes = sent(frames) + tail;
        assert(bytes =~= frame_bytes(kind, payload) + (sent(rest) + tail));
        if is_known_spec(kind) {
            law_frame_round_trip(kind, payload, sent(rest) + tail);
            lemma_next_shrinks(Pending { kept: bytes, skipping: 0 });
            assert(seq![frames[0]] + (known_of(rest) + behind.frames) =~= known_of(frames)
                + behind.frames);
        } else {
            lemma_unknown_passed_over(kind, payload, sent(rest) + tail);
        }
    }
}

/// However the bytes of a stream are cut, the frames that come out are the same: those of a known
/// type, whole, in order and with their payloads. Unknown ones are passed over whatever their
/// length, and the first known one that declares more than is waited for ends it as soon as its
/// header is there, whatever is behind.
pub proof fn law_frames_come_out_whatever_the_pieces(
    pieces: Seq<Seq<u8>>,
    frames: Seq<(u64, Seq<u8>)>,
    tail: Seq<u8>,
)
    requires
        can_be_sent(frames),
        all_of(pieces) == sent(frames) + tail,
    ensures
        ({
            let out = arriving(pieces);
            let behind = drained(Pending { kept: tail, skipping: 0 });
            &&& out.frames == known_of(frames) + behind.frames
            &&& out.too_long == behind.too_long
            &&& tail.len() == 0 ==> out.frames == known_of(frames) && out.too_long is None
                && out.left == fresh_stream()
            &&& frame_header(tail) matches Some((kind, length, _)) ==> is_known_spec(kind)
                && length > MAX_FRAME ==> out.frames == known_of(frames) && out.too_long == Some(
                (kind, length),
            )
        }),
{
    lemma_arriving(pieces);
    lemma_sent(frames, tail);
    let here = Pending { kept: tail, skipping: 0 };
    assert(discarded(here) =~= here);
    lemma_header(tail);
    if tail.len() == 0 {
        assert(here =~= fresh_stream());
    }
    assert(known_of(frames) + Seq::<(u64, Seq<u8>)>::empty() =~= known_of(frames));
}

/// A packet framed for a request comes out of its datagram for that request, and for no other.
pub proof fn law_datagram_round_trip(stream_id: u64, packet: Seq<u8>, asked: u64)
    ensures
        datagram_packet_spec(datagram_bytes(stream_id, packet), asked) == if stream_id / 4 == asked
            / 4 {
            Some(packet)
        } else {
            None
        },
        datagram_bytes(stream_id, packet).len() == encoded_len((stream_id / 4) as u64) + 1
            + packet.len(),
{
    let quarter = (stream_id / 4) as u64;
    let bytes = datagram_bytes(stream_id, packet);
    varint::law_varint_round_trip(quarter, seq![0u8] + packet);
    varint::law_varint_round_trip(0, packet);
    assert(bytes =~= encoded(quarter) + (seq![0u8] + packet));
    let rest = bytes.skip(encoded(quarter).len() as int);
    assert(rest =~= encoded(0) + packet);
    assert(rest.skip(1) =~= packet);
}

/// This side's own SETTINGS, read by the rules it holds the endpoint's to, say that both things the
/// tunnel needs are on.
pub proof fn law_our_settings_say_what_the_tunnel_needs()
    ensures
        settings_of(our_settings()) == Ok::<PeerSettings, H3Error>(
            PeerSettings { h3_datagram: true, extended_connect: true },
        ),
{
    let none = PeerSettings { h3_datagram: false, extended_connect: false };
    let third = encoded(setting::H3_DATAGRAM_DRAFT00) + encoded(1);
    let second = encoded(setting::H3_DATAGRAM) + encoded(1) + third;
    let first = encoded(setting::ENABLE_CONNECT_PROTOCOL) + encoded(1) + second;
    assert(our_settings() =~= first);
    lemma_frame_header(setting::ENABLE_CONNECT_PROTOCOL, 1, second);
    lemma_frame_header(setting::H3_DATAGRAM, 1, third);
    lemma_frame_header(setting::H3_DATAGRAM_DRAFT00, 1, Seq::empty());
    assert(third =~= third + Seq::<u8>::empty());
    assert(first.skip(2) =~= second);
    assert(second.skip(2) =~= third);
    assert(third.skip(3) =~= Seq::<u8>::empty());
    let seen1 = Seq::<u64>::empty().push(setting::ENABLE_CONNECT_PROTOCOL);
    let seen2 = seen1.push(setting::H3_DATAGRAM);
    let seen3 = seen2.push(setting::H3_DATAGRAM_DRAFT00);
    let half = PeerSettings { extended_connect: true, ..none };
    let both = PeerSettings { h3_datagram: true, ..half };
    assert(read_settings(Seq::empty(), seen3, both) == Ok::<PeerSettings, H3Error>(both));
    assert(read_settings(third, seen2, both) == Ok::<PeerSettings, H3Error>(both));
    assert(read_settings(second, seen1, half) == Ok::<PeerSettings, H3Error>(both));
    assert(read_settings(first, Seq::empty(), none) == Ok::<PeerSettings, H3Error>(both));
}

} // verus!
