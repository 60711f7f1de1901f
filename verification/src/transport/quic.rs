//! The HTTP/3 carrier: QUIC, HTTP/3, one extended CONNECT, and each packet a QUIC datagram.
//!
//! Each packet is one datagram, so the path has to fit a whole packet and its prefix into one. The
//! tunnel is handed over once path MTU discovery has made room for the adapter's largest packet. A
//! path that never gets there is not one this carrier can use, and HTTP/2 carries instead.
//!
//! What is decided between one exchange with the endpoint and the next is here: [`Opening`] goes
//! from the handshake to an open tunnel, [`PeerStreams`] and [`ControlReader`] read the streams the
//! endpoint opens, and [`ResponseReader`] the answer to the CONNECT. Waits are in milliseconds.

use bytes::{Bytes, BytesMut};
use vstd::prelude::*;
use vstd::string::{is_ascii, is_ascii_spec_bytes, StringExecFns, StringSliceAdditionalSpecFns};
use crate::address::shown::{show, shown};
use crate::address::IpAddr;
use crate::buffer::{frozen, held};
use crate::text::{between, decimal, digits, joined};
use crate::transport::connect_ip::{decrement_hop_limit, one_hop_on, ConnectError, Stages};
use crate::transport::handshake::{handshake_name, Handshake, Presented};
use crate::transport::http3::{
    code, control_event, datagram, datagram_bytes, datagram_overhead, frame, frame_bytes,
    headers_frame, next, response_status, response_status_spec, sent, stream, ControlEvent,
    ControlStream, FrameReader, H3Error, Next, PeerSettings, Pending,
};
use crate::transport::qpack::{borrowed_lines, lemma_section_len, section_bytes, Line};
use crate::transport::tls::{tls_text, TlsSetupError};
use crate::transport::varint::encoded_len;
use crate::warp::api::CONNECT_SNI;

verus! {

/// The connection id length the endpoint wants: the longest QUIC allows.
pub const CID_LEN: usize = 20;

/// How long the QUIC handshake may take. A link that drops UDP to the endpoint never finishes it,
/// and this is what that costs before HTTP/2 is tried.
pub const HANDSHAKE_WAIT: u64 = 4000;

/// How long SETTINGS and the CONNECT's answer may take, together, once the handshake is done.
pub const EXCHANGE_WAIT: u64 = 4000;

/// How long path MTU discovery is given to make room for a full packet, and how often it is looked
/// at meanwhile.
pub const PATH_WAIT: u64 = 2000;

pub const PATH_POLL: u64 = 20;

/// A PING whenever the connection has been quiet this long: while the connection lives, something
/// arrives from the endpoint at least this often.
pub const KEEP_ALIVE: u64 = 2000;

/// How long the connection survives hearing nothing at all.
pub const IDLE_TIMEOUT: u64 = 10_000;

/// The most outgoing datagram bytes QUIC holds before a send waits. Small on purpose: a packet
/// waiting there has left the queue in front of the tunnel, which is the place built to manage it.
pub const SEND_BUFFER: usize = 32 * 1024;

/// How often word from the endpoint is looked for.
pub const PROBE_POLL: u64 = 50;

/// How long a closed connection is kept to send the close.
pub const LINGER: u64 = 1000;

/// The request that opens the tunnel. The authority is the tunnel's own name, not a host this core
/// dials.
pub open spec fn request_lines() -> Seq<Line> {
    seq![
        (":method".spec_bytes(), "CONNECT".spec_bytes()),
        (":protocol".spec_bytes(), "cf-connect-ip".spec_bytes()),
        (":scheme".spec_bytes(), "https".spec_bytes()),
        (":authority".spec_bytes(), "cloudflareaccess.com".spec_bytes()),
        (":path".spec_bytes(), "/".spec_bytes()),
        ("capsule-protocol".spec_bytes(), "?1".spec_bytes()),
        ("user-agent".spec_bytes(), "".spec_bytes()),
    ]
}

/// A short text in plain letters is as many bytes as letters.
proof fn lemma_short(text: &str)
    requires
        text@.len() <= 20,
        is_ascii(text),
    ensures
        text.spec_bytes().len() <= 20,
{
    is_ascii_spec_bytes(text);
}

proof fn lemma_request_is_short()
    ensures
        section_bytes(request_lines()).len() <= 500,
{
    reveal_strlit(":method");
    reveal_strlit("CONNECT");
    reveal_strlit(":protocol");
    reveal_strlit("cf-connect-ip");
    reveal_strlit(":scheme");
    reveal_strlit("https");
    reveal_strlit(":authority");
    reveal_strlit("cloudflareaccess.com");
    reveal_strlit(":path");
    reveal_strlit("/");
    reveal_strlit("capsule-protocol");
    reveal_strlit("?1");
    reveal_strlit("user-agent");
    reveal_strlit("");
    lemma_short(":method");
    lemma_short("CONNECT");
    lemma_short(":protocol");
    lemma_short("cf-connect-ip");
    lemma_short(":scheme");
    lemma_short("https");
    lemma_short(":authority");
    lemma_short("cloudflareaccess.com");
    lemma_short(":path");
    lemma_short("/");
    lemma_short("capsule-protocol");
    lemma_short("?1");
    lemma_short("user-agent");
    lemma_short("");
    lemma_section_len(request_lines(), 20);
}

/// The request that opens the tunnel, as it goes on its stream.
pub fn request() -> (out: BytesMut)
    ensures
        held(out) == frame_bytes(frame::HEADERS, section_bytes(request_lines())),
{
    let fields: [(&[u8], &[u8]); 7] = [
        (":method".as_bytes(), "CONNECT".as_bytes()),
        (":protocol".as_bytes(), "cf-connect-ip".as_bytes()),
        (":scheme".as_bytes(), "https".as_bytes()),
        (":authority".as_bytes(), "cloudflareaccess.com".as_bytes()),
        (":path".as_bytes(), "/".as_bytes()),
        ("capsule-protocol".as_bytes(), "?1".as_bytes()),
        ("user-agent".as_bytes(), "".as_bytes()),
    ];
    proof {
        lemma_request_is_short();
        assert(borrowed_lines(fields@) =~= request_lines());
    }
    headers_frame(fields.as_slice())
}

/// Why the endpoint's side ended the tunnel, when it was not the connection failing.
#[derive(Debug, Clone, Copy, PartialEq, Eq)]
pub enum Ended {
    /// The endpoint is shutting the connection down.
    GoingAway,
    /// The endpoint broke a rule; the connection was closed with the matching code.
    Broke(H3Error),
}

/// What an end is reported as.
pub open spec fn ended_as(ended: Ended) -> ConnectError {
    match ended {
        Ended::GoingAway => ConnectError::GoingAway,
        Ended::Broke(error) => ConnectError::H3(error),
    }
}

impl Ended {
    /// What this is reported as.
    pub fn error(self) -> (error: ConnectError)
        ensures
            error == ended_as(self),
    {
        match self {
            Ended::GoingAway => ConnectError::GoingAway,
            Ended::Broke(error) => ConnectError::H3(error),
        }
    }
}

/// The reason for a lost connection: what the endpoint's streams recorded, when they recorded
/// anything, and QUIC's own account otherwise.
pub fn gone(ended: Option<Ended>, lost: String) -> (error: ConnectError)
    ensures
        error == match ended {
            Some(ended) => ended_as(ended),
            None => ConnectError::Quic(lost),
        },
{
    match ended {
        Some(ended) => ended.error(),
        None => ConnectError::Quic(lost),
    }
}

/// What opening the tunnel has come to.
#[derive(Debug)]
pub enum OpenEvent {
    /// The TLS session could not be built from the identity.
    NoSession(TlsSetupError),
    /// There is no socket to dial from.
    NoSocket(String),
    /// The TLS setup cannot run inside QUIC, and what was said about it.
    NoCrypto(String),
    /// The endpoint could not be dialled.
    NotDialled(String),
    /// The QUIC handshake finished after so many milliseconds.
    Connected { ms: u128 },
    HandshakeFailed(String),
    HandshakeTimedOut,
    /// The endpoint's SETTINGS arrived.
    Offered { settings: PeerSettings, ms: u128 },
    /// The endpoint's control stream ended before its SETTINGS came, because the connection was
    /// lost for this reason, or not.
    NoSettings { lost: Option<String> },
    /// SETTINGS or the CONNECT failed.
    ExchangeFailed(ConnectError),
    ExchangeTimedOut,
    /// The CONNECT on this stream was answered.
    Responded { status: u16, stream_id: u64 },
    /// The path takes datagrams of this size, or none. The connection was lost, or not; the time
    /// for the path to make room is over, or not; and the CONNECT was sent so long ago.
    Room { room: Option<usize>, lost: Option<String>, late: bool, ms: u128 },
}

/// What to do about it.
#[derive(Debug, PartialEq, Eq)]
pub enum OpenAction {
    /// Open this side's control stream, write SETTINGS, and wait for the endpoint's.
    OpenControl,
    /// Send the CONNECT and wait for its answer.
    Request,
    /// See how large a datagram the path takes.
    LookForRoom,
    /// Wait a moment, and look again.
    WaitForRoom,
    /// The tunnel is open.
    Opened(Stages),
    /// It does not open. Where the endpoint broke a rule, the connection is closed with the code and
    /// the words for it.
    Fail { error: ConnectError, close: Option<H3Error> },
}

/// How far opening the tunnel has come.
#[derive(Debug, Clone, Copy, PartialEq, Eq, Structural)]
pub struct Opening {
    /// The adapter's largest packet.
    pub largest: usize,
    pub quic_ms: u128,
    pub settings_ms: u128,
    /// The largest datagram the tunnel needs, once its stream is known.
    pub needed: usize,
}

/// The broken rule a connection is closed for, where an error is one.
pub open spec fn broken_rule(error: ConnectError) -> Option<H3Error> {
    match error {
        ConnectError::H3(broken) => Some(broken),
        _ => None,
    }
}

/// Whether an error is that QUIC cannot be had, for these words.
pub open spec fn is_unavailable(error: ConnectError, words: Seq<char>) -> bool {
    error matches ConnectError::QuicUnavailable(said) && said@ == words
}

/// Whether an error is that the connection cannot carry the packets, for these words.
pub open spec fn is_unfit(error: ConnectError, words: Seq<char>) -> bool {
    error matches ConnectError::H3Unfit(said) && said@ == words
}

/// The name a handshake presents, as it is reported.
pub open spec fn reported_name(presented: &Presented) -> Seq<char> {
    match presented.selected() {
        Handshake::NoSni => "none"@,
        Handshake::Fronted => presented.fronted(),
        _ => CONNECT_SNI@,
    }
}

/// Whether an action is to fail with an error that a failure in the exchange comes to: what the
/// endpoint's streams recorded explains it better than the error it caused.
pub open spec fn fails_exchange(
    action: OpenAction,
    ended: Option<Ended>,
    is_problem: spec_fn(ConnectError) -> bool,
    close: Option<H3Error>,
) -> bool {
    action matches OpenAction::Fail { error, close: with } && with == close && match ended {
        Some(ended) => error == ended_as(ended),
        None => is_problem(error),
    }
}

/// Whether an action is to fail because QUIC cannot be had.
pub open spec fn fails_unavailable(action: OpenAction, words: Seq<char>) -> bool {
    action matches OpenAction::Fail { error, close: None } && is_unavailable(error, words)
}

/// Whether an action is to fail because the connection cannot carry the packets.
pub open spec fn fails_unfit(action: OpenAction, words: Seq<char>) -> bool {
    action matches OpenAction::Fail { error, close: None } && is_unfit(error, words)
}

/// Whether an action is to fail because nothing came back, under the name that was presented.
pub open spec fn fails_unanswered(action: OpenAction, presented: &Presented) -> bool {
    match action {
        OpenAction::Fail { error: ConnectError::H3Unanswered { sni, how }, close: None } => sni@
            == reported_name(presented) && how@ == handshake_name(presented.selected()),
        _ => false,
    }
}

/// Whether an action and a state are what an event in a state comes to.
pub open spec fn opens(
    before: Opening,
    event: OpenEvent,
    ended: Option<Ended>,
    presented: &Presented,
    after: Opening,
    action: OpenAction,
) -> bool {
    match event {
        OpenEvent::NoSession(problem) => after == before && (action matches OpenAction::Fail {
            error: ConnectError::TlsSetup(said),
            close: None,
        } && said@ == tls_text(problem)),
        OpenEvent::NoSocket(said) => after == before && action == (OpenAction::Fail {
            error: ConnectError::Io(said),
            close: None,
        }),
        OpenEvent::NoCrypto(said) => after == before
            && fails_unavailable(
            action,
            "the TLS setup cannot run inside QUIC: "@ + said@,
        ),
        OpenEvent::NotDialled(said) => after == before
            && fails_unavailable(
            action,
            said@,
        ),
        OpenEvent::Connected { ms } => after == (Opening { quic_ms: ms, ..before }) && action
            == OpenAction::OpenControl,
        OpenEvent::HandshakeFailed(said) => after == before
            && fails_unavailable(
            action,
            said@,
        ),
        OpenEvent::HandshakeTimedOut => after == before
            && fails_unavailable(
            action,
            "no answer within 4 s"@,
        ),
        // Extended CONNECT and datagrams may only be used once the endpoint has said it takes them.
        OpenEvent::Offered { settings, ms } => after == (Opening { settings_ms: ms, ..before }) && (
        if !settings.h3_datagram {
            fails_exchange(
                action,
                ended,
                |error: ConnectError|
                    is_unfit(error, "the endpoint does not offer HTTP datagrams"@),
                None,
            )
        } else if !settings.extended_connect {
            fails_exchange(
                action,
                ended,
                |error: ConnectError|
                    is_unfit(error, "the endpoint does not offer extended CONNECT"@),
                None,
            )
        } else {
            action == OpenAction::Request
        }),
        OpenEvent::NoSettings { lost } => after == before && match lost {
            Some(lost) => fails_exchange(
                action,
                ended,
                |error: ConnectError| error == ConnectError::Quic(lost),
                None,
            ),
            None => fails_exchange(
                action,
                ended,
                |error: ConnectError| error == ConnectError::H3(H3Error::ControlClosed),
                Some(H3Error::ControlClosed),
            ),
        },
        OpenEvent::ExchangeFailed(problem) => after == before && fails_exchange(
            action,
            ended,
            |error: ConnectError| error == problem,
            broken_rule(problem),
        ),
        OpenEvent::ExchangeTimedOut => after == before
            && fails_unanswered(action, presented),
        OpenEvent::Responded { status, stream_id } => if 200 <= status < 300 {
            after == (Opening {
                needed: (before.largest + encoded_len(stream_id / 4) + 1) as usize,
                ..before
            }) && action == OpenAction::LookForRoom
        } else {
            after == before && action == (OpenAction::Fail {
                error: ConnectError::H3Refused(status),
                close: None,
            })
        },
        OpenEvent::Room { room, lost, late, ms } => after == before && match room {
            None => fails_unfit(
                action,
                "the endpoint takes no datagrams"@,
            ),
            Some(room) => if room >= before.needed {
                action == OpenAction::Opened(
                    Stages::H3 {
                        quic_ms: before.quic_ms,
                        settings_ms: before.settings_ms,
                        connect_ms: ms,
                    },
                )
            } else if lost is Some {
                action == (OpenAction::Fail { error: ConnectError::Quic(lost->0), close: None })
            } else if late {
                fails_unfit(
                action,
                    "the path takes "@ + digits(room as nat)
                        + "-byte datagrams, and a full packet needs "@ + digits(
                        before.needed as nat,
                    ),
                )
            } else {
                action == OpenAction::WaitForRoom
            },
        },
    }
}

fn fail(error: ConnectError) -> (action: OpenAction)
    ensures
        action == (OpenAction::Fail { error, close: None }),
{
    OpenAction::Fail { error, close: None }
}

/// Fail for a problem in the exchange, or for what the endpoint's streams recorded.
fn fail_exchange(problem: ConnectError, ended: Option<Ended>) -> (action: OpenAction)
    ensures
        action matches OpenAction::Fail { error, close } && close == broken_rule(problem) && error
            == match ended {
            Some(ended) => ended_as(ended),
            None => problem,
        },
{
    let close = match &problem {
        ConnectError::H3(broken) => Some(*broken),
        _ => None,
    };
    let error = match ended {
        Some(ended) => ended.error(),
        None => problem,
    };
    OpenAction::Fail { error, close }
}

impl Opening {
    /// Start opening a tunnel for an adapter with this largest packet.
    pub fn new(largest: usize) -> (opening: Self)
        ensures
            opening == (Opening { largest, quic_ms: 0, settings_ms: 0, needed: 0 }),
    {
        Opening { largest, quic_ms: 0, settings_ms: 0, needed: 0 }
    }

    /// Go on from what happened. `ended` is what the endpoint's streams have recorded meanwhile.
    pub fn step(&mut self, event: OpenEvent, ended: Option<Ended>, presented: &Presented) -> (action:
        OpenAction)
        requires
            old(self).largest <= usize::MAX - 9,
        ensures
            opens(*old(self), event, ended, presented, *final(self), action),
    {
        match event {
            OpenEvent::NoSession(problem) => fail(ConnectError::TlsSetup(problem.text())),
            OpenEvent::NoSocket(said) => fail(ConnectError::Io(said)),
            OpenEvent::NoCrypto(said) => fail(
                ConnectError::QuicUnavailable(
                    joined("the TLS setup cannot run inside QUIC: ", said.as_str()),
                ),
            ),
            OpenEvent::NotDialled(said) => fail(ConnectError::QuicUnavailable(said)),
            OpenEvent::Connected { ms } => {
                self.quic_ms = ms;
                OpenAction::OpenControl
            },
            OpenEvent::HandshakeFailed(said) => fail(ConnectError::QuicUnavailable(said)),
            OpenEvent::HandshakeTimedOut => fail(
                ConnectError::QuicUnavailable(String::from_str("no answer within 4 s")),
            ),
            OpenEvent::Offered { settings, ms } => {
                self.settings_ms = ms;
                if !settings.h3_datagram {
                    fail_exchange(
                        ConnectError::H3Unfit(
                            String::from_str("the endpoint does not offer HTTP datagrams"),
                        ),
                        ended,
                    )
                } else if !settings.extended_connect {
                    fail_exchange(
                        ConnectError::H3Unfit(
                            String::from_str("the endpoint does not offer extended CONNECT"),
                        ),
                        ended,
                    )
                } else {
                    OpenAction::Request
                }
            },
            OpenEvent::NoSettings { lost } => fail_exchange(
                match lost {
                    Some(lost) => ConnectError::Quic(lost),
                    None => ConnectError::H3(H3Error::ControlClosed),
                },
                ended,
            ),
            OpenEvent::ExchangeFailed(problem) => fail_exchange(problem, ended),
            OpenEvent::ExchangeTimedOut => {
                let handshake = crate::transport::handshake::selected(presented);
                let sni = match handshake.sni(presented) {
                    Some(name) => name,
                    None => String::from_str("none"),
                };
                fail(ConnectError::H3Unanswered { sni, how: handshake.name() })
            },
            OpenEvent::Responded { status, stream_id } => {
                if !(200 <= status && status < 300) {
                    return fail(ConnectError::H3Refused(status));
                }
                self.needed = self.largest + datagram_overhead(stream_id);
                OpenAction::LookForRoom
            },
            OpenEvent::Room { room, lost, late, ms } => match room {
                None => fail(
                    ConnectError::H3Unfit(String::from_str("the endpoint takes no datagrams")),
                ),
                Some(room) => {
                    if room >= self.needed {
                        return OpenAction::Opened(
                            Stages::H3 {
                                quic_ms: self.quic_ms,
                                settings_ms: self.settings_ms,
                                connect_ms: ms,
                            },
                        );
                    }
                    match lost {
                        Some(lost) => fail(ConnectError::Quic(lost)),
                        None => {
                            if !late {
                                return OpenAction::WaitForRoom;
                            }
                            let taken = decimal(room as u128);
                            let needed = decimal(self.needed as u128);
                            let start = joined("the path takes ", taken.as_str());
                            fail(
                                ConnectError::H3Unfit(
                                    between(
                                        start.as_str(),
                                        "-byte datagrams, and a full packet needs ",
                                        needed.as_str(),
                                    ),
                                ),
                            )
                        },
                    }
                },
            },
        }
    }
}

/// The streams the endpoint opens.
#[derive(Debug, Clone, Copy, PartialEq, Eq, Structural)]
pub struct PeerStreams {
    pub control_seen: bool,
}

/// How a stream the endpoint opened is read.
#[derive(Debug, Clone, Copy, PartialEq, Eq)]
pub enum StreamUse {
    /// As its control stream.
    Control,
    /// To its end, acting on nothing: with no dynamic table on either side there is nothing on it.
    Drain,
    /// Not at all: it is refused with this code. Push was never enabled, and anything else is a type
    /// this side does not know.
    Stop(u64),
    /// The endpoint broke a rule by opening it.
    Broke(H3Error),
}

impl PeerStreams {
    pub fn new() -> (streams: Self)
        ensures
            !streams.control_seen,
    {
        PeerStreams { control_seen: false }
    }

    /// A stream opened with this type.
    pub fn opened(&mut self, kind: u64) -> (usage: StreamUse)
        ensures
            usage == if kind == stream::CONTROL {
                if old(self).control_seen {
                    StreamUse::Broke(H3Error::SecondControl)
                } else {
                    StreamUse::Control
                }
            } else if kind == stream::QPACK_ENCODER || kind == stream::QPACK_DECODER {
                StreamUse::Drain
            } else {
                StreamUse::Stop(code::STREAM_CREATION_ERROR)
            },
            final(self).control_seen == (old(self).control_seen || kind == stream::CONTROL),
    {
        if kind == stream::CONTROL {
            let seen = self.control_seen;
            self.control_seen = true;
            if seen {
                StreamUse::Broke(H3Error::SecondControl)
            } else {
                StreamUse::Control
            }
        } else if kind == stream::QPACK_ENCODER || kind == stream::QPACK_DECODER {
            StreamUse::Drain
        } else {
            StreamUse::Stop(code::STREAM_CREATION_ERROR)
        }
    }
}

impl Default for PeerStreams {
    fn default() -> (streams: Self)
        ensures
            !streams.control_seen,
    {
        PeerStreams::new()
    }
}

/// What the endpoint's control stream says next, and what is left of it. Nothing where more of it
/// has to arrive first.
pub open spec fn control_next(pending: Pending, settled: bool) -> (
    Result<Option<ControlEvent>, H3Error>,
    Pending,
    bool,
)
    decreases pending.kept.len(),
{
    match next(pending) {
        (Next::Partial, left) => (Ok(None), left, settled),
        (Next::TooLong(kind, length), left) => (
            Err(H3Error::FrameTooLong { kind, length }),
            left,
            settled,
        ),
        (Next::Whole(kind, payload), left) => {
            let now = settled || kind == frame::SETTINGS;
            match control_event(settled, kind, payload) {
                Err(error) => (Err(error), left, now),
                Ok(Some(event)) => (Ok(Some(event)), left, now),
                Ok(None) => if left.kept.len() < pending.kept.len() {
                    control_next(left, now)
                } else {
                    (Ok(None), left, now)
                },
            }
        },
    }
}

/// A whole frame takes bytes off a stream.
proof fn lemma_next_takes(pending: Pending)
    ensures
        match next(pending) {
            (Next::Whole(_, _), left) => left.kept.len() < pending.kept.len(),
            (_, left) => left.kept.len() <= pending.kept.len(),
        },
    decreases pending.kept.len(),
{
    let here = crate::transport::http3::discarded(pending);
    assert(here.kept.len() <= pending.kept.len());
    if here.skipping == 0 {
        crate::transport::http3::lemma_header(here.kept);
        match crate::transport::http3::frame_header(here.kept) {
            Some((kind, length, header)) => {
                if !crate::transport::http3::is_known_spec(kind) && 0 < header
                    <= here.kept.len() {
                    lemma_next_takes(
                        Pending { kept: here.kept.skip(header), skipping: length as nat },
                    );
                }
            },
            None => {},
        }
    }
}

/// The endpoint's control stream, as far as it has been read.
#[derive(Debug)]
pub struct ControlReader {
    reader: FrameReader,
    control: ControlStream,
}

impl ControlReader {
    /// The bytes kept, and whether SETTINGS has arrived.
    pub closed spec fn state(&self) -> (Pending, bool) {
        (self.reader@, self.control.settled())
    }

    /// Read a control stream whose type has been taken off it.
    pub fn new(reader: FrameReader) -> (control: Self)
        ensures
            control.state() == (reader@, false),
    {
        ControlReader { reader, control: ControlStream::default() }
    }

    /// Add what the stream delivered.
    pub fn extend(&mut self, chunk: &[u8])
        requires
            old(self).state().0.kept.len() + chunk@.len() <= isize::MAX,
        ensures
            final(self).state() == (
                (Pending { kept: old(self).state().0.kept + chunk@, ..old(self).state().0 }),
                old(self).state().1,
            ),
    {
        self.reader.extend(chunk);
    }

    /// What the stream says next, or `None` until more of it arrives.
    pub fn next_event(&mut self) -> (event: Result<Option<ControlEvent>, H3Error>)
        ensures
            (event, final(self).state().0, final(self).state().1) == control_next(
                old(self).state().0,
                old(self).state().1,
            ),
    {
        let ghost whole = control_next(self.state().0, self.state().1);
        loop
            invariant
                whole == control_next(self.state().0, self.state().1),
                whole == control_next(old(self).state().0, old(self).state().1),
            decreases self.state().0.kept.len(),
        {
            proof {
                lemma_next_takes(self.state().0);
            }
            match self.reader.next_frame() {
                Err(error) => {
                    return Err(error);
                },
                Ok(None) => {
                    return Ok(None);
                },
                Ok(Some(frame)) => match self.control.on_frame(frame) {
                    Err(error) => {
                        return Err(error);
                    },
                    Ok(Some(event)) => {
                        return Ok(Some(event));
                    },
                    Ok(None) => {},
                },
            }
        }
    }

    /// The stream ended while the connection lives, which it must not.
    pub fn ended(&self) -> (error: H3Error)
        ensures
            error == H3Error::ControlClosed,
    {
        H3Error::ControlClosed
    }
}

/// Why the tunnel ended, once the endpoint said it is going away: kept to the first reason, since a
/// rule broken earlier says more than the goodbye.
pub fn going_away(ended: Option<Ended>) -> (now: Ended)
    ensures
        now == match ended {
            Some(first) => first,
            None => Ended::GoingAway,
        },
{
    match ended {
        Some(first) => first,
        None => Ended::GoingAway,
    }
}

/// What the request stream answers next, and what is left of it. Nothing where more of it has to
/// arrive first.
pub open spec fn response_next(pending: Pending) -> (Result<Option<u16>, H3Error>, Pending)
    decreases pending.kept.len(),
{
    match next(pending) {
        (Next::Partial, left) => (Ok(None), left),
        (Next::TooLong(kind, length), left) => (Err(H3Error::FrameTooLong { kind, length }), left),
        (Next::Whole(kind, payload), left) => match response_status_spec(kind, payload) {
            Err(error) => (Err(error), left),
            Ok(Some(status)) => (Ok(Some(status)), left),
            Ok(None) => if left.kept.len() < pending.kept.len() {
                response_next(left)
            } else {
                (Ok(None), left)
            },
        },
    }
}

/// The request stream, as far as it has been read.
#[derive(Debug)]
pub struct ResponseReader {
    reader: FrameReader,
}

impl View for ResponseReader {
    type V = Pending;

    closed spec fn view(&self) -> Pending {
        self.reader@
    }
}

impl ResponseReader {
    pub fn new() -> (response: Self)
        ensures
            response@ == (Pending { kept: Seq::empty(), skipping: 0 }),
    {
        ResponseReader { reader: FrameReader::new() }
    }

    /// Add what the stream delivered.
    pub fn extend(&mut self, chunk: &[u8])
        requires
            old(self)@.kept.len() + chunk@.len() <= isize::MAX,
        ensures
            final(self)@ == (Pending { kept: old(self)@.kept + chunk@, ..old(self)@ }),
    {
        self.reader.extend(chunk);
    }

    /// The status of the final response, or `None` until it has all arrived. Responses that only say
    /// more is coming are passed over.
    pub fn status(&mut self) -> (status: Result<Option<u16>, H3Error>)
        ensures
            (status, final(self)@) == response_next(old(self)@),
    {
        let ghost whole = response_next(self@);
        loop
            invariant
                whole == response_next(self@),
                whole == response_next(old(self)@),
            decreases self@.kept.len(),
        {
            proof {
                lemma_next_takes(self@);
            }
            match self.reader.next_frame() {
                Err(error) => {
                    return Err(error);
                },
                Ok(None) => {
                    return Ok(None);
                },
                Ok(Some(frame)) => match response_status(frame) {
                    Err(error) => {
                        return Err(error);
                    },
                    Ok(Some(status)) => {
                        return Ok(Some(status));
                    },
                    Ok(None) => {},
                },
            }
        }
    }

    /// The stream ended before the response did.
    pub fn ended(&self) -> (error: H3Error)
        ensures
            error == H3Error::Message("ended before it began"),
    {
        H3Error::Message("ended before it began")
    }
}

impl Default for ResponseReader {
    fn default() -> (response: Self)
        ensures
            response@ == (Pending { kept: Seq::empty(), skipping: 0 }),
    {
        ResponseReader::new()
    }
}

/// One packet on its way out, as the datagram it becomes. A packet whose hop limit is spent is left
/// out rather than reported: that is what a router does with one.
pub fn outgoing(stream_id: u64, packet: &mut Vec<u8>) -> (out: Option<Bytes>)
    requires
        old(packet)@.len() + 9 <= isize::MAX,
    ensures
        match one_hop_on(old(packet)@) {
            Some(on) => final(packet)@ == on && out is Some && frozen(out->0) == datagram_bytes(
                stream_id,
                on,
            ),
            None => final(packet)@ == old(packet)@ && out is None,
        },
{
    if !decrement_hop_limit(packet.as_mut_slice()) {
        return None;
    }
    Some(datagram(stream_id, packet.as_slice()))
}

/// Why a datagram was not sent.
#[derive(Debug)]
pub enum SendProblem {
    /// It does not fit the path, which takes this many bytes, or none.
    TooLarge { room: Option<usize> },
    /// The endpoint takes no datagrams, or this side does not send any.
    NotTaken,
    /// The connection was lost.
    Lost(String),
}

/// What a datagram that was not sent is reported as.
///
/// The room was there when the tunnel opened; where it is gone, the path's MTU fell. Every full-size
/// packet from here on would be lost, which the connections inside would read as a black hole, so
/// the tunnel ends instead and a fresh one decides again whether this path can carry it.
pub fn not_sent(problem: SendProblem, packet: usize, ended: Option<Ended>) -> (error: ConnectError)
    ensures
        match problem {
            SendProblem::TooLarge { room } => is_unfit(
                error,
                "a "@ + digits(packet as nat) + "-byte packet no longer fits the path, which now takes "@
                    + digits(
                    match room {
                        Some(room) => room as nat,
                        None => 0,
                    },
                ) + " bytes"@,
            ),
            SendProblem::NotTaken => is_unfit(error, "the endpoint stopped taking datagrams"@),
            SendProblem::Lost(lost) => error == match ended {
                Some(ended) => ended_as(ended),
                None => ConnectError::Quic(lost),
            },
        },
{
    match problem {
        SendProblem::TooLarge { room } => {
            let size = decimal(packet as u128);
            let now = decimal(
                match room {
                    Some(room) => room as u128,
                    None => 0,
                },
            );
            let start = between(
                "a ",
                size.as_str(),
                "-byte packet no longer fits the path, which now takes ",
            );
            ConnectError::H3Unfit(between(start.as_str(), now.as_str(), " bytes"))
        },
        SendProblem::NotTaken => ConnectError::H3Unfit(
            String::from_str("the endpoint stopped taking datagrams"),
        ),
        SendProblem::Lost(lost) => gone(ended, lost),
    }
}

/// What looking for word from the endpoint found.
#[derive(Debug, PartialEq, Eq)]
pub enum Heard {
    /// The connection was lost.
    Lost(ConnectError),
    /// Something arrived.
    Answered,
    /// Nothing yet: wait a moment, and look again.
    Wait,
}

/// Whether the endpoint was heard from, since `before` datagrams had arrived. While the connection
/// lives something arrives at least every [`KEEP_ALIVE`], whatever the traffic.
pub fn heard(before: u64, now: u64, lost: Option<String>, ended: Option<Ended>) -> (heard: Heard)
    ensures
        heard == match lost {
            Some(lost) => Heard::Lost(
                match ended {
                    Some(ended) => ended_as(ended),
                    None => ConnectError::Quic(lost),
                },
            ),
            None => if now > before {
                Heard::Answered
            } else {
                Heard::Wait
            },
        },
{
    match lost {
        Some(lost) => Heard::Lost(gone(ended, lost)),
        None => if now > before {
            Heard::Answered
        } else {
            Heard::Wait
        },
    }
}

/// The name a QUIC handshake is made under: the one presented, or the endpoint's own address where
/// none is, which puts none on the wire.
pub fn server_name(presented: &Presented, address: IpAddr) -> (name: String)
    ensures
        name@ == match presented.selected() {
            Handshake::NoSni => shown(address),
            Handshake::Fronted => presented.fronted(),
            _ => CONNECT_SNI@,
        },
{
    match crate::transport::handshake::selected(presented).sni(presented) {
        Some(name) => name,
        None => show(address),
    }
}

/// A tunnel opens only over a path that fits the adapter's largest packet behind its prefix, and
/// only once the endpoint has said it takes datagrams.
pub proof fn law_a_tunnel_opens_only_where_a_full_packet_fits(
    before: Opening,
    event: OpenEvent,
    ended: Option<Ended>,
    presented: &Presented,
    after: Opening,
    action: OpenAction,
)
    requires
        opens(before, event, ended, presented, after, action),
        action is Opened,
    ensures
        event matches OpenEvent::Room { room: Some(room), .. } && room >= before.needed,
{
}

/// The request goes out only to an endpoint that offered both HTTP datagrams and extended CONNECT.
pub proof fn law_the_request_waits_for_what_the_endpoint_offers(
    before: Opening,
    event: OpenEvent,
    ended: Option<Ended>,
    presented: &Presented,
    after: Opening,
    action: OpenAction,
)
    requires
        opens(before, event, ended, presented, after, action),
        action is Request,
    ensures
        event matches OpenEvent::Offered { settings, .. } && settings.h3_datagram
            && settings.extended_connect,
{
}

/// A refusal over HTTP/3 is never reported as the endpoint declining the device.
pub proof fn law_an_http3_refusal_is_not_about_the_device(
    before: Opening,
    status: u16,
    stream_id: u64,
    ended: Option<Ended>,
    presented: &Presented,
    after: Opening,
    action: OpenAction,
)
    requires
        opens(
            before,
            OpenEvent::Responded { status, stream_id },
            ended,
            presented,
            after,
            action,
        ),
        !(200 <= status < 300),
    ensures
        action matches OpenAction::Fail { error, .. } && error == ConnectError::H3Refused(status),
{
}

/// The answer to the request decides: a status from 200 to 299 goes on to see whether the path fits a
/// full packet as a datagram, and every other declines the tunnel with that status.
pub proof fn law_the_answer_decides(
    before: Opening,
    status: u16,
    stream_id: u64,
    ended: Option<Ended>,
    presented: &Presented,
    after: Opening,
    action: OpenAction,
    packet: Seq<u8>,
)
    requires
        before.largest <= usize::MAX - 9,
        opens(
            before,
            OpenEvent::Responded { status, stream_id },
            ended,
            presented,
            after,
            action,
        ),
        packet.len() <= before.largest,
    ensures
        action is LookForRoom <==> status / 100 == 2,
        status / 100 != 2 ==> action == (OpenAction::Fail {
            error: ConnectError::H3Refused(status),
            close: None,
        }),
        status / 100 == 2 ==> datagram_bytes(stream_id, packet).len() <= after.needed,
        status / 100 == 2 && packet.len() == before.largest ==> datagram_bytes(
            stream_id,
            packet,
        ).len() == after.needed,
{
    crate::transport::http3::law_datagram_round_trip(stream_id, packet, stream_id);
}

/// A path that takes as large a datagram as is needed opens the tunnel, whatever else is so; one that
/// does not is looked at again until the connection is lost or the time is up.
pub proof fn law_room_enough_opens_the_tunnel(
    before: Opening,
    room: usize,
    lost: Option<String>,
    late: bool,
    ms: u128,
    ended: Option<Ended>,
    presented: &Presented,
    after: Opening,
    action: OpenAction,
)
    requires
        opens(
            before,
            OpenEvent::Room { room: Some(room), lost, late, ms },
            ended,
            presented,
            after,
            action,
        ),
    ensures
        action is Opened <==> room >= before.needed,
        action is WaitForRoom <==> room < before.needed && lost is None && !late,
        action is Fail <==> room < before.needed && (lost is Some || late),
{
}

/// The request stream is read up to the response: HEADERS that only say more is coming are passed
/// over, however many; the first status that is final is the answer, and what is behind it is left
/// where it is.
pub proof fn law_the_first_final_status_is_the_answer(
    frames: Seq<(u64, Seq<u8>)>,
    payload: Seq<u8>,
    status: u16,
    rest: Seq<u8>,
)
    requires
        forall|i: int|
            0 <= i < frames.len() ==> (#[trigger] frames[i]).1.len() <= 65_535 && frames[i].0 == 0x01
                && response_status_spec(0x01, frames[i].1) == Ok::<Option<u16>, H3Error>(None),
        payload.len() <= 65_535,
        response_status_spec(0x01, payload) == Ok::<Option<u16>, H3Error>(Some(status)),
    ensures
        response_next(
            Pending { kept: sent(frames) + frame_bytes(0x01, payload) + rest, skipping: 0 },
        ) == (Ok::<Option<u16>, H3Error>(Some(status)), (Pending { kept: rest, skipping: 0 })),
    decreases frames.len(),
{
    if frames.len() == 0 {
        assert(sent(frames) =~= Seq::<u8>::empty());
        assert(sent(frames) + frame_bytes(0x01, payload) + rest =~= frame_bytes(0x01, payload)
            + rest);
        crate::transport::http3::law_frame_round_trip(0x01, payload, rest);
    } else {
        let others = frames.drop_first();
        assert forall|i: int| 0 <= i < others.len() implies (#[trigger] others[i]).1.len() <= 65_535
            && others[i].0 == 0x01 && response_status_spec(0x01, others[i].1) == Ok::<
            Option<u16>,
            H3Error,
        >(None) by {
            assert(others[i] == frames[i + 1]);
        }
        law_the_first_final_status_is_the_answer(others, payload, status, rest);
        let behind = sent(others) + frame_bytes(0x01, payload) + rest;
        crate::transport::http3::law_frame_round_trip(0x01, frames[0].1, behind);
        assert(sent(frames) =~= frame_bytes(0x01, frames[0].1) + sent(others));
        assert(sent(frames) + frame_bytes(0x01, payload) + rest =~= frame_bytes(
            0x01,
            frames[0].1,
        ) + behind);
    }
}

/// Whatever the endpoint's streams recorded explains a failure of the exchange better than the error
/// it caused, and where they recorded nothing the error is told as it is: a broken rule closes the
/// connection with what it is.
pub proof fn law_what_was_recorded_explains_a_failure(
    before: Opening,
    problem: ConnectError,
    ended: Option<Ended>,
    presented: &Presented,
    after: Opening,
    action: OpenAction,
)
    requires
        opens(before, OpenEvent::ExchangeFailed(problem), ended, presented, after, action),
    ensures
        after == before,
        action is Fail,
        ended == Some(Ended::GoingAway) ==> action->Fail_error == ConnectError::GoingAway,
        ended matches Some(Ended::Broke(rule)) ==> action->Fail_error == ConnectError::H3(rule),
        ended is None ==> action->Fail_error == problem,
        problem matches ConnectError::H3(rule) ==> action->close == Some(rule),
        !(problem is H3) ==> action->close is None,
{
}

/// An endpoint that does not offer HTTP datagrams, or extended CONNECT, is not asked; one that offers
/// both is, and the time it took to say so is kept.
pub proof fn law_an_endpoint_that_offers_both_is_asked(
    before: Opening,
    settings: PeerSettings,
    ms: u128,
    ended: Option<Ended>,
    presented: &Presented,
    after: Opening,
    action: OpenAction,
)
    requires
        opens(before, OpenEvent::Offered { settings, ms }, ended, presented, after, action),
    ensures
        action is Request <==> settings.h3_datagram && settings.extended_connect,
        action is Fail <==> !(settings.h3_datagram && settings.extended_connect),
        action is Fail ==> action->close is None,
        after.settings_ms == ms && after.quic_ms == before.quic_ms && after.largest
            == before.largest && after.needed == before.needed,
{
}

/// A handshake that is not answered, or fails, is QUIC that cannot be had; an exchange that is not
/// answered is told with the name that was presented. Neither is the endpoint declining the tunnel.
pub proof fn law_silence_is_told_as_silence(
    before: Opening,
    said: String,
    ended: Option<Ended>,
    presented: &Presented,
    after: Opening,
    action: OpenAction,
)
    ensures
        opens(before, OpenEvent::HandshakeTimedOut, ended, presented, after, action) ==> action is Fail
            && action->Fail_error is QuicUnavailable && action->close is None,
        opens(before, OpenEvent::HandshakeFailed(said), ended, presented, after, action)
            ==> action is Fail && (action->Fail_error matches ConnectError::QuicUnavailable(words)
            && words@ == said@) && action->close is None,
        opens(before, OpenEvent::ExchangeTimedOut, ended, presented, after, action) ==> action is Fail
            && (action->Fail_error matches ConnectError::H3Unanswered { sni, how } && sni@
            == reported_name(presented)) && action->close is None,
{
}

/// The control stream is read up to what it says: what is about push is passed over, however much, and
/// the first goodbye or broken rule behind it is told.
pub proof fn law_the_control_stream_is_read_up_to_what_it_says(
    frames: Seq<(u64, Seq<u8>)>,
    kind: u64,
    payload: Seq<u8>,
    rest: Seq<u8>,
)
    requires
        forall|i: int|
            0 <= i < frames.len() ==> (#[trigger] frames[i]).1.len() <= 65_535 && (frames[i].0
                == 0x03 || frames[i].0 == 0x0d),
        payload.len() <= 65_535,
        kind <= 0x09,
        kind != 0x03,
    ensures
        control_next(
            Pending { kept: sent(frames) + frame_bytes(kind, payload) + rest, skipping: 0 },
            true,
        ) == (control_event(true, kind, payload), Pending { kept: rest, skipping: 0 }, true),
    decreases frames.len(),
{
    if frames.len() == 0 {
        assert(sent(frames) =~= Seq::<u8>::empty());
        assert(sent(frames) + frame_bytes(kind, payload) + rest =~= frame_bytes(kind, payload)
            + rest);
        crate::transport::http3::law_frame_round_trip(kind, payload, rest);
    } else {
        let others = frames.drop_first();
        assert forall|i: int| 0 <= i < others.len() implies (#[trigger] others[i]).1.len() <= 65_535
            && (others[i].0 == 0x03 || others[i].0 == 0x0d) by {
            assert(others[i] == frames[i + 1]);
        }
        law_the_control_stream_is_read_up_to_what_it_says(others, kind, payload, rest);
        let behind = sent(others) + frame_bytes(kind, payload) + rest;
        let first = frames[0];
        crate::transport::http3::law_frame_round_trip(first.0, first.1, behind);
        assert(sent(frames) =~= frame_bytes(first.0, first.1) + sent(others));
        let whole = frame_bytes(first.0, first.1) + behind;
        assert(sent(frames) + frame_bytes(kind, payload) + rest =~= whole);
        assert(whole.len() > behind.len());
    }
}

} // verus!
