//! The HTTP/2 carrier: TCP, TLS, HTTP/2, one CONNECT, and packets as capsules on its stream.
//!
//! The request is not the extended CONNECT of the CONNECT-IP standard. It is a plain HTTP/2
//! `CONNECT` with two headers naming the protocol, and the request body becomes the capsule stream:
//! the framing is standard, the negotiation is not.
//!
//! Once the response is a success, the two halves of the stream are the tunnel: capsules written
//! into the request body carry packets out, capsules read from the response body carry them back.

use bytes::{Bytes, BytesMut};
use vstd::prelude::*;
use vstd::string::StringExecFns;
use crate::address::written::{address_written, parse};
use crate::address::IpAddr;
use crate::buffer::{frozen, held};
use crate::transport::capsule::{
    capsule, encode_datagram_into, front, law_capsule_round_trip, law_capsules_survive_splitting,
    take_capsule, Front, TooLong, DATAGRAM, MAX_CAPSULE,
};
use crate::transport::connect_ip::{decrement_hop_limit, one_hop_on, ConnectError, Stages};
use crate::transport::handshake::{handshake_name, Presented};
use crate::transport::quic::reported_name;
use crate::transport::tls::{tls_text, TlsSetupError};
use crate::transport::varint;
use crate::transport::varint::encoded;

verus! {

/// The authority the CONNECT request names. Not a host this core resolves or dials: the connection
/// is already open to the endpoint, and this is the tunnel's own address inside it.
pub const CONNECT_AUTHORITY: &'static str = "cloudflareaccess.com:443";

/// The port the endpoint is dialled on.
pub const PORT: u16 = 443;

/// How much the endpoint may send on the tunnel's stream, and on the connection, before it is given
/// room for more.
///
/// Set rather than left at the default, because one stream carries every packet the machine sends.
/// HTTP/2 starts at 64 KiB, and a window that small costs one round trip per window, which is the
/// ceiling on throughput long before the link is.
pub const STREAM_WINDOW: u32 = 8 * 1024 * 1024;

pub const CONNECTION_WINDOW: u32 = 16 * 1024 * 1024;

/// The headers of the request. The first two are what select CONNECT-IP on a plain CONNECT.
pub fn request_headers() -> (headers: [(&'static str, &'static str); 3])
    ensures
        headers@ == seq![
            ("cf-connect-proto", "cf-connect-ip"),
            ("pq-enabled", "false"),
            ("user-agent", ""),
        ],
{
    let headers = [("cf-connect-proto", "cf-connect-ip"), ("pq-enabled", "false"), ("user-agent", "")];
    assert(headers@ =~= seq![
        ("cf-connect-proto", "cf-connect-ip"),
        ("pq-enabled", "false"),
        ("user-agent", ""),
    ]);
    headers
}

/// The address to dial, out of the text the identity keeps.
pub fn endpoint(written: &str) -> (address: Result<IpAddr, ConnectError>)
    ensures
        match address {
            Ok(address) => address_written(written@) == Some(address),
            Err(ConnectError::BadEndpoint(text)) => address_written(written@) is None && text@
                == written@,
            Err(_) => false,
        },
{
    match parse(written) {
        Some(address) => Ok(address),
        None => Err(ConnectError::BadEndpoint(String::from_str(written))),
    }
}

/// What opening the tunnel has come to. Times are in milliseconds, each of its own stage.
#[derive(Debug)]
pub enum OpenEvent {
    /// The TLS session could not be built from the identity.
    NoSession(TlsSetupError),
    /// The endpoint's address, as the identity keeps it, once there is a session.
    Endpoint(String),
    Dialled { ms: u128 },
    NotDialled(String),
    /// The TLS handshake finished.
    Secured { ms: u128 },
    /// It failed: the connection ended where more was due, or not, and what was said about it.
    NotSecured { cut: bool, said: String },
    /// The HTTP/2 connection is up.
    Ready { ms: u128 },
    NotReady(String),
    /// The request could not be built.
    NoRequest(String),
    /// It could not be sent, or was not answered.
    NotAnswered(String),
    Responded { status: u16, ms: u128 },
}

/// What to do about it.
#[derive(Debug, PartialEq, Eq)]
pub enum OpenAction {
    Dial(IpAddr),
    Secure,
    StartHttp2,
    /// Send the CONNECT. Its body stays open for as long as the tunnel lives, because it is the
    /// tunnel.
    Request,
    Opened(Stages),
    Fail(ConnectError),
}

/// How far opening the tunnel has come.
#[derive(Debug, Clone, Copy, PartialEq, Eq, Structural)]
pub struct Opening {
    pub tcp_ms: u128,
    pub tls_ms: u128,
    pub http2_ms: u128,
}

/// Whether an action and a state are what an event in a state comes to.
pub open spec fn opens(
    before: Opening,
    event: OpenEvent,
    presented: &Presented,
    after: Opening,
    action: OpenAction,
) -> bool {
    match event {
        OpenEvent::NoSession(problem) => after == before && (action matches OpenAction::Fail(
            ConnectError::TlsSetup(said),
        ) && said@ == tls_text(problem)),
        OpenEvent::Endpoint(written) => after == before && match address_written(written@) {
            Some(address) => action == OpenAction::Dial(address),
            None => action matches OpenAction::Fail(ConnectError::BadEndpoint(text)) && text@
                == written@,
        },
        OpenEvent::Dialled { ms } => after == (Opening { tcp_ms: ms, ..before }) && action
            == OpenAction::Secure,
        OpenEvent::NotDialled(said) => after == before && action == OpenAction::Fail(
            ConnectError::Io(said),
        ),
        OpenEvent::Secured { ms } => after == (Opening { tls_ms: ms, ..before }) && action
            == OpenAction::StartHttp2,
        OpenEvent::NotSecured { cut, said } => after == before && if cut {
            action matches OpenAction::Fail(ConnectError::HandshakeCut { sni, how }) && sni@
                == reported_name(presented) && how@ == handshake_name(presented.selected())
        } else {
            action == OpenAction::Fail(ConnectError::Io(said))
        },
        OpenEvent::Ready { ms } => after == (Opening { http2_ms: ms, ..before }) && action
            == OpenAction::Request,
        OpenEvent::NotReady(said) => after == before && action == OpenAction::Fail(
            ConnectError::H2(said),
        ),
        OpenEvent::NoRequest(said) => after == before && action == OpenAction::Fail(
            ConnectError::Request(said),
        ),
        OpenEvent::NotAnswered(said) => after == before && action == OpenAction::Fail(
            ConnectError::H2(said),
        ),
        OpenEvent::Responded { status, ms } => after == before && action == if 200 <= status < 300 {
            OpenAction::Opened(
                Stages::H2 {
                    tcp_ms: before.tcp_ms,
                    tls_ms: before.tls_ms,
                    http2_ms: before.http2_ms,
                    connect_ms: ms,
                },
            )
        } else {
            OpenAction::Fail(ConnectError::Refused(status))
        },
    }
}

impl Opening {
    pub fn new() -> (opening: Self)
        ensures
            opening == (Opening { tcp_ms: 0, tls_ms: 0, http2_ms: 0 }),
    {
        Opening { tcp_ms: 0, tls_ms: 0, http2_ms: 0 }
    }

    /// Go on from what happened.
    ///
    /// A handshake that ends in end-of-file said nothing about why: no alert, no ServerHello, just a
    /// closed connection. On a filtered link that is what a blocked name looks like from here: the
    /// transport is fine, and the same endpoint answers normally under a name nobody filters. Naming
    /// it beats reporting an unexplained end, because the fix is not in this core.
    pub fn step(&mut self, event: OpenEvent, presented: &Presented) -> (action: OpenAction)
        ensures
            opens(*old(self), event, presented, *final(self), action),
    {
        match event {
            OpenEvent::NoSession(problem) => OpenAction::Fail(
                ConnectError::TlsSetup(problem.text()),
            ),
            OpenEvent::Endpoint(written) => match endpoint(written.as_str()) {
                Ok(address) => OpenAction::Dial(address),
                Err(problem) => OpenAction::Fail(problem),
            },
            OpenEvent::Dialled { ms } => {
                self.tcp_ms = ms;
                OpenAction::Secure
            },
            OpenEvent::NotDialled(said) => OpenAction::Fail(ConnectError::Io(said)),
            OpenEvent::Secured { ms } => {
                self.tls_ms = ms;
                OpenAction::StartHttp2
            },
            OpenEvent::NotSecured { cut, said } => {
                if !cut {
                    return OpenAction::Fail(ConnectError::Io(said));
                }
                let handshake = crate::transport::handshake::selected(presented);
                let sni = match handshake.sni(presented) {
                    Some(name) => name,
                    None => String::from_str("none"),
                };
                OpenAction::Fail(ConnectError::HandshakeCut { sni, how: handshake.name() })
            },
            OpenEvent::Ready { ms } => {
                self.http2_ms = ms;
                OpenAction::Request
            },
            OpenEvent::NotReady(said) => OpenAction::Fail(ConnectError::H2(said)),
            OpenEvent::NoRequest(said) => OpenAction::Fail(ConnectError::Request(said)),
            OpenEvent::NotAnswered(said) => OpenAction::Fail(ConnectError::H2(said)),
            OpenEvent::Responded { status, ms } => {
                if 200 <= status && status < 300 {
                    OpenAction::Opened(
                        Stages::H2 {
                            tcp_ms: self.tcp_ms,
                            tls_ms: self.tls_ms,
                            http2_ms: self.http2_ms,
                            connect_ms: ms,
                        },
                    )
                } else {
                    OpenAction::Fail(ConnectError::Refused(status))
                }
            },
        }
    }
}

impl Default for Opening {
    fn default() -> (opening: Self)
        ensures
            opening == (Opening { tcp_ms: 0, tls_ms: 0, http2_ms: 0 }),
    {
        Opening::new()
    }
}

/// What of a run of packets goes out: each that has a hop left, one hop on, in the order given.
pub open spec fn going_on(packets: Seq<Vec<u8>>) -> Seq<Seq<u8>>
    decreases packets.len(),
{
    if packets.len() == 0 {
        Seq::empty()
    } else {
        let before = going_on(packets.drop_last());
        match one_hop_on(packets.last()@) {
            Some(on) => before.push(on),
            None => before,
        }
    }
}

/// Packets as capsules, one behind the other.
pub open spec fn capsules(payloads: Seq<Seq<u8>>) -> Seq<u8>
    decreases payloads.len(),
{
    if payloads.len() == 0 {
        Seq::empty()
    } else {
        capsules(payloads.drop_last()) + capsule(payloads.last())
    }
}

/// The most bytes a run of packets takes as capsules.
pub open spec fn most(packets: Seq<Vec<u8>>) -> nat
    decreases packets.len(),
{
    if packets.len() == 0 {
        0
    } else {
        most(packets.drop_last()) + packets.last()@.len() + 9
    }
}

/// What becomes of a packet that is handed over: one hop on where it has a hop left.
pub open spec fn left_behind(packet: Seq<u8>) -> Seq<u8> {
    match one_hop_on(packet) {
        Some(on) => on,
        None => packet,
    }
}

proof fn lemma_most_grows(packets: Seq<Vec<u8>>, n: int)
    requires
        0 <= n <= packets.len(),
    ensures
        most(packets.take(n)) <= most(packets),
    decreases packets.len(),
{
    if n < packets.len() {
        lemma_most_grows(packets.drop_last(), n);
        assert(packets.drop_last().take(n) =~= packets.take(n));
    } else {
        assert(packets.take(n) =~= packets);
    }
}

/// Put one packet at the end of what goes out, if it has a hop left.
fn stage_one(staging: &mut BytesMut, packet: &mut Vec<u8>)
    requires
        held(*old(staging)).len() + old(packet)@.len() + 9 <= isize::MAX,
        old(packet)@.len() <= varint::MAX,
    ensures
        final(packet)@ == left_behind(old(packet)@),
        match one_hop_on(old(packet)@) {
            Some(on) => held(*final(staging)) == held(*old(staging)) + capsule(on)
                && capsule(on).len() <= old(packet)@.len() + 9,
            None => held(*final(staging)) == held(*old(staging)),
        },
{
    if decrement_hop_limit(packet.as_mut_slice()) {
        encode_datagram_into(staging, packet.as_slice());
        proof {
            crate::transport::connect_ip::law_forwarding_spends_a_hop_and_verifies(old(packet)@);
        }
    }
}

/// One packet more in a run.
proof fn lemma_one_more(before: Seq<u8>, packets: Seq<Vec<u8>>, n: int)
    requires
        0 <= n < packets.len(),
    ensures
        most(packets.take(n + 1)) == most(packets.take(n)) + packets[n]@.len() + 9,
        before + capsules(going_on(packets.take(n + 1))) == match one_hop_on(packets[n]@) {
            Some(on) => before + capsules(going_on(packets.take(n))) + capsule(on),
            None => before + capsules(going_on(packets.take(n))),
        },
{
    let upto = packets.take(n + 1);
    let ready = going_on(packets.take(n));
    assert(upto.drop_last() =~= packets.take(n));
    if let Some(on) = one_hop_on(packets[n]@) {
        assert(ready.push(on).drop_last() =~= ready);
        assert(before + capsules(going_on(upto)) =~= before + capsules(ready) + capsule(on));
    }
}

/// Assemble a run of packets for one write.
///
/// A run rather than a packet because the cost of a write does not scale with its size: each one is
/// a frame header, a TLS record and a system call. What packets cannot do is go out of order, and
/// they do not. A packet whose hop limit is spent is left out rather than reported: that is what a
/// router does with one, and the sender learns from the absence of a reply.
pub fn stage(staging: &mut BytesMut, packets: &mut Vec<Vec<u8>>)
    requires
        held(*old(staging)).len() + most(old(packets)@) <= isize::MAX,
        most(old(packets)@) <= varint::MAX,
    ensures
        held(*final(staging)) == held(*old(staging)) + capsules(going_on(old(packets)@)),
        final(packets)@.len() == old(packets)@.len(),
        forall|i: int|
            0 <= i < final(packets)@.len() ==> (#[trigger] final(packets)@[i])@ == left_behind(
                old(packets)@[i]@,
            ),
{
    let ghost before = held(*staging);
    let ghost given = packets@;
    let mut next: usize = 0;
    proof {
        assert(given.take(0) =~= Seq::empty());
        assert(held(*staging) =~= before + capsules(going_on(given.take(0))));
    }
    while next < packets.len()
        invariant
            next <= packets@.len() == given.len(),
            before.len() + most(given) <= isize::MAX,
            most(given) <= varint::MAX,
            held(*staging) == before + capsules(going_on(given.take(next as int))),
            held(*staging).len() <= before.len() + most(given.take(next as int)),
            forall|i: int|
                0 <= i < next ==> (#[trigger] packets@[i])@ == left_behind(given[i]@),
            forall|i: int| next <= i < given.len() ==> packets@[i] == given[i],
        decreases given.len() - next,
    {
        proof {
            lemma_most_grows(given, next + 1);
            lemma_one_more(before, given, next as int);
        }
        stage_one(staging, &mut packets[next]);
        next += 1;
    }
    assert(given.take(given.len() as int) =~= given);
}

/// The next packet in a capsule stream: records of other types are passed over. With it comes what
/// is left of the stream.
pub open spec fn next_packet(stream: Seq<u8>) -> (Result<Option<Seq<u8>>, TooLong>, Seq<u8>)
    decreases stream.len(),
{
    match front(stream) {
        Front::Partial => (Ok(None), stream),
        Front::TooLong(len) => (Err(TooLong(len)), stream),
        Front::Whole(kind, start, end) => {
            proof {
                law_capsules_survive_splitting(stream, Seq::empty());
            }
            if kind == DATAGRAM {
                (Ok(Some(stream.subrange(start, end))), stream.skip(end))
            } else {
                next_packet(stream.skip(end))
            }
        },
    }
}

/// Take one packet off what has been read, or `None` if no whole one has arrived.
pub fn take_packet(pending: &mut BytesMut) -> (taken: Result<Option<Bytes>, TooLong>)
    ensures
        held(*final(pending)) == next_packet(held(*old(pending))).1,
        match next_packet(held(*old(pending))).0 {
            Ok(Some(packet)) => taken matches Ok(Some(bytes)) && frozen(bytes) == packet,
            Ok(None) => taken matches Ok(None),
            Err(long) => taken matches Err(declared) && declared == long,
        },
{
    let ghost all = held(*pending);
    loop
        invariant
            all == held(*old(pending)),
            next_packet(held(*pending)) == next_packet(all),
        decreases held(*pending).len(),
    {
        let ghost stream = held(*pending);
        proof {
            law_capsules_survive_splitting(stream, Seq::empty());
        }
        match take_capsule(pending) {
            Err(long) => {
                return Err(long);
            },
            Ok(None) => {
                return Ok(None);
            },
            Ok(Some(Some(payload))) => {
                return Ok(Some(payload.freeze()));
            },
            Ok(Some(None)) => {},
        }
    }
}

proof fn lemma_capsules_first(payloads: Seq<Seq<u8>>)
    requires
        payloads.len() > 0,
    ensures
        capsules(payloads) == capsule(payloads[0]) + capsules(payloads.skip(1)),
    decreases payloads.len(),
{
    let one = payloads.drop_last();
    if one.len() == 0 {
        assert(payloads.skip(1) =~= Seq::empty());
        assert(one =~= Seq::empty());
        assert(capsules(payloads) =~= capsule(payloads[0]) + capsules(payloads.skip(1)));
    } else {
        lemma_capsules_first(one);
        assert(payloads.skip(1).drop_last() =~= one.skip(1));
        assert(capsules(payloads) =~= capsule(payloads[0]) + capsules(payloads.skip(1)));
    }
}

/// A run of packets comes out in the order it went in, whatever follows it: the first read gives the
/// first packet and leaves the rest of the run.
pub proof fn law_a_run_comes_out_in_order(payloads: Seq<Seq<u8>>, rest: Seq<u8>)
    requires
        payloads.len() > 0,
        payloads[0].len() <= MAX_CAPSULE,
    ensures
        next_packet(capsules(payloads) + rest) == (
            Ok::<Option<Seq<u8>>, TooLong>(Some(payloads[0])),
            capsules(payloads.skip(1)) + rest,
        ),
{
    lemma_capsules_first(payloads);
    let tail = capsules(payloads.skip(1)) + rest;
    law_capsule_round_trip(payloads[0], tail);
    assert(capsules(payloads) + rest =~= capsule(payloads[0]) + tail);
}

/// Where a packet ends does not depend on how the stream was cut up on the way: a packet that can be
/// read is read the same with more behind it.
pub proof fn law_reading_does_not_depend_on_chunks(stream: Seq<u8>, more: Seq<u8>)
    ensures
        next_packet(stream).0 matches Ok(Some(packet)) ==> next_packet(stream + more) == (
            Ok::<Option<Seq<u8>>, TooLong>(Some(packet)),
            next_packet(stream).1 + more,
        ),
    decreases stream.len(),
{
    law_capsules_survive_splitting(stream, more);
    if let Front::Whole(kind, start, end) = front(stream) {
        assert((stream + more).skip(end) =~= stream.skip(end) + more);
        assert((stream + more).subrange(start, end) =~= stream.subrange(start, end));
        if kind != DATAGRAM {
            law_reading_does_not_depend_on_chunks(stream.skip(end), more);
        }
    }
}

/// A run goes out packet by packet: two runs one behind the other are what each of them comes to, and
/// a packet alone goes out one hop on where it has a hop left and is left out where it has none.
pub proof fn law_a_run_goes_out_packet_by_packet(
    a: Seq<Vec<u8>>,
    b: Seq<Vec<u8>>,
    packet: Vec<u8>,
    payloads: Seq<Seq<u8>>,
    others: Seq<Seq<u8>>,
)
    ensures
        going_on(a + b) == going_on(a) + going_on(b),
        going_on(seq![packet]) == match one_hop_on(packet@) {
            Some(on) => seq![on],
            None => Seq::empty(),
        },
        capsules(payloads + others) == capsules(payloads) + capsules(others),
        payloads.len() == 1 ==> capsules(payloads) == capsule(payloads[0]),
{
    let one = seq![packet];
    assert(one.drop_last() =~= Seq::<Vec<u8>>::empty());
    reveal_with_fuel(going_on, 2);
    assert(going_on(one) =~= match one_hop_on(packet@) {
        Some(on) => seq![on],
        None => Seq::empty(),
    });
    lemma_going_on_add(a, b);
    lemma_capsules_add(payloads, others);
    if payloads.len() == 1 {
        reveal_with_fuel(capsules, 2);
        assert(payloads.drop_last() =~= Seq::<Seq<u8>>::empty());
        assert(capsules(payloads) =~= capsule(payloads[0]));
    }
}

proof fn lemma_going_on_add(a: Seq<Vec<u8>>, b: Seq<Vec<u8>>)
    ensures
        going_on(a + b) == going_on(a) + going_on(b),
    decreases b.len(),
{
    if b.len() == 0 {
        assert(a + b =~= a);
        assert(going_on(a) + going_on(b) =~= going_on(a));
    } else {
        assert((a + b).drop_last() =~= a + b.drop_last());
        lemma_going_on_add(a, b.drop_last());
        assert(going_on(a + b) =~= going_on(a) + going_on(b));
    }
}

proof fn lemma_capsules_add(a: Seq<Seq<u8>>, b: Seq<Seq<u8>>)
    ensures
        capsules(a + b) == capsules(a) + capsules(b),
    decreases b.len(),
{
    if b.len() == 0 {
        assert(a + b =~= a);
        assert(capsules(a) + capsules(b) =~= capsules(a));
    } else {
        assert((a + b).drop_last() =~= a + b.drop_last());
        lemma_capsules_add(a, b.drop_last());
        assert(capsules(a + b) =~= capsules(a) + capsules(b));
    }
}

/// A capsule of any type but a datagram's is passed over, however long up to the ceiling, and what is
/// behind it is read as though it had not been there. One that declares more than the ceiling ends the
/// stream as soon as its length is known, whatever its type.
pub proof fn law_other_capsules_are_passed_over(
    kind: u64,
    payload: Seq<u8>,
    declared: u64,
    rest: Seq<u8>,
)
    requires
        kind <= 0x3fff_ffff_ffff_ffff,
        payload.len() <= 65_535,
        65_535 < declared <= 0x3fff_ffff_ffff_ffff,
    ensures
        kind != 0 ==> next_packet(
            encoded(kind) + encoded(payload.len() as u64) + payload + rest,
        ) == next_packet(rest),
        next_packet(encoded(kind) + encoded(declared) + rest).0 == Err::<Option<Seq<u8>>, TooLong>(
            TooLong(declared),
        ),
{
    let head = encoded(kind);
    let length = encoded(payload.len() as u64);
    let stream = head + length + payload + rest;
    varint::law_varint_round_trip(kind, length + payload + rest);
    varint::law_varint_round_trip(payload.len() as u64, payload + rest);
    assert(stream =~= head + (length + payload + rest));
    assert(stream.skip(head.len() as int) =~= length + (payload + rest));
    let start = head.len() + length.len();
    assert(stream.skip((start + payload.len()) as int) =~= rest);
    let long = encoded(declared);
    let other = head + long + rest;
    varint::law_varint_round_trip(kind, long + rest);
    varint::law_varint_round_trip(declared, rest);
    assert(other =~= head + (long + rest));
    assert(other.skip(head.len() as int) =~= long + rest);
}

/// The endpoint's answer decides: a status from 200 to 299 opens the tunnel, and every other is the
/// endpoint declining it with that status.
pub proof fn law_the_answer_opens_the_tunnel_or_declines_it(
    before: Opening,
    status: u16,
    ms: u128,
    presented: &Presented,
    after: Opening,
    action: OpenAction,
)
    requires
        opens(before, OpenEvent::Responded { status, ms }, presented, after, action),
    ensures
        action is Opened <==> status / 100 == 2,
        status / 100 != 2 ==> action == OpenAction::Fail(ConnectError::Refused(status)),
{
}

/// What failed is told: an endpoint that is no address with what was written, a handshake cut with no
/// reply with the name that was presented, and everything else in the words of the layer it failed in.
/// Each stage that is done leads to the next, with its own time kept.
pub proof fn law_each_stage_leads_to_the_next(
    before: Opening,
    written: String,
    said: String,
    ms: u128,
    presented: &Presented,
    after: Opening,
    action: OpenAction,
)
    ensures
        opens(before, OpenEvent::Endpoint(written), presented, after, action) ==> match address_written(
            written@,
        ) {
            Some(address) => action == OpenAction::Dial(address),
            None => action matches OpenAction::Fail(ConnectError::BadEndpoint(told)) && told@
                == written@,
        },
        opens(before, OpenEvent::Dialled { ms }, presented, after, action) ==> action is Secure
            && after.tcp_ms == ms && after.tls_ms == before.tls_ms && after.http2_ms
            == before.http2_ms,
        opens(before, OpenEvent::Secured { ms }, presented, after, action) ==> action is StartHttp2
            && after.tls_ms == ms && after.tcp_ms == before.tcp_ms && after.http2_ms
            == before.http2_ms,
        opens(before, OpenEvent::Ready { ms }, presented, after, action) ==> action is Request
            && after.http2_ms == ms && after.tcp_ms == before.tcp_ms && after.tls_ms
            == before.tls_ms,
        opens(before, OpenEvent::NotSecured { cut: true, said }, presented, after, action) ==> (
        action matches OpenAction::Fail(ConnectError::HandshakeCut { sni, how }) && sni@
            == reported_name(presented)),
        opens(before, OpenEvent::NotSecured { cut: false, said }, presented, after, action)
            ==> action == OpenAction::Fail(ConnectError::Io(said)),
        opens(before, OpenEvent::NotDialled(said), presented, after, action) ==> action
            == OpenAction::Fail(ConnectError::Io(said)),
        opens(before, OpenEvent::NotReady(said), presented, after, action) ==> action
            == OpenAction::Fail(ConnectError::H2(said)),
        opens(before, OpenEvent::NoRequest(said), presented, after, action) ==> action
            == OpenAction::Fail(ConnectError::Request(said)),
        opens(before, OpenEvent::NotAnswered(said), presented, after, action) ==> action
            == OpenAction::Fail(ConnectError::H2(said)),
{
}

} // verus!
