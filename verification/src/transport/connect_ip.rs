//! The CONNECT-IP tunnel as the engine sees it: packets out, packets back, and whether the far end
//! is still there, over whichever carrier opened.
//!
//! Two carriers speak CONNECT-IP to the same endpoint with the same identity. Everything above this
//! module drives them the same way; the carrier shows only where it is reported.

use vstd::prelude::*;
use vstd::string::StringExecFns;
use crate::ip::{checksum_of, ipv4_checksum, with_checksum, without_checksum, word_sum};
use crate::queue::signals::{ipv4_header_len, version};
use crate::status::{show_status, status_shown};
use crate::text::{between, decimal, digits, joined};
use crate::transport::capsule::{too_long_text, TooLong};
use crate::transport::carrier;
use crate::transport::carrier::{
    carrier_name, is_parked, plan_spec, Carriage, Carrier, Plan, PARK_FOR,
};
use crate::transport::handshake::Presented;
use crate::transport::http3::{h3_text, H3Error};
use crate::wire::{high_byte, low_byte};

verus! {

/// Why a tunnel could not be opened, or stopped carrying. What the operating system or a protocol
/// stack said is kept as its words.
#[derive(Debug, Clone, PartialEq, Eq)]
pub enum ConnectError {
    TlsSetup(String),
    Io(String),
    H2(String),
    Request(String),
    /// The endpoint declined the request over HTTP/2, with this status. The one refusal read as
    /// being about the device.
    Refused(u16),
    /// The endpoint address is not an address.
    BadEndpoint(String),
    /// The tunnel was closed while a packet was waiting to be sent.
    Closed,
    Framing(TooLong),
    /// The TLS handshake was cut with no reply. On a filtered link that is what a blocked name
    /// looks like.
    ///
    /// Which handshake was tried is part of it, because with the default one the fix is not in this
    /// core, while with any other it is the result of the experiment.
    HandshakeCut { sni: String, how: &'static str },
    /// No QUIC connection: UDP to the endpoint dropped, or the handshake refused.
    QuicUnavailable(String),
    /// HTTP/3's form of [`ConnectError::HandshakeCut`]: the handshake completed, and then nothing
    /// came back, no SETTINGS or no answer to the CONNECT.
    H3Unanswered { sni: String, how: &'static str },
    /// The endpoint declined the request over HTTP/3, with this status.
    ///
    /// Kept apart from [`ConnectError::Refused`] on purpose. A refusal there replaces the device,
    /// and a status that is really about the HTTP/3 request would then register a new device every
    /// few minutes without fixing anything.
    H3Refused(u16),
    /// The connection is up but cannot carry this adapter's packets.
    H3Unfit(String),
    Quic(String),
    QuicWrite(String),
    QuicRead(String),
    H3(H3Error),
    /// The endpoint is shutting the connection down.
    GoingAway,
}

/// What is said about a tunnel that could not be opened, or stopped carrying.
pub open spec fn connect_text(error: ConnectError) -> Seq<char> {
    match error {
        ConnectError::TlsSetup(why) => "tls setup: "@ + why@,
        ConnectError::Io(why) => "io: "@ + why@,
        ConnectError::H2(why) => "http/2: "@ + why@,
        ConnectError::Request(why) => "building the connect request: "@ + why@,
        ConnectError::Refused(status) => "the endpoint refused the tunnel with "@ + status_shown(
            status,
        ),
        ConnectError::BadEndpoint(address) => "the endpoint address "@ + address@
            + " is not an address"@,
        ConnectError::Closed => "the tunnel was closed while a packet was waiting to be sent"@,
        ConnectError::Framing(too_long) => too_long_text(too_long),
        ConnectError::HandshakeCut { sni, how } => "the TLS handshake ("@ + how@ + ", name "@ + sni@
            + ") was cut with no reply. On a filtered link that is what a blocked name looks like"@,
        ConnectError::QuicUnavailable(why) => "QUIC to the endpoint did not come up: "@ + why@,
        ConnectError::H3Unanswered { sni, how } => "the endpoint took the QUIC handshake ("@ + how@
            + ", name "@ + sni@
            + ") and then answered nothing. On a filtered link that is what a blocked name looks like"@,
        ConnectError::H3Refused(status) => "the endpoint refused the tunnel over HTTP/3 with "@
            + status_shown(status),
        ConnectError::H3Unfit(why) => "HTTP/3 cannot carry this adapter's packets: "@ + why@,
        ConnectError::Quic(why) => "quic: "@ + why@,
        ConnectError::QuicWrite(why) => "writing the request: "@ + why@,
        ConnectError::QuicRead(why) => "reading the tunnel's stream: "@ + why@,
        ConnectError::H3(error) => "http/3: "@ + h3_text(error),
        ConnectError::GoingAway => "the endpoint is shutting the connection down (GOAWAY)"@,
    }
}

impl ConnectError {
    /// What is said about it.
    pub fn text(&self) -> (text: String)
        ensures
            text@ == connect_text(*self),
    {
        match self {
            ConnectError::TlsSetup(why) => joined("tls setup: ", why.as_str()),
            ConnectError::Io(why) => joined("io: ", why.as_str()),
            ConnectError::H2(why) => joined("http/2: ", why.as_str()),
            ConnectError::Request(why) => joined("building the connect request: ", why.as_str()),
            ConnectError::Refused(status) => {
                let status = show_status(*status);
                joined("the endpoint refused the tunnel with ", status.as_str())
            },
            ConnectError::BadEndpoint(address) => between(
                "the endpoint address ",
                address.as_str(),
                " is not an address",
            ),
            ConnectError::Closed => String::from_str(
                "the tunnel was closed while a packet was waiting to be sent",
            ),
            ConnectError::Framing(too_long) => too_long.text(),
            ConnectError::HandshakeCut { sni, how } => {
                let start = between("the TLS handshake (", how, ", name ");
                between(
                    start.as_str(),
                    sni.as_str(),
                    ") was cut with no reply. On a filtered link that is what a blocked name looks like",
                )
            },
            ConnectError::QuicUnavailable(why) => joined(
                "QUIC to the endpoint did not come up: ",
                why.as_str(),
            ),
            ConnectError::H3Unanswered { sni, how } => {
                let start = between("the endpoint took the QUIC handshake (", how, ", name ");
                between(
                    start.as_str(),
                    sni.as_str(),
                    ") and then answered nothing. On a filtered link that is what a blocked name looks like",
                )
            },
            ConnectError::H3Refused(status) => {
                let status = show_status(*status);
                joined("the endpoint refused the tunnel over HTTP/3 with ", status.as_str())
            },
            ConnectError::H3Unfit(why) => joined(
                "HTTP/3 cannot carry this adapter's packets: ",
                why.as_str(),
            ),
            ConnectError::Quic(why) => joined("quic: ", why.as_str()),
            ConnectError::QuicWrite(why) => joined("writing the request: ", why.as_str()),
            ConnectError::QuicRead(why) => joined("reading the tunnel's stream: ", why.as_str()),
            ConnectError::H3(error) => {
                let why = error.text();
                joined("http/3: ", why.as_str())
            },
            ConnectError::GoingAway => String::from_str(
                "the endpoint is shutting the connection down (GOAWAY)",
            ),
        }
    }

    /// Whether this is something on the way refusing the handshake: the one failure that says the
    /// fix is not in this core.
    pub fn is_blocked(&self) -> (blocked: bool)
        ensures
            blocked == (self is HandshakeCut || self is H3Unanswered),
    {
        match self {
            ConnectError::HandshakeCut { .. } => true,
            ConnectError::H3Unanswered { .. } => true,
            _ => false,
        }
    }
}

/// How long each stage of bringing the tunnel up took, in milliseconds.
///
/// Several numbers rather than one, because the stages fail for entirely different reasons: the
/// link, the filtering, the endpoint, the identity.
#[derive(Debug, Clone, Copy, PartialEq, Eq, Structural)]
pub enum Stages {
    H2 { tcp_ms: u128, tls_ms: u128, http2_ms: u128, connect_ms: u128 },
    H3 {
        /// The QUIC handshake, TLS inside it.
        quic_ms: u128,
        /// This side's SETTINGS out and the endpoint's back.
        settings_ms: u128,
        /// The CONNECT and its answer, then the wait for the path to fit a full packet.
        connect_ms: u128,
    },
}

/// Each stage by name, in the order they happened.
pub open spec fn stage_steps(stages: Stages) -> Seq<(Seq<char>, u128)> {
    match stages {
        Stages::H2 { tcp_ms, tls_ms, http2_ms, connect_ms } => seq![
            ("tcp"@, tcp_ms),
            ("tls"@, tls_ms),
            ("http2"@, http2_ms),
            ("connect"@, connect_ms),
        ],
        Stages::H3 { quic_ms, settings_ms, connect_ms } => seq![
            ("quic"@, quic_ms),
            ("settings"@, settings_ms),
            ("connect"@, connect_ms),
        ],
    }
}

/// The carrier the stages are of.
pub open spec fn stage_carrier(stages: Stages) -> Carrier {
    match stages {
        Stages::H2 { .. } => Carrier::H2,
        Stages::H3 { .. } => Carrier::H3,
    }
}

/// The stages in one line.
pub open spec fn stages_shown(stages: Stages) -> Seq<char> {
    carrier_name(stage_carrier(stages)) + written_steps(stage_steps(stages))
}

/// Stages one after another, each behind a dot.
pub open spec fn written_steps(steps: Seq<(Seq<char>, u128)>) -> Seq<char>
    decreases steps.len(),
{
    if steps.len() == 0 {
        Seq::empty()
    } else {
        written_steps(steps.drop_last()) + " · "@ + steps.last().0 + " "@ + digits(
            steps.last().1 as nat,
        )
    }
}

/// Named steps as plain values.
pub open spec fn plain_steps(steps: Seq<(&'static str, u128)>) -> Seq<(Seq<char>, u128)> {
    steps.map_values(|step: (&'static str, u128)| (step.0@, step.1))
}

impl Stages {
    pub fn carrier(&self) -> (carrier: Carrier)
        ensures
            carrier == stage_carrier(*self),
    {
        match self {
            Stages::H2 { .. } => Carrier::H2,
            Stages::H3 { .. } => Carrier::H3,
        }
    }

    /// Each stage by name, in the order they happened.
    pub fn steps(&self) -> (steps: Vec<(&'static str, u128)>)
        ensures
            plain_steps(steps@) == stage_steps(*self),
    {
        let steps = match *self {
            Stages::H2 { tcp_ms, tls_ms, http2_ms, connect_ms } => vec![
                ("tcp", tcp_ms),
                ("tls", tls_ms),
                ("http2", http2_ms),
                ("connect", connect_ms),
            ],
            Stages::H3 { quic_ms, settings_ms, connect_ms } => vec![
                ("quic", quic_ms),
                ("settings", settings_ms),
                ("connect", connect_ms),
            ],
        };
        assert(plain_steps(steps@) =~= stage_steps(*self));
        steps
    }

    /// The stages in one line: `h3 · quic 61 · settings 1 · connect 74`.
    pub fn to_string(&self) -> (line: String)
        ensures
            line@ == stages_shown(*self),
    {
        let mut line = String::from_str(self.carrier().name());
        let steps = self.steps();
        let ghost plain = plain_steps(steps@);
        let ghost name = line@;
        let mut i: usize = 0;
        proof {
            assert(plain.take(0) =~= Seq::empty());
            assert(name + written_steps(plain.take(0)) =~= name);
        }
        while i < steps.len()
            invariant
                i <= steps.len(),
                plain == plain_steps(steps@),
                line@ == name + written_steps(plain.take(i as int)),
            decreases steps.len() - i,
        {
            let (step, ms) = steps[i];
            let number = decimal(ms);
            line.append(" · ");
            line.append(step);
            line.append(" ");
            line.append(number.as_str());
            proof {
                assert(plain[i as int] == (step@, ms));
                assert(plain.take(i + 1).drop_last() =~= plain.take(i as int));
                assert(line@ =~= name + written_steps(plain.take(i + 1)));
            }
            i += 1;
        }
        assert(plain.take(i as int) =~= plain);
        line
    }
}

/// What QUIC reports about an HTTP/3 connection's path.
///
/// Reported beside the packets handed to the adapter, because the two together answer the question
/// a loss under load raises: `datagrams_in` counts what reached this side, so a gap between it and
/// what the adapter was given is this side's buffer, and `lost` is the path's.
#[derive(Debug, Clone, Copy, PartialEq, Eq, Structural)]
pub struct LinkStats {
    /// The round trip, in nanoseconds.
    pub rtt: u64,
    /// Congestion window, bytes.
    pub cwnd: u64,
    /// QUIC packets sent on the path, and how many of them were declared lost.
    pub sent: u64,
    pub lost: u64,
    /// DATAGRAM frames received, whatever became of them afterwards.
    pub datagrams_in: u64,
}

/// A packet one hop on: its hop count one less, and the header checksum of IPv4 put right over the
/// whole header. None when it is malformed or its hop count is spent.
pub open spec fn one_hop_on(packet: Seq<u8>) -> Option<Seq<u8>> {
    if version(packet) == 4 {
        let header = ipv4_header_len(packet);
        if header < 20 || packet.len() < header || packet[8] <= 1 {
            None
        } else {
            let less = packet.update(8, (packet[8] - 1) as u8);
            Some(
                with_checksum(less, checksum_of(word_sum(without_checksum(less.take(header))))),
            )
        }
    } else if version(packet) == 6 {
        if packet.len() < 40 || packet[7] <= 1 {
            None
        } else {
            Some(packet.update(7, (packet[7] - 1) as u8))
        }
    } else {
        None
    }
}

/// Decrement TTL (v4) or hop limit (v6), fixing the IPv4 header checksum. False when the packet is
/// malformed or its hop count is already spent, and the packet is then left as it was.
///
/// The header is as long as the packet says it is. Summing a fixed twenty bytes leaves any options
/// out, and a checksum that does not cover the whole header is rejected by the destination.
pub fn decrement_hop_limit(packet: &mut [u8]) -> (forwarded: bool)
    ensures
        match one_hop_on(old(packet)@) {
            Some(on) => forwarded && final(packet)@ == on,
            None => !forwarded && final(packet)@ == old(packet)@,
        },
{
    if packet.len() == 0 {
        return false;
    }
    let version = packet[0] / 16;
    if version == 4 {
        let header: usize = (packet[0] % 16) as usize * 4;
        if header < 20 || packet.len() < header || packet[8] <= 1 {
            return false;
        }
        packet[8] = packet[8] - 1;
        let checksum = ipv4_checksum(vstd::slice::slice_subrange(packet, 0, header));
        assert(packet@.take(header as int) =~= packet@.subrange(0, header as int));
        packet[10] = high_byte(checksum);
        packet[11] = low_byte(checksum);
        true
    } else if version == 6 {
        if packet.len() < 40 || packet[7] <= 1 {
            return false;
        }
        packet[7] = packet[7] - 1;
        true
    } else {
        false
    }
}

/// Opening a tunnel over the carrier the run chose: which carrier to try now, and what is left.
///
/// Under `auto` this is HTTP/3, and HTTP/2 in the same attempt when HTTP/3 does not open.
pub fn connect(carriage: &Carriage, presented: &Presented, now: u64) -> (plan: Plan)
    ensures
        plan == plan_spec(
            carriage.choice(),
            presented.selected(),
            is_parked(carriage.until(), now),
        ),
{
    carrier::plan(
        carrier::selected(carriage),
        crate::transport::handshake::selected(presented),
        carrier::parked(carriage, now),
    )
}

/// The carrier that was tried first did not open: what to try next, if anything.
///
/// HTTP/3 is parked where HTTP/2 carries instead, so the next attempts do not pay for it again.
pub fn did_not_open(carriage: &mut Carriage, plan: Plan, now: u64) -> (next: Option<Carrier>)
    requires
        now + PARK_FOR <= u64::MAX,
    ensures
        final(carriage).choice() == old(carriage).choice(),
        final(carriage).largest() == old(carriage).largest(),
        match plan {
            Plan::Only(_) => next is None && final(carriage).until() == old(carriage).until(),
            Plan::H3ThenH2 => next == Some(Carrier::H2) && final(carriage).until() == Some(
                (now + PARK_FOR) as u64,
            ),
        },
{
    let next = plan.fallback();
    if next.is_some() {
        carrier::park(carriage, now);
    }
    next
}

/// A packet that is forwarded is the packet that was given, in every byte but its hop count, which is
/// one less, and in IPv4 the two bytes of the header checksum: addresses, protocol, options and
/// payload are what they were. It is forwarded exactly where its header is whole and it has a hop to
/// spend that is not its last.
pub proof fn law_forwarding_changes_nothing_else(packet: Seq<u8>, i: int)
    requires
        0 <= i < packet.len(),
    ensures
        packet[0] / 16 == 4 ==> (one_hop_on(packet) is Some <==> packet[0] % 16 >= 5 && packet.len()
            >= (packet[0] % 16) * 4 && packet[8] >= 2),
        packet[0] / 16 == 6 ==> (one_hop_on(packet) is Some <==> packet.len() >= 40 && packet[7]
            >= 2),
        packet[0] / 16 != 4 && packet[0] / 16 != 6 ==> one_hop_on(packet) is None,
        one_hop_on(packet) matches Some(on) ==> {
            &&& on.len() == packet.len()
            &&& packet[0] / 16 == 4 ==> on[8] == packet[8] - 1 && (i != 8 && i != 10 && i != 11
                ==> on[i] == packet[i]) && word_sum(on.take((packet[0] % 16) * 4)) % 65535 == 0
            &&& packet[0] / 16 == 6 ==> on[7] == packet[7] - 1 && (i != 7 ==> on[i] == packet[i])
        },
{
    law_forwarding_spends_a_hop_and_verifies(packet);
    if let Some(on) = one_hop_on(packet) {
        if packet[0] / 16 == 4 {
            crate::ip::law_what_verifies_is_a_multiple(on.take((packet[0] % 16) * 4));
        }
    }
}

/// A forwarded IPv4 packet's header verifies, options included, and a packet is never forwarded
/// without its hop count going down, so no loop runs forever.
pub proof fn law_forwarding_spends_a_hop_and_verifies(packet: Seq<u8>)
    ensures
        match one_hop_on(packet) {
            Some(on) => {
                &&& on.len() == packet.len()
                &&& version(packet) == 4 ==> on[8] == packet[8] - 1 && checksum_of(
                    word_sum(on.take(ipv4_header_len(packet))),
                ) == 0
                &&& version(packet) == 6 ==> on[7] == packet[7] - 1 && on.take(7) == packet.take(7)
                    && on.skip(8) == packet.skip(8)
            },
            None => true,
        },
{
    if let Some(on) = one_hop_on(packet) {
        if version(packet) == 4 {
            let header = ipv4_header_len(packet);
            let less = packet.update(8, (packet[8] - 1) as u8);
            let sum = checksum_of(word_sum(without_checksum(less.take(header))));
            crate::ip::law_header_verifies(less.take(header));
            assert(on.take(header) =~= with_checksum(less.take(header), sum));
        } else {
            assert(on.take(7) =~= packet.take(7));
            assert(on.skip(8) =~= packet.skip(8));
        }
    }
}

/// The stages of a tunnel are those of its carrier, in the order they happened, each with its own
/// time, and they are written one behind the other behind the carrier's name.
pub proof fn law_the_stages_are_those_of_the_carrier(
    a: u128,
    b: u128,
    c: u128,
    d: u128,
    steps: Seq<(Seq<char>, u128)>,
    step: (Seq<char>, u128),
)
    ensures
        ({
            let stages = Stages::H2 { tcp_ms: a, tls_ms: b, http2_ms: c, connect_ms: d };
            &&& stage_carrier(stages) == Carrier::H2
            &&& stage_steps(stages).len() == 4
            &&& stage_steps(stages)[0] == ("tcp"@, a) && stage_steps(stages)[1] == ("tls"@, b)
            &&& stage_steps(stages)[2] == ("http2"@, c) && stage_steps(stages)[3] == ("connect"@, d)
        }),
        ({
            let stages = Stages::H3 { quic_ms: a, settings_ms: b, connect_ms: c };
            &&& stage_carrier(stages) == Carrier::H3
            &&& stage_steps(stages).len() == 3
            &&& stage_steps(stages)[0] == ("quic"@, a) && stage_steps(stages)[1] == ("settings"@, b)
            &&& stage_steps(stages)[2] == ("connect"@, c)
        }),
        written_steps(Seq::empty()) == Seq::<char>::empty(),
        written_steps(steps.push(step)) == written_steps(steps) + " · "@ + step.0 + " "@ + digits(
            step.1 as nat,
        ),
{
    assert(steps.push(step).drop_last() =~= steps);
}

} // verus!
