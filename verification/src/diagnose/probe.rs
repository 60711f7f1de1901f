//! The readiness check: one name resolved end to end through the tunnel.
//!
//! A DNS query is the smallest exchange that proves the whole path: a single UDP datagram out and
//! one back, with no handshake state to keep. If an answer comes back carrying addresses, then the
//! identity was accepted, the endpoint agreed to CONNECT-IP, the framing is right for the carrier
//! that opened, and a packet was routed for the address that was assigned.

use vstd::prelude::*;
use vstd::string::{StringExecFns, StringSliceAdditionalSpecFns};
use crate::address::shown::{show, shown};
use crate::address::IpAddr;
use crate::diagnose::packets::{
    addresses_in, dns_answers, ipv4_udp, payload_of, udp_packet, udp_payload,
};
use crate::probe::{dns_query, query_for};
use crate::text::{decimal, digits, joined, list, listed, texts};
use crate::wire::{be32, be32_spec};

verus! {

/// The name that is asked about.
pub const NAME: &'static str = "cloudflare.com";

/// The port the query comes from.
pub const PORT: u16 = 40000;

/// How many packets that are not the answer are looked at: the tunnel carries whatever the endpoint
/// sends, and an unrelated packet arriving first should not read as a failure.
pub const PACKETS: usize = 8;

/// How long each is waited for, in milliseconds. A tunnel that is up but carries nothing would
/// otherwise leave the check hanging with no verdict at all.
pub const WAIT: u64 = 10_000;

/// The resolver that is asked.
pub fn resolver() -> (address: [u8; 4])
    ensures
        address@ == seq![1u8, 1, 1, 1],
{
    let address: [u8; 4] = [1, 1, 1, 1];
    assert(address@ =~= seq![1u8, 1, 1, 1]);
    address
}

/// The packet that asks.
pub fn question(source: [u8; 4]) -> (packet: Vec<u8>)
    ensures
        packet@ == udp_packet(source@, seq![1u8, 1, 1, 1], PORT, 53, query_for(NAME.spec_bytes())),
{
    let query = dns_query(NAME);
    proof {
        reveal_strlit("cloudflare.com");
        vstd::string::is_ascii_spec_bytes(NAME);
        crate::probe::lemma_labels_len(NAME.spec_bytes(), 0);
    }
    ipv4_udp(source, resolver(), PORT, 53, query.as_slice())
}

/// The name of a protocol.
pub open spec fn protocol_name(protocol: u8) -> Seq<char> {
    if protocol == 1 {
        "icmp"@
    } else if protocol == 6 {
        "tcp"@
    } else if protocol == 17 {
        "udp"@
    } else {
        "ip"@
    }
}

/// The name of a protocol.
fn name_of(protocol: u8) -> (name: &'static str)
    ensures
        name@ == protocol_name(protocol),
{
    if protocol == 1 {
        "icmp"
    } else if protocol == 6 {
        "tcp"
    } else if protocol == 17 {
        "udp"
    } else {
        "ip"
    }
}

/// Four bytes of a packet as an address.
pub open spec fn address_at(packet: Seq<u8>, at: int) -> IpAddr {
    IpAddr::V4(be32_spec(packet[at], packet[at + 1], packet[at + 2], packet[at + 3]) as u32)
}

/// One line about a packet.
pub open spec fn described(packet: Seq<u8>) -> Seq<char> {
    let bytes = digits(packet.len());
    if packet.len() >= 20 && packet[0] / 16 == 4 {
        protocol_name(packet[9]) + " "@ + shown(address_at(packet, 12)) + " → "@ + shown(
            address_at(packet, 16),
        ) + ", "@ + bytes + " bytes"@
    } else if packet.len() >= 40 && packet[0] / 16 == 6 {
        "ipv6, "@ + bytes + " bytes"@
    } else {
        bytes + " bytes, not an IP packet"@
    }
}

/// One line about a packet: enough to tell an ICMP error from an unrelated flow.
pub fn describe_packet(packet: &[u8]) -> (line: String)
    ensures
        line@ == described(packet@),
{
    let total: usize = packet.len();
    let bytes = decimal(total as u128);
    if total >= 20 && packet[0] / 16 == 4 {
        let src = show(IpAddr::V4(be32(packet[12], packet[13], packet[14], packet[15])));
        let dst = show(IpAddr::V4(be32(packet[16], packet[17], packet[18], packet[19])));
        let mut line = String::from_str(name_of(packet[9]));
        line.append(" ");
        line.append(src.as_str());
        line.append(" → ");
        line.append(dst.as_str());
        line.append(", ");
        line.append(bytes.as_str());
        line.append(" bytes");
        line
    } else if total >= 40 && packet[0] / 16 == 6 {
        let mut line = String::from_str("ipv6, ");
        line.append(bytes.as_str());
        line.append(" bytes");
        line
    } else {
        joined(bytes.as_str(), " bytes, not an IP packet")
    }
}

/// What came back when none of it was the answer.
pub open spec fn unrecognised(seen: Seq<Seq<char>>) -> Seq<Seq<char>> {
    if seen.len() == 0 {
        seq!["          nothing came back through the tunnel at all"@]
    } else {
        seq!["          "@ + digits(seen.len()) + " packet(s) did come back:"@]
            + seen.map_values(|line: Seq<char>| "            "@ + line)
    }
}

/// What a wait for a packet came to.
#[derive(Debug)]
pub enum Waited {
    /// A packet came, so long after the query was sent, in milliseconds.
    Packet { packet: Vec<u8>, ms: u128 },
    /// The endpoint closed the tunnel.
    Closed,
    /// The tunnel failed, and what was said about it.
    Failed(String),
    /// The time is over.
    TimedOut,
}

/// What to do about it.
#[derive(Debug)]
pub enum Then {
    /// Wait for the next packet.
    Wait,
    /// Say this, and stop.
    Say(Vec<String>),
    /// Report this.
    Fail(String),
}

/// The check, under way.
#[derive(Debug)]
pub struct Probing {
    source: [u8; 4],
    seen: Vec<String>,
}

/// What the answer to the check is, as it is said.
pub open spec fn found(addresses: Seq<Seq<char>>, ms: u128) -> Seq<Seq<char>> {
    seq![
        "probe     "@ + NAME@ + " → "@ + listed(addresses) + " in "@ + digits(ms as nat) + " ms"@,
        ""@,
        "OK        the tunnel carries traffic end to end"@,
    ]
}

/// The addresses that a packet answers the check with.
pub open spec fn answer_in(packet: Seq<u8>, source: Seq<u8>) -> Seq<Seq<char>> {
    match payload_of(packet, source) {
        None => Seq::empty(),
        Some(payload) => addresses_in(payload),
    }
}

impl Probing {
    /// The address the query came from.
    pub closed spec fn from(&self) -> Seq<u8> {
        self.source@
    }

    /// The packets that came and were not the answer, one line each.
    pub closed spec fn lines(&self) -> Seq<Seq<char>> {
        texts(self.seen@)
    }

    pub fn new(source: [u8; 4]) -> (probing: Self)
        ensures
            probing.from() == source@,
            probing.lines() == Seq::<Seq<char>>::empty(),
    {
        let probing = Probing { source, seen: Vec::new() };
        assert(probing.lines() =~= Seq::empty());
        probing
    }

    /// The lines about what came back when none of it was the answer.
    ///
    /// The difference between "nothing arrived" and "something arrived and was not understood" is
    /// the whole diagnosis.
    fn report_unrecognised(&self, first: &str) -> (lines: Vec<String>)
        ensures
            texts(lines@) == seq![first@] + unrecognised(self.lines()),
    {
        let mut lines: Vec<String> = Vec::new();
        lines.push(String::from_str(first));
        if self.seen.len() == 0 {
            lines.push(String::from_str("          nothing came back through the tunnel at all"));
            assert(texts(lines@) =~= seq![first@] + unrecognised(self.lines()));
            return lines;
        }
        let count = decimal(self.seen.len() as u128);
        let mut line = String::from_str("          ");
        line.append(count.as_str());
        line.append(" packet(s) did come back:");
        lines.push(line);
        let ghost head = texts(lines@);
        assert(head =~= seq![first@, "          "@ + digits(self.seen@.len())
            + " packet(s) did come back:"@]);
        let mut at: usize = 0;
        while at < self.seen.len()
            invariant
                at <= self.seen@.len(),
                texts(lines@) == head + self.lines().take(at as int).map_values(
                    |line: Seq<char>| "            "@ + line,
                ),
            decreases self.seen@.len() - at,
        {
            let ghost before = texts(lines@);
            lines.push(joined("            ", self.seen[at].as_str()));
            proof {
                let indented = |line: Seq<char>| "            "@ + line;
                assert(texts(lines@) =~= before.push("            "@ + self.seen@[at as int]@));
                assert(self.lines().take(at + 1).map_values(indented) =~= self.lines().take(
                    at as int,
                ).map_values(indented).push("            "@ + self.seen@[at as int]@));
                assert(texts(lines@) =~= head + self.lines().take(at + 1).map_values(indented));
            }
            at += 1;
        }
        proof {
            assert(self.lines().take(at as int) =~= self.lines());
            assert(texts(lines@) =~= seq![first@] + unrecognised(self.lines()));
        }
        lines
    }

    /// Go on from what came.
    pub fn step(&mut self, waited: Waited) -> (then: Then)
        requires
            old(self).lines().len() < PACKETS,
        ensures
            final(self).from() == old(self).from(),
            match waited {
                Waited::Packet { packet, ms } => {
                    let answer = answer_in(packet@, old(self).from());
                    let seen = old(self).lines().push(described(packet@));
                    &&& final(self).lines() == seen
                    &&& if answer.len() > 0 {
                        then matches Then::Say(lines) && texts(lines@) == found(answer, ms)
                    } else if seen.len() < PACKETS {
                        then is Wait
                    } else {
                        then matches Then::Say(lines) && texts(lines@) == seq![
                            "probe     no answer recognised in the first packets back"@,
                        ] + unrecognised(seen)
                    }
                },
                Waited::Closed => final(self).lines() == old(self).lines()
                    && (then matches Then::Say(lines) && texts(lines@) == seq![
                    "probe     the endpoint closed the tunnel before an answer arrived"@,
                ]),
                Waited::Failed(said) => final(self).lines() == old(self).lines() && then
                    == Then::Fail(said),
                Waited::TimedOut => final(self).lines() == old(self).lines()
                    && (then matches Then::Say(lines) && texts(lines@) == seq![
                    "probe     no packet came back within 10 s"@,
                ] + unrecognised(old(self).lines())),
            },
    {
        match waited {
            Waited::Closed => {
                let mut lines: Vec<String> = Vec::new();
                lines.push(
                    String::from_str(
                        "probe     the endpoint closed the tunnel before an answer arrived",
                    ),
                );
                assert(texts(lines@) =~= seq![
                    "probe     the endpoint closed the tunnel before an answer arrived"@,
                ]);
                Then::Say(lines)
            },
            Waited::Failed(said) => Then::Fail(said),
            Waited::TimedOut => Then::Say(
                self.report_unrecognised("probe     no packet came back within 10 s"),
            ),
            Waited::Packet { packet, ms } => {
                let ghost before = self.lines();
                self.seen.push(describe_packet(packet.as_slice()));
                assert(self.lines() =~= before.push(described(packet@)));
                if let Some(payload) = udp_payload(packet.as_slice(), self.source) {
                    let addresses = dns_answers(payload);
                    if addresses.len() > 0 {
                        let all = list(&addresses);
                        let took = decimal(ms);
                        let mut line = String::from_str("probe     ");
                        line.append(NAME);
                        line.append(" → ");
                        line.append(all.as_str());
                        line.append(" in ");
                        line.append(took.as_str());
                        line.append(" ms");
                        let mut lines: Vec<String> = Vec::new();
                        lines.push(line);
                        lines.push(String::from_str(""));
                        lines.push(
                            String::from_str(
                                "OK        the tunnel carries traffic end to end",
                            ),
                        );
                        assert(texts(lines@) =~= found(texts(addresses@), ms));
                        return Then::Say(lines);
                    }
                }
                if self.seen.len() < PACKETS {
                    Then::Wait
                } else {
                    Then::Say(
                        self.report_unrecognised(
                            "probe     no answer recognised in the first packets back",
                        ),
                    )
                }
            },
        }
    }
}

/// Only a datagram to the address the question came from answers it, and with the addresses it
/// carries: anything else answers it with none.
pub proof fn law_only_a_datagram_back_answers(
    header: Seq<u8>,
    udp: Seq<u8>,
    payload: Seq<u8>,
    protocol: u8,
    to: Seq<u8>,
    source: Seq<u8>,
)
    requires
        to.len() == 4,
        source.len() == 4,
        crate::diagnose::packets::laws::is_header(header, protocol, to),
        udp.len() == 8,
    ensures
        protocol == 17 && to == source ==> answer_in(header + udp + payload, source)
            == addresses_in(payload),
        protocol != 17 || to != source ==> answer_in(header + udp + payload, source).len() == 0,
{
    crate::diagnose::packets::laws::law_a_datagram_is_taken_out(
        header,
        udp,
        payload,
        protocol,
        to,
        source,
    );
}

/// What came back and was not the answer is told packet by packet, in the order it came, behind how
/// many there were; and that nothing came is told as such.
pub proof fn law_what_came_back_is_told_packet_by_packet(seen: Seq<Seq<char>>, i: int)
    ensures
        seen.len() == 0 ==> unrecognised(seen).len() == 1 && unrecognised(seen)[0]
            == "          nothing came back through the tunnel at all"@,
        seen.len() > 0 ==> unrecognised(seen).len() == seen.len() + 1 && unrecognised(seen)[0]
            == "          "@ + digits(seen.len()) + " packet(s) did come back:"@,
        0 <= i < seen.len() ==> unrecognised(seen)[i + 1] == "            "@ + seen[i],
{
}

/// A packet is described by its protocol and the two addresses it carries where it is of version 4, and
/// by its length in any case.
pub proof fn law_a_packet_is_described_by_its_header(packet: Seq<u8>)
    ensures
        packet.len() >= 20 && packet[0] / 16 == 4 ==> described(packet) == protocol_name(packet[9])
            + " "@ + shown(
            IpAddr::V4(
                (((packet[12] * 256 + packet[13]) * 256 + packet[14]) * 256 + packet[15]) as u32,
            ),
        ) + " → "@ + shown(
            IpAddr::V4(
                (((packet[16] * 256 + packet[17]) * 256 + packet[18]) * 256 + packet[19]) as u32,
            ),
        ) + ", "@ + digits(packet.len()) + " bytes"@,
        packet.len() >= 40 && packet[0] / 16 == 6 ==> described(packet) == "ipv6, "@ + digits(
            packet.len(),
        ) + " bytes"@,
        packet.len() < 20 || (packet[0] / 16 != 4 && packet[0] / 16 != 6) || (packet[0] / 16 == 6
            && packet.len() < 40) ==> described(packet) == digits(packet.len())
            + " bytes, not an IP packet"@,
        protocol_name(1) == "icmp"@,
        protocol_name(6) == "tcp"@,
        protocol_name(17) == "udp"@,
        forall|protocol: u8|
            protocol != 1 && protocol != 6 && protocol != 17 ==> #[trigger] protocol_name(protocol)
                == "ip"@,
{
}

} // verus!
