use masqr::diagnose::handshake::{
    carriers, outcome, over, preamble, row, strategies, verdict, Attempt, CarryAction, CarryEvent,
    Carrying, Leaving, FRONTED_ONLY, NOTHING_OPENED, NOTHING_OVER_H3, NOT_FILTERED, RUN_FRONTED,
    RUN_ONE_OF_THOSE,
};
use masqr::diagnose::packets::icmp_echo_reply;
use masqr::diagnose::probe::{describe_packet, question, Probing, Then, Waited};
use masqr::ip::checksum;
use masqr::transport::carrier::Carrier;
use masqr::transport::connect_ip::{ConnectError, Stages};
use masqr::transport::handshake::Handshake;
use masqr::address::IpAddr;

const INSIDE: [u8; 4] = [172, 16, 0, 2];

/// The echo request turned round, as the far host sends it back.
fn reply_to(request: &[u8]) -> Vec<u8> {
    let mut reply = request.to_vec();
    for at in 0..4 {
        reply.swap(12 + at, 16 + at);
    }
    reply[20] = 0;
    reply[22..24].copy_from_slice(&[0, 0]);
    let sum = checksum(&reply[20..]);
    reply[22..24].copy_from_slice(&sum.to_be_bytes());
    reply
}

/// A tunnel that carries everything and answers every ping is usable, and no other is.
#[test]
fn a_strategy_that_carries_and_holds_is_usable() {
    let (mut carrying, mut action) = Carrying::begin(INSIDE);
    let mut waiting: Vec<Vec<u8>> = Vec::new();
    let mut echoes = 0;
    let said = loop {
        let event = match action {
            CarryAction::Send(packet) => {
                echoes += 1;
                assert_eq!(packet.len(), 1228);
                assert_eq!(checksum(&packet[..20]), 0);
                assert_eq!(checksum(&packet[20..]), 0);
                waiting.push(reply_to(&packet));
                CarryEvent::Sent
            }
            CarryAction::Space | CarryAction::Hold => CarryEvent::Passed,
            CarryAction::Receive { first } => {
                if first {
                    assert_eq!(waiting.len(), 8);
                }
                let packet = waiting.remove(0);
                assert!(icmp_echo_reply(&packet, INSIDE, 0x6d71).is_some());
                CarryEvent::Came(packet)
            }
            CarryAction::Probe => CarryEvent::Answered,
            CarryAction::Finish(said) => break said,
        };
        action = carrying.step(event);
    };
    assert_eq!(echoes, 64);
    assert_eq!(
        said,
        Ok("carried 76.8 KiB · 64/64 back · held 2 pings".to_string())
    );
}

/// How the run ends where every echo is sent and `reply` decides what comes back.
fn ends(mut reply: impl FnMut(usize) -> CarryEvent, probe: fn() -> CarryEvent) -> String {
    let (mut carrying, mut action) = Carrying::begin(INSIDE);
    let mut received = 0;
    loop {
        let event = match action {
            CarryAction::Send(_) => CarryEvent::Sent,
            CarryAction::Space | CarryAction::Hold => CarryEvent::Passed,
            CarryAction::Receive { .. } => {
                received += 1;
                reply(received)
            }
            CarryAction::Probe => probe(),
            CarryAction::Finish(said) => return said.unwrap_err(),
        };
        action = carrying.step(event);
    }
}

#[test]
fn each_way_of_not_carrying_is_said() {
    let failed = || CarryEvent::Failed("why".into());
    assert_eq!(
        ends(|_| CarryEvent::TimedOut, || CarryEvent::Answered),
        "only the target went quiet at 9.6 KiB (tunnel alive)"
    );
    assert_eq!(
        ends(|_| CarryEvent::TimedOut, || CarryEvent::TimedOut),
        "DIED after carrying 9.6 KiB"
    );
    assert_eq!(
        ends(|_| CarryEvent::Closed, || CarryEvent::Answered),
        "the tunnel closed after 9.6 KiB"
    );
    assert_eq!(
        ends(|_| failed(), || CarryEvent::Answered),
        "the tunnel failed after 9.6 KiB: why"
    );
    let (mut carrying, _) = Carrying::begin(INSIDE);
    let CarryAction::Finish(Err(said)) = carrying.step(CarryEvent::NotSent("why".into())) else {
        panic!("it is over");
    };
    assert_eq!(said, "the tunnel stopped taking packets after 1.2 KiB: why");

    // One reply per round is enough to go on; the pings then decide.
    let one_each = |received: usize| {
        if received % 2 == 1 {
            let mut packet = vec![0u8; 28];
            packet[0] = 0x45;
            packet[9] = 1;
            packet[16..20].copy_from_slice(&INSIDE);
            packet[24..26].copy_from_slice(&0x6d71u16.to_be_bytes());
            CarryEvent::Came(packet)
        } else {
            CarryEvent::TimedOut
        }
    };
    assert_eq!(
        ends(one_each, || CarryEvent::TimedOut),
        "carried 76.8 KiB, then no answer to ping 1 within 5 s"
    );
    assert_eq!(
        ends(one_each, || CarryEvent::Failed("why".into())),
        "carried 76.8 KiB, then failed on ping 1: why"
    );
}

#[test]
fn the_table_has_a_row_for_each_strategy_and_carrier() {
    assert_eq!(strategies(None).len(), 5);
    assert_eq!(strategies(Some(Handshake::Split)), [Handshake::Split]);
    assert_eq!(carriers(Handshake::Split), [Carrier::H2]);
    assert_eq!(carriers(Handshake::Named), [Carrier::H2, Carrier::H3]);
    let line = row(Handshake::Named, Carrier::H3, "opened");
    assert_eq!(
        line,
        format!(
            "{:<12} {:<5} {:<35} opened",
            "named",
            "h3",
            Handshake::Named.describes()
        )
    );
    let stages = Stages::H3 {
        quic_ms: 61,
        settings_ms: 1,
        connect_ms: 74,
    };
    let opened = |carried: Result<String, String>| Attempt::Opened {
        ms: 136,
        stages,
        carried,
    };
    assert_eq!(
        outcome(&opened(Ok("carried".into()))),
        (
            "opened in 136 ms (h3 · quic 61 · settings 1 · connect 74), carried".into(),
            true
        )
    );
    assert!(!outcome(&opened(Err("died".into()))).1);
    assert_eq!(
        outcome(&Attempt::Failed(ConnectError::Closed)),
        (
            "the tunnel was closed while a packet was waiting to be sent".into(),
            false
        )
    );
    assert_eq!(
        outcome(&Attempt::TimedOut),
        ("no answer within 20 s".into(), false)
    );
    let lines = preamble(&Leaving::By(IpAddr::V4(0x0a00_0001)));
    assert_eq!(lines.len(), 7);
    assert_eq!(
        lines[0],
        "leaving   by 10.0.0.1 (this machine's address on that path)"
    );
    assert_eq!(
        preamble(&Leaving::Unreachable("why".into()))[0],
        "leaving   the endpoint is not reachable at all: why"
    );
    assert_eq!(
        preamble(&Leaving::Unknown("why".into()))[0],
        "leaving   could not be established: why"
    );
}

#[test]
fn the_verdict_is_read_off_what_held_over_http2() {
    let held = vec![
        (Handshake::Named, Carrier::H3),
        (Handshake::Fronted, Carrier::H2),
        (Handshake::Split, Carrier::H2),
    ];
    let h2 = over(&held, Carrier::H2);
    assert_eq!(h2, [Handshake::Fronted, Handshake::Split]);
    assert_eq!(
        verdict(&Vec::new(), &Vec::new()),
        [NOTHING_OPENED, NOTHING_OVER_H3]
    );
    assert_eq!(
        verdict(&vec![Handshake::Fronted], &Vec::new()),
        [FRONTED_ONLY, RUN_FRONTED, NOTHING_OVER_H3]
    );
    assert_eq!(
        verdict(&h2, &vec![Handshake::Named]),
        [
            "verdict   this core can carry its own handshake on this link, with: fronted, split",
            RUN_ONE_OF_THOSE,
            "over h3   held with: named. `--transport auto` tries h3 first with the chosen handshake."
        ]
    );
    let unfiltered = verdict(&vec![Handshake::Named, Handshake::NoSni], &Vec::new());
    assert_eq!(unfiltered.len(), 4);
    assert_eq!(unfiltered[0], NOT_FILTERED);
    assert!(unfiltered[1].ends_with("the endpoint itself accepts: named, no-sni"));
}

/// The answer to the question the probe asks, with one address in it.
fn answer_to(query: &[u8]) -> Vec<u8> {
    let mut dns = query[28..].to_vec();
    dns[2] = 0x81;
    dns[6..8].copy_from_slice(&[0, 1]);
    dns.extend_from_slice(&[0xc0, 12, 0, 1, 0, 1, 0, 0, 1, 0, 0, 4, 104, 16, 132, 229]);
    let mut reply = query[..28].to_vec();
    for at in 0..4 {
        reply.swap(12 + at, 16 + at);
    }
    reply.swap(20, 22);
    reply.swap(21, 23);
    let total = 28 + dns.len() as u16;
    reply[2..4].copy_from_slice(&total.to_be_bytes());
    reply[24..26].copy_from_slice(&(8 + dns.len() as u16).to_be_bytes());
    reply.extend_from_slice(&dns);
    reply
}

#[test]
fn the_probe_recognises_its_answer_among_other_packets() {
    let query = question(INSIDE);
    let mut probing = Probing::new(INSIDE);
    let other = vec![0x60u8; 40];
    assert!(matches!(
        probing.step(Waited::Packet {
            packet: other.clone(),
            ms: 3
        }),
        Then::Wait
    ));
    let Then::Say(lines) = probing.step(Waited::Packet {
        packet: answer_to(&query),
        ms: 21,
    }) else {
        panic!("the answer is recognised");
    };
    assert_eq!(
        lines,
        [
            "probe     cloudflare.com → 104.16.132.229 in 21 ms",
            "",
            "OK        the tunnel carries traffic end to end"
        ]
    );

    let mut probing = Probing::new(INSIDE);
    for _ in 0..7 {
        assert!(matches!(
            probing.step(Waited::Packet {
                packet: other.clone(),
                ms: 1
            }),
            Then::Wait
        ));
    }
    let Then::Say(lines) = probing.step(Waited::Packet {
        packet: other,
        ms: 1,
    }) else {
        panic!("enough was looked at");
    };
    assert_eq!(lines.len(), 10);
    assert_eq!(lines[1], "          8 packet(s) did come back:");
    assert_eq!(lines[2], "            ipv6, 40 bytes");

    let say = |waited: Waited| match Probing::new(INSIDE).step(waited) {
        Then::Say(lines) => lines,
        _ => panic!("it is over"),
    };
    assert_eq!(
        say(Waited::TimedOut),
        [
            "probe     no packet came back within 10 s",
            "          nothing came back through the tunnel at all"
        ]
    );
    assert_eq!(
        say(Waited::Closed),
        ["probe     the endpoint closed the tunnel before an answer arrived"]
    );
    assert!(matches!(
        Probing::new(INSIDE).step(Waited::Failed("why".into())),
        Then::Fail(said) if said == "why"
    ));
    assert_eq!(
        describe_packet(&query),
        format!("udp 172.16.0.2 → 1.1.1.1, {} bytes", query.len())
    );
    assert_eq!(describe_packet(&[1, 2]), "2 bytes, not an IP packet");
}
