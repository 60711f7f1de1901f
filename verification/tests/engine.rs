use masqr::address::written::parse;
use masqr::address::IpAddr;
use masqr::dns::lease::Leases;
use masqr::dns::message::Record;
use masqr::dns::server::Resolver;
use masqr::engine::{
    account, counted_since, cut_short_life, destination, enter, ipv6_to_probe, replace_device,
    source_moved, Action, EndpointLine, Engine, Event, Pump, PumpAction, PumpEvent, Replaced, Woken,
};
use masqr::state::{Core, PathReading, Phase};
use masqr::transport::carrier::{Carrier, Plan};
use masqr::transport::connect_ip::{ConnectError, LinkStats, Stages};
use masqr::warp::identity::Identity;

fn ip(written: &str) -> IpAddr {
    parse(written).expect("a literal address")
}

#[test]
fn a_tunnel_killed_on_volume_is_told_from_one_that_worked() {
    // The measured kill point on a classified flow is 19.2 KiB, a few seconds in.
    assert!(cut_short_life(11_000, 19 * 1024));
    // A session that carried real traffic is not it, however briefly it lasted.
    assert!(!cut_short_life(11_000, 4 * 1024 * 1024));
    // Nor is one that lived, even if the machine had nothing to send through it.
    assert!(!cut_short_life(600_000, 1024));
}

/// The destination sits at a different offset in each family, and reading the wrong one would
/// renew the lease on an address nothing is talking to while letting the real one expire.
#[test]
fn a_packet_says_where_it_is_going() {
    let mut v4 = vec![0x45u8; 20];
    v4[16..20].copy_from_slice(&[104, 16, 0, 1]);
    assert_eq!(
        destination(&v4),
        Some(ip("104.16.0.1"))
    );

    let mut v6 = vec![0x60u8; 40];
    v6[24..40].copy_from_slice(&[0x26, 0x06, 0x47, 0, 0, 0, 0, 0, 0, 0, 0, 0, 0, 0, 0, 1]);
    assert_eq!(
        destination(&v6),
        Some(ip("2606:4700::1"))
    );
}

/// Parking is lifted when the address the endpoint is reached from moves, and only then: a
/// parameter change on the same adapter, however often it arrives, is not a new line.
#[test]
fn only_a_moved_source_address_is_a_new_line() {
    let line: IpAddr = ip("192.168.1.64");
    let other: IpAddr = ip("10.0.0.7");
    let mut seen = Some(line);

    assert!(!source_moved(&mut seen, Some(line)));
    assert!(source_moved(&mut seen, None), "the adapter went away");
    assert!(source_moved(&mut seen, Some(line)), "and came back");
    assert!(source_moved(&mut seen, Some(other)), "a different network");
    assert!(!source_moved(&mut seen, Some(other)));
}

/// Anything too short to hold an address, or that is not an IP packet at all, renews nothing.
#[test]
fn something_that_is_not_a_packet_says_nothing() {
    assert_eq!(destination(&[]), None);
    assert_eq!(destination(&[0x45, 0x00]), None);
    assert_eq!(destination(&[0x60u8; 20]), None);
    assert_eq!(destination(&[0x25u8; 40]), None);
}

fn stages() -> Stages {
    Stages::H3 {
        quic_ms: 61,
        settings_ms: 1,
        connect_ms: 74,
    }
}

fn ended(carrier: Carrier, upgraded: bool, lived: u64, carried: u64) -> Event {
    Event::Ended {
        reason: "gone".into(),
        carrier,
        upgraded,
        lived,
        carried,
    }
}

/// Attempts count from one again once a tunnel came up, however it was lost, while the wait goes by
/// how often in a row there was none to carry on with.
#[test]
fn attempts_count_from_one_after_a_tunnel_was_up() {
    let mut engine = Engine::new();
    assert_eq!(
        engine.step(Event::Started),
        Action::Open {
            attempt: 1,
            unpark: false
        }
    );
    engine.step(Event::TimedOut);
    assert_eq!(
        engine.step(Event::Woke(Woken::Slept)),
        Action::Open {
            attempt: 2,
            unpark: false
        }
    );
    engine.step(Event::Opened { stages: stages() });
    assert!(matches!(
        engine.step(ended(Carrier::H2, false, 600_000, 1 << 30)),
        Action::Wait { retry_in: 1000, .. }
    ));
    for (attempt, wait) in [(1, 2000), (2, 4000), (3, 8000), (4, 15_000), (5, 15_000)] {
        assert_eq!(
            engine.step(Event::Woke(Woken::Slept)),
            Action::Open {
                attempt,
                unpark: false
            }
        );
        let Action::Wait { retry_in, .. } = engine.step(Event::TimedOut) else {
            panic!("a failure is waited out");
        };
        assert_eq!(retry_in, wait);
    }
}

/// The wait grows while nothing opens, stays at the last entry, and starts over once a tunnel came
/// up.
#[test]
fn the_wait_grows_until_a_tunnel_comes_up() {
    let mut engine = Engine::new();
    assert_eq!(
        engine.step(Event::Started),
        Action::Open {
            attempt: 1,
            unpark: false
        }
    );
    for (attempt, wait) in [1000, 2000, 4000, 8000, 15_000, 15_000].into_iter().enumerate() {
        let Action::Wait { retry_in, reason, .. } = engine.step(Event::TimedOut) else {
            panic!("a failure is waited out");
        };
        assert_eq!(retry_in, wait);
        assert_eq!(reason, "the tunnel did not open within 20 s");
        assert_eq!(
            engine.step(Event::Woke(Woken::Slept)),
            Action::Open {
                attempt: attempt + 2,
                unpark: false
            }
        );
    }
    assert_eq!(
        engine.step(Event::Opened { stages: stages() }),
        Action::Carry { stages: stages() }
    );
    assert!(matches!(
        engine.step(Event::TimedOut),
        Action::Wait { retry_in: 1000, .. }
    ));
}

#[test]
fn what_ends_the_wait_says_whether_http3_is_worth_another_try() {
    for (woken, lifted) in [
        (Woken::Slept, false),
        (Woken::Asked, true),
        (Woken::Line { moved: true }, true),
        (Woken::Line { moved: false }, false),
    ] {
        assert_eq!(
            Engine::new().step(Event::Woke(woken)),
            Action::Open {
                attempt: 1,
                unpark: lifted
            }
        );
    }
}

/// A refusal over HTTP/2 with a client error replaces the device; a cut handshake is something on
/// the way.
#[test]
fn a_tunnel_that_did_not_open_says_what_to_do_about_it() {
    let step = |problem: ConnectError| match Engine::new().step(Event::NotOpened { problem }) {
        Action::Wait {
            reason,
            blocked,
            replace,
            park,
            ..
        } => (reason, blocked, replace, park),
        _ => panic!("a failure is waited out"),
    };
    assert_eq!(
        step(ConnectError::Refused(403)),
        (
            "the endpoint refused the tunnel with 403 Forbidden".into(),
            false,
            Some(403),
            false
        )
    );
    assert_eq!(step(ConnectError::Refused(500)).2, None);
    assert_eq!(
        step(ConnectError::H3Refused(403)),
        (
            "the endpoint refused the tunnel over HTTP/3 with 403 Forbidden".into(),
            false,
            None,
            false
        )
    );
    assert_eq!(
        step(ConnectError::HandshakeCut {
            sni: "name".into(),
            how: "named"
        }),
        (
            "the TLS handshake (named, name name) was cut with no reply. On a filtered link that is what a blocked name looks like".into(),
            true,
            None,
            false
        )
    );
}

/// One short life is not evidence; a run of them is, or one that HTTP/2 was carrying a moment
/// before.
#[test]
fn a_run_of_short_lives_steps_down_from_http3() {
    let mut engine = Engine::new();
    let park = |engine: &mut Engine, event: Event| match engine.step(event) {
        Action::Wait {
            park, cut_short, ..
        } => (park, cut_short),
        _ => panic!("a tunnel that ended is waited out"),
    };
    assert_eq!(
        park(&mut engine, ended(Carrier::H3, false, 59_999, 262_143)),
        (false, None)
    );
    assert_eq!(
        park(&mut engine, ended(Carrier::H3, true, 1, 1)),
        (true, None)
    );
    assert_eq!(
        park(&mut engine, ended(Carrier::H3, false, 1, 1)),
        (true, Some(3))
    );
    assert_eq!(
        park(&mut engine, ended(Carrier::H2, false, 1, 1)),
        (false, Some(4))
    );
    assert_eq!(
        park(&mut engine, ended(Carrier::H3, true, 60_000, 1)),
        (false, None)
    );
    assert_eq!(engine.cut_short, 0);
}

#[test]
fn the_phase_is_what_is_being_done() {
    let mut core = Core::new();
    let mut engine = Engine::new();
    let action = engine.step(Event::Opened { stages: stages() });
    enter(&mut core, &action);
    assert_eq!(*core.phase(), Phase::Up { stages: stages() });
    let action = engine.step(ended(Carrier::H2, false, 1, 1));
    enter(&mut core, &action);
    assert_eq!(
        *core.phase(),
        Phase::Lost {
            reason: "gone".into(),
            retry_in: 1000,
            blocked: false
        }
    );
    let action = engine.step(Event::Woke(Woken::Slept));
    enter(&mut core, &action);
    assert_eq!(*core.phase(), Phase::Connecting { attempt: 1 });
}

#[test]
fn what_happens_while_a_tunnel_carries_decides_what_is_done() {
    let stats = LinkStats {
        rtt: 5,
        cwnd: 6,
        sent: 7,
        lost: 1,
        datagrams_in: 100,
    };
    let pump = Pump::new(Carrier::H2, None, 4);
    let over_quic = Pump::new(Carrier::H3, Some(stats), 40);
    let said = || "why".to_string();
    for (event, reason, lifted, stop) in [
        (
            PumpEvent::SendFailed(said()),
            "sending into the tunnel: why",
            false,
            false,
        ),
        (
            PumpEvent::AdapterEnded,
            "the adapter stopped delivering packets",
            false,
            true,
        ),
        (
            PumpEvent::ReceiveFailed(said()),
            "reading from the tunnel: why",
            false,
            false,
        ),
        (
            PumpEvent::Closed,
            "the endpoint closed the tunnel",
            false,
            false,
        ),
        (
            PumpEvent::WriteFailed(said()),
            "writing to the adapter: why",
            false,
            false,
        ),
        (
            PumpEvent::ProbeFailed(said()),
            "the endpoint stopped answering: why",
            false,
            false,
        ),
        (
            PumpEvent::ProbeTimedOut,
            "the endpoint did not answer within 5 s",
            false,
            false,
        ),
        (
            PumpEvent::ReconnectAsked,
            "a reconnect was asked for",
            true,
            false,
        ),
    ] {
        assert_eq!(
            pump.step(event),
            PumpAction::Stop {
                reason: reason.into(),
                unpark: lifted,
                stop_core: stop
            }
        );
    }
    assert_eq!(
        pump.step(PumpEvent::LineChanged { moved: true }),
        PumpAction::Settle { unpark: true }
    );
    let due = || PumpEvent::UpgradeDue {
        plan: Plan::H3ThenH2,
    };
    assert_eq!(pump.step(due()), PumpAction::TryHttp3);
    assert_eq!(over_quic.step(due()), PumpAction::Carry);
    assert_eq!(
        pump.step(PumpEvent::UpgradeDue {
            plan: Plan::Only(Carrier::H2)
        }),
        PumpAction::Carry
    );
    assert_eq!(pump.step(PumpEvent::UpgradeOpened), PumpAction::HandOver);
    assert_eq!(
        pump.step(PumpEvent::UpgradeFailed(said())),
        PumpAction::Park { problem: said() }
    );
    assert_eq!(
        pump.step(PumpEvent::UpgradeTimedOut),
        PumpAction::Park {
            problem: "it did not open within 20 s".into()
        }
    );
    assert_eq!(
        pump.step(PumpEvent::Answered {
            stats: Some(stats),
            read: 9
        }),
        PumpAction::Carry
    );
    let later = LinkStats {
        datagrams_in: 130,
        ..stats
    };
    assert_eq!(
        over_quic.step(PumpEvent::Answered {
            stats: Some(later),
            read: 69
        }),
        PumpAction::Report(PathReading {
            rtt: 5,
            cwnd: 6,
            sent: 7,
            lost: 1,
            datagrams: 30,
            read: 29
        })
    );
}

/// An address that carries traffic keeps its lease, and what goes out is counted.
#[test]
fn a_run_on_its_way_out_is_counted_and_renews_leases() {
    let mut core = Core::new();
    let mut leases = Leases::new(0);
    let address = ip("104.16.0.1");
    let record = Record {
        name: "a.test".into(),
        address,
        ttl: 60,
    };
    leases.record("a.test", &[record], 0);
    let mut resolver = Resolver::new(leases, None);
    let mut packet = vec![0x45u8; 20];
    packet[16..20].copy_from_slice(&[104, 16, 0, 1]);
    let held = |resolver: &mut Resolver, now: u64| {
        resolver.expire(now);
        resolver.leases().len()
    };
    let mut last = 0;
    while held(&mut resolver, last) == 1 {
        last += 1000;
        assert!(last < 100_000_000, "a lease that nothing uses ends");
    }
    let mut leases = Leases::new(0);
    let record = Record {
        name: "a.test".into(),
        address,
        ttl: 60,
    };
    leases.record("a.test", &[record], 0);
    let mut resolver = Resolver::new(leases, None);
    account(
        &mut core,
        &mut resolver,
        &vec![packet, vec![1, 2, 3]],
        last - 1000,
    );
    assert_eq!(core.counters().out.read(), (2, 23));
    assert_eq!(core.counters().back.read(), (0, 0));
    assert_eq!(held(&mut resolver, last), 1, "renewed by use");
}

#[test]
fn a_device_is_replaced_only_where_another_was_registered() {
    for (replaced, stopped) in [
        (Replaced::Yes, true),
        (Replaced::TooSoon, false),
        (Replaced::Failed("why".into()), false),
    ] {
        let mut core = Core::new();
        replace_device(&mut core, &replaced);
        assert_eq!(core.stopped(), stopped);
    }
}

#[test]
fn the_endpoint_and_the_address_to_probe_from_come_from_the_device() {
    let mut identity = Identity {
        device_id: String::new(),
        access_token: String::new(),
        license: String::new(),
        private_key_sec1: String::new(),
        endpoint_public_key_pem: String::new(),
        assigned_v4: "172.16.0.2".into(),
        assigned_v6: "2606:4700::1".into(),
        endpoint_h2_v4: "162.159.198.2".into(),
        endpoint_v4: String::new(),
        endpoint_v6: String::new(),
    };
    let mut line = EndpointLine::new(&identity);
    assert_eq!(line.endpoint, Some(ip("162.159.198.1")));
    assert!(!line.moved(None));
    assert!(line.moved(Some(ip("10.0.0.1"))));
    let core = Core::new();
    assert_eq!(
        ipv6_to_probe(&core, &identity),
        Some(0x2606_4700_0000_0000_0000_0000_0000_0001)
    );
    identity.assigned_v6 = "1.1.1.1".into();
    assert_eq!(ipv6_to_probe(&core, &identity), None);
    identity.endpoint_v4 = "nowhere".into();
    let mut line = EndpointLine::new(&identity);
    assert!(line.moved(None), "with no endpoint every change counts");
    assert_eq!(counted_since(7, 3), 4);
    assert_eq!(counted_since(3, 7), 0);
}
