use masqr::queue::QueueStats;
use masqr::report::{announce, describe, kib, path, sized, traffic, waiting};
use masqr::state::{Core, Counters, PathReading, Phase};
use masqr::transport::carrier::Choice;
use masqr::transport::connect_ip::Stages;
use masqr::transport::handshake::{select, Handshake, Presented};
use masqr::warp::identity::Identity;

#[test]
fn sizes_are_rounded_as_a_measurement_is() {
    for count in [
        0,
        1,
        1023,
        1024,
        1075,
        1076,
        1280,
        1792,
        1_048_575,
        1_048_576,
        1_310_720,
        1_835_008,
        123_456_789,
        (1 << 53) + 262_145,
        u64::MAX - 262_143,
        u64::MAX,
    ] {
        let expected = match count {
            0..=1023 => format!("{count} B"),
            1024..=1_048_575 => format!("{:.1} KiB", count as f64 / 1024.0),
            _ => format!("{:.1} MiB", count as f64 / 1_048_576.0),
        };
        assert_eq!(sized(count), expected);
        assert_eq!(kib(count), format!("{:.1} KiB", count as f64 / 1024.0));
    }
    // A quarter and three quarters are as near to both neighbours: the even one is written.
    assert_eq!(sized(1280), "1.2 KiB");
    assert_eq!(sized(1792), "1.8 KiB");
}

#[test]
fn the_queue_is_said_in_two_lines() {
    let stats = QueueStats {
        packets: 3,
        bytes: 2048,
        flows: 2,
        over_limit: 4,
        over_target: 5,
        marked: 6,
        thinned: 7,
        stale: 8,
        interval: 100_000_000,
        worst_wait: 12_900_000,
    };
    assert_eq!(
        waiting(&stats),
        "3 pkt / 2.0 KiB in 2 flow(s) · worst wait 12 ms of 100 ms\n          told to slow down: 6 marked, 5 dropped · 4 over limit · 7 acks thinned · 8 stale"
    );
}

#[test]
fn the_path_and_the_traffic_are_said_in_one_line_each() {
    let reading = PathReading {
        rtt: 31_500_000,
        cwnd: 65_536,
        sent: 100,
        lost: 2,
        datagrams: 90,
        read: 88,
    };
    assert_eq!(
        path(&reading),
        "rtt 31 ms · cwnd 64.0 KiB · 2 of 100 pkt lost · 90 datagram(s) in, 88 read"
    );
    let mut core = Core::new();
    core.count_out(1500);
    core.count_out(36);
    core.count_back(20);
    let counters: Counters = core.counters();
    assert_eq!(traffic(&counters), "out 2 pkt / 1.5 KiB · in 1 pkt / 20 B");
}

#[test]
fn being_ready_is_said_once() {
    let mut ready = false;
    assert_eq!(
        announce(&Phase::Connecting { attempt: 1 }, &mut ready),
        ["tunnel    connecting"]
    );
    assert_eq!(
        announce(&Phase::Connecting { attempt: 3 }, &mut ready),
        ["tunnel    connecting, attempt 3"]
    );
    let up = Phase::Up {
        stages: Stages::H3 {
            quic_ms: 61,
            settings_ms: 1,
            connect_ms: 74,
        },
    };
    let first = announce(&up, &mut ready);
    assert_eq!(first.len(), 5);
    assert_eq!(
        first[0],
        "tunnel    up  (h3 · quic 61 · settings 1 · connect 74)"
    );
    assert!(ready);
    assert_eq!(announce(&up, &mut ready).len(), 1);
    let lost = |blocked: bool| Phase::Lost {
        reason: "gone".to_string(),
        retry_in: 4000,
        blocked,
    };
    assert_eq!(
        announce(&lost(false), &mut ready),
        ["tunnel    lost — gone", "tunnel    retrying in 4 s"]
    );
    assert_eq!(
        announce(&lost(true), &mut ready)[1],
        "tunnel    nothing here is wrong: something on the way refused the handshake"
    );
}

#[test]
fn a_device_is_described_with_how_its_tunnel_opens() {
    let identity = Identity {
        device_id: "device".into(),
        access_token: "token".into(),
        license: String::new(),
        private_key_sec1: String::new(),
        endpoint_public_key_pem: String::new(),
        assigned_v4: "172.16.0.2".into(),
        assigned_v6: "2606:4700::1".into(),
        endpoint_h2_v4: "162.159.198.2".into(),
        endpoint_v4: String::new(),
        endpoint_v6: String::new(),
    };
    let mut presented = Presented::new();
    assert_eq!(
        describe(&identity, Choice::Auto, &presented),
        [
            "  device    device",
            "  inside v4 172.16.0.2",
            "  inside v6 2606:4700::1",
            "  endpoint  162.159.198.1:443 (h3) · 162.159.198.2:443 (h2)",
            "  transport auto",
            "  hello     fronted (www.cloudflare.com)",
        ]
    );
    select(&mut presented, Handshake::NoSni);
    assert_eq!(
        describe(&identity, Choice::H2, &presented)[5],
        "  hello     no-sni (no name)"
    );
}
