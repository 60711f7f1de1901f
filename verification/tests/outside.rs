use masqr::address::written::parse;
use masqr::address::IpAddr;
use masqr::tun::outside::{
    covers, interface_for, interfaces_to_read, is_link_local, pick, routes_to, source_for,
    Candidate, RouteRow,
};

fn ip(written: &str) -> IpAddr {
    parse(written).expect("a literal address")
}

#[test]
fn a_prefix_covers_what_it_says_and_nothing_else() {
    assert!(
        covers(ip("0.0.0.0"), 0, ip("8.8.8.8")),
        "a default route covers everything"
    );
    assert!(covers(ip("8.8.8.0"), 24, ip("8.8.8.8")));
    assert!(covers(ip("8.8.8.8"), 32, ip("8.8.8.8")));
    assert!(!covers(ip("8.8.4.0"), 24, ip("8.8.8.8")));
    assert!(covers(ip("2001:4860::"), 32, ip("2001:4860:4860::8888")));
    assert!(!covers(ip("2606:4700::"), 32, ip("2001:4860:4860::8888")));
    assert!(!covers(ip("::"), 0, ip("8.8.8.8")), "never across families");
}

/// The order the stack uses. A shorter prefix never wins on metric: a host route into a VPN
/// beats the default route on the line however cheap the line is, and that is the route a
/// resolver on that VPN has to be asked by.
#[test]
fn the_longest_prefix_wins_and_then_the_lowest_metric() {
    let line = Candidate {
        luid: 1,
        prefix: 0,
        metric: 25,
    };
    let vpn = Candidate {
        luid: 2,
        prefix: 24,
        metric: 5000,
    };
    let backup = Candidate {
        luid: 3,
        prefix: 0,
        metric: 60,
    };
    assert_eq!(pick(&[line, vpn, backup]), Some(2));
    assert_eq!(pick(&[backup, line]), Some(1));
    assert_eq!(pick(&[]), None);
}

#[test]
fn a_link_local_destination_is_not_rebound() {
    assert!(is_link_local(ip("169.254.1.1")));
    assert!(is_link_local(ip("fe80::1")));
    assert!(!is_link_local(ip("8.8.8.8")));
    assert!(!is_link_local(ip("2001:4860:4860::8888")));
    let everything = RouteRow {
        luid: 1,
        prefix: Some(ip("::")),
        length: 0,
        metric: 1,
    };
    assert_eq!(
        interface_for(&[everything], &[(1, Some(1))], 0, ip("fe80::1")),
        None
    );
}

/// A row on this core's adapter, one that covers nothing of it and one on an interface that is not
/// connected are no way out.
#[test]
fn the_way_out_is_found_in_the_table() {
    let row = |luid: u64, prefix: &str, length: u8, metric: u32| RouteRow {
        luid,
        prefix: Some(ip(prefix)),
        length,
        metric,
    };
    let rows = [
        row(9, "8.8.8.8", 32, 0),
        row(1, "0.0.0.0", 0, 25),
        row(2, "8.8.8.0", 24, u32::MAX),
        row(3, "8.8.0.0", 16, 1),
        row(1, "8.0.0.0", 8, 1),
        row(4, "9.9.9.9", 32, 1),
        RouteRow {
            luid: 5,
            prefix: None,
            length: 0,
            metric: 0,
        },
    ];
    let to = ip("8.8.8.8");
    assert_eq!(interfaces_to_read(&rows, 9, to), [1, 2, 3]);
    let metrics = [(1, Some(10)), (2, Some(10)), (3, None)];
    let found = routes_to(&rows, &metrics, 9, to);
    assert_eq!(
        found,
        [
            Candidate {
                luid: 1,
                prefix: 0,
                metric: 35
            },
            Candidate {
                luid: 2,
                prefix: 24,
                metric: u32::MAX
            },
            Candidate {
                luid: 1,
                prefix: 8,
                metric: 11
            },
        ]
    );
    assert_eq!(interface_for(&rows, &metrics, 9, to), Some(2));
    assert_eq!(interface_for(&rows, &metrics, 9, ip("169.254.0.1")), None);
    assert_eq!(interface_for(&rows, &metrics, 9, ip("::1")), None);
    assert_eq!(source_for(Some(ip("0.0.0.0"))), None);
    assert_eq!(source_for(Some(ip("::"))), None);
    assert_eq!(source_for(Some(to)), Some(to));
    assert_eq!(source_for(None), None);
}
