use masqr::address::written::{parse, parse_socket};
use masqr::address::{IpAddr, SocketAddr};
use masqr::dns::message::HEADER_LEN;
use masqr::dns::policy::{Kind, Resolver, Via};
use masqr::dns::upstream::{
    after_http, after_udp, belongs, framed, framed_length, is_truncated, local, plan,
    transaction_id, with_client, Plan, Received, Upstream, UpstreamError, Upstreams,
};

/// The bit that says an answer did not fit.
const FLAG_TRUNCATED: u8 = 0b10;

fn ip(written: &str) -> IpAddr {
    parse(written).expect("a literal address")
}

fn socket(written: &str) -> SocketAddr {
    parse_socket(written).expect("a literal address and port")
}

fn message(id: u16, truncated: bool) -> Vec<u8> {
    let mut bytes = vec![0u8; HEADER_LEN];
    bytes[0..2].copy_from_slice(&id.to_be_bytes());
    bytes[2] = 0x81;
    bytes[3] = if truncated { FLAG_TRUNCATED } else { 0 };
    bytes
}

fn plain(address: &str) -> Resolver {
    Resolver {
        id: "test".into(),
        kind: Kind::Plain,
        address: ip(address),
        url: None,
        via: Via::Direct,
    }
}

fn loopback() -> Option<IpAddr> {
    Some(ip("127.0.0.1"))
}

/// The address a socket is bound to when none is given is the target family's unbound one.
#[test]
fn without_an_address_the_socket_is_left_to_the_routing_table() {
    let v4: SocketAddr = socket("8.8.8.8:53");
    let v6: SocketAddr = socket("[2001:4860:4860::8888]:53");
    assert_eq!(local(v4, None), IpAddr::V4(0));
    assert_eq!(local(v6, None), IpAddr::V6(0));
    assert_eq!(local(v4, loopback()), loopback().unwrap());
}

/// A DoH client dials from one address for its whole life, so a new address means a new client
/// — and the same address again must not throw away the pool and its TLS session.
#[test]
fn a_doh_client_is_rebuilt_only_when_the_address_it_dials_from_changes() {
    let resolver = Resolver {
        id: "doh".into(),
        kind: Kind::Doh,
        address: ip("8.8.8.8"),
        url: Some("https://dns.google/dns-query".into()),
        via: Via::Direct,
    };
    let bound = |prepared: &Upstreams| match prepared.get("doh") {
        Some(Upstream::Doh(doh)) => doh.bound.from,
        _ => panic!("a DoH resolver prepares a DoH upstream"),
    };
    let mut prepared = match Upstreams::build(&vec![resolver]) {
        Ok(prepared) => prepared,
        Err(error) => panic!("{error:?}"),
    };

    assert_eq!(bound(&prepared), None, "prepared unbound");
    prepared.dial_from("doh", loopback()).unwrap();
    assert_eq!(bound(&prepared), loopback());
    let Some(Upstream::Doh(doh)) = prepared.get("doh") else {
        unreachable!()
    };
    assert!(!doh.needs_client(loopback()));
    assert!(doh.needs_client(None));
    prepared.dial_from("doh", loopback()).unwrap();
    assert_eq!(
        bound(&prepared),
        loopback(),
        "the same address keeps the client"
    );
    prepared.dial_from("doh", None).unwrap();
    assert_eq!(bound(&prepared), None);
}

/// Where it is dialled, and under which name, comes out of the url.
#[test]
fn a_doh_resolver_is_dialled_where_its_url_says() {
    let resolver = |url: &str| Resolver {
        id: "doh".into(),
        kind: Kind::Doh,
        address: ip("8.8.8.8"),
        url: Some(url.into()),
        via: Via::Direct,
    };
    for (url, host, port) in [
        ("https://DNS.google/dns-query", "dns.google", 443),
        ("https://dns.google:8443/dns-query", "dns.google", 8443),
        ("https://dns.google:443/", "dns.google", 443),
    ] {
        let prepared = match Upstreams::build(&vec![resolver(url)]) {
            Ok(prepared) => prepared,
            Err(error) => panic!("{error:?}"),
        };
        let Some(Upstream::Doh(doh)) = prepared.get("doh") else {
            unreachable!()
        };
        assert_eq!(doh.host, host);
        assert_eq!(doh.url, url);
        assert_eq!(doh.dialled, socket(&format!("8.8.8.8:{port}")));
        assert!(doh.client().get(url).build().is_ok());
    }
    assert!(matches!(
        Upstreams::build(&vec![resolver("data:text/plain,x")]),
        Err(UpstreamError::NoHost(url)) if url == "data:text/plain,x"
    ));
    let Err(error) = with_client(
        "doh".into(),
        "u".into(),
        "h".into(),
        socket("8.8.8.8:443"),
        Err("why".into()),
    ) else {
        unreachable!()
    };
    assert_eq!(
        error,
        UpstreamError::Client {
            id: "doh".into(),
            source: "why".into()
        }
    );
    let planned = plan(&resolver("x"), Some((Some("h".into()), Some(8443))));
    assert!(matches!(planned, Ok(Plan::Doh { dialled, .. }) if dialled.port == 8443));
}

#[test]
fn every_way_an_upstream_can_fail_is_said() {
    for (error, said) in [
        (UpstreamError::BadUrl("x".into()), "`x` is not a url"),
        (
            UpstreamError::NoHost("x".into()),
            "the url `x` names no host, so there is nothing to check a certificate against",
        ),
        (
            UpstreamError::Client {
                id: "x".into(),
                source: "why".into(),
            },
            "preparing the client for `x`: why",
        ),
        (UpstreamError::Io("why".into()), "io: why"),
        (
            UpstreamError::Timeout,
            "the resolver did not answer within 4 s",
        ),
        (
            UpstreamError::Http(503),
            "the resolver answered with http 503 Service Unavailable",
        ),
        (
            UpstreamError::Http(799),
            "the resolver answered with http 799 <unknown status code>",
        ),
        (
            UpstreamError::Request("why".into()),
            "asking the resolver: why",
        ),
        (
            UpstreamError::TooShort(3),
            "the answer is 3 bytes, which is too short to be a dns message",
        ),
        (
            UpstreamError::Mismatched,
            "the answer carries another question's id",
        ),
    ] {
        assert_eq!(error.text(), said);
    }
}

/// UDP first, and TCP when the answer says it did not fit; an answer belongs to its question.
#[test]
fn a_reply_is_passed_on_asked_for_again_or_refused() {
    assert_eq!(after_udp(&message(1, false)), Ok(Received::Reply));
    assert_eq!(after_udp(&message(1, true)), Ok(Received::AskOverTcp));
    assert_eq!(after_udp(&[0; 5]), Err(UpstreamError::TooShort(5)));
    assert_eq!(after_http(200), Ok(()));
    assert_eq!(after_http(404), Err(UpstreamError::Http(404)));
    let query = message(7, false);
    assert_eq!(belongs(&query, &message(7, true)), Ok(()));
    assert_eq!(
        belongs(&query, &message(8, false)),
        Err(UpstreamError::Mismatched)
    );
    assert_eq!(
        belongs(&query, &[7]),
        Err(UpstreamError::TooShort(1))
    );
    let frame = framed(&query).unwrap();
    assert_eq!(framed_length([frame[0], frame[1]]), query.len());
    assert_eq!(&frame[2..], &query[..]);
    assert_eq!(framed(&vec![0; 65_536]), None);
}

/// The id is the only thing tying an answer to a question. Accepting one that does not match is
/// how a forwarder hands the machine somebody else's answer.
#[test]
fn an_answer_carrying_another_id_is_refused() {
    let query = message(0x1111, false);
    let reply = message(0x2222, false);
    assert_eq!(transaction_id(&query).unwrap(), 0x1111);
    assert!(matches!(
        transaction_id(&reply).map(|id| id == 0x1111),
        Ok(false)
    ));
}

#[test]
fn something_too_short_to_be_a_message_is_refused_rather_than_indexed_into() {
    for length in 0..HEADER_LEN {
        assert!(matches!(
            transaction_id(&vec![0u8; length]),
            Err(UpstreamError::TooShort(_))
        ));
        assert!(matches!(
            is_truncated(&vec![0u8; length]),
            Err(UpstreamError::TooShort(_))
        ));
    }
}

#[test]
fn a_doh_resolver_with_an_unusable_url_is_refused_when_it_is_prepared() {
    let bad = Resolver {
        id: "doh".into(),
        kind: Kind::Doh,
        address: ip("1.1.1.1"),
        url: Some("not a url".into()),
        via: Via::Direct,
    };
    assert!(matches!(
        Upstreams::build(&vec![bad]),
        Err(UpstreamError::BadUrl(_))
    ));
}

#[test]
fn every_declared_resolver_is_prepared_under_its_own_name() {
    let one = plain("1.1.1.1");
    let mut two = plain("8.8.8.8");
    two.id = "other".into();
    let prepared = match Upstreams::build(&vec![one, two]) {
        Ok(prepared) => prepared,
        Err(error) => panic!("{error:?}"),
    };
    assert!(prepared.get("test").is_some());
    assert!(prepared.get("other").is_some());
    assert!(prepared.get("absent").is_none());
}

/// A client that cannot be had leaves the one that is there.
#[test]
fn a_client_is_bound_where_there_is_one() {
    let client = Ok(reqwest::Client::new());
    let at = socket("8.8.8.8:443");
    let Ok(Upstream::Doh(mut doh)) = with_client("doh".into(), "u".into(), "h".into(), at, client)
    else {
        unreachable!()
    };
    let from = Some(ip("192.0.2.1"));
    assert!(doh.needs_client(from));
    assert_eq!(
        doh.bind(from, Err("why".into())),
        Err(UpstreamError::Client {
            id: "doh".into(),
            source: "why".into()
        })
    );
    assert_eq!(doh.bound.from, None);
    assert_eq!(doh.bind(from, Ok(reqwest::Client::new())), Ok(()));
    assert_eq!(doh.bound.from, from);
    assert!(!doh.needs_client(from));
}
