use masqr::address::written::parse;
use masqr::address::IpAddr;
use masqr::log::Level;
use masqr::options::{parse_targets, wintun_path, Command, Options, TUN_MTU};
use masqr::transport::carrier::Choice;
use masqr::transport::handshake::Handshake;
use masqr::tun::prefixes::Prefix;

fn ip(written: &str) -> IpAddr {
    parse(written).expect("a literal address")
}

fn one(target: &str) -> Result<Vec<Prefix>, String> {
    parse_targets(&vec![target.to_string()]).map(|set| set.as_slice().to_vec())
}

/// Targets come from a command line, so the shapes a person actually types are what matter:
/// a bare address meaning one host, an explicit prefix, and something that is neither.
#[test]
fn targets_are_read_the_way_they_are_written() {
    assert_eq!(
        one("1.1.1.1").unwrap(),
        vec![(ip("1.1.1.1"), 32)]
    );
    assert_eq!(
        one("104.16.0.0/16").unwrap(),
        vec![(ip("104.16.0.0"), 16)]
    );
    assert_eq!(
        one("2606:4700::").unwrap(),
        vec![(ip("2606:4700::"), 128)]
    );

    assert!(
        one("1.1.1.1/33").is_err(),
        "a prefix past the family is refused"
    );
    assert!(one("1.1.1.1/").is_err(), "an empty prefix is refused");
    assert!(one("not-an-address").is_err());
}

/// No targets means the default, so that `masqr up` on its own is a complete check.
#[test]
fn no_targets_means_the_resolver_that_serves_the_trace_page() {
    let parsed: Vec<Prefix> = parse_targets(&Vec::new()).unwrap().as_slice().to_vec();
    assert_eq!(parsed, vec![(ip("1.1.1.1"), 32)]);
}

/// The same target twice is one route, not two attempts to install one.
#[test]
fn a_repeated_target_is_one_route() {
    let asked = vec!["1.1.1.1".to_string(), "1.1.1.1/32".to_string()];
    assert_eq!(parse_targets(&asked).unwrap().len(), 1);
}

fn line(words: &[&str]) -> Result<(String, Options), String> {
    Options::parse(&words.iter().map(|word| word.to_string()).collect())
}

#[test]
fn an_empty_line_is_a_probe_with_everything_left_to_the_defaults() {
    let (command, options) = line(&[]).unwrap();
    assert_eq!(command, "probe");
    assert_eq!(options.identity, "identity.json");
    assert_eq!(options.wintun, None);
    assert!(options.targets.is_empty());
    assert_eq!(options.dns_listen, None);
    assert_eq!(options.log_level, None);
    assert_eq!(options.handshake, None);
    assert_eq!(options.sni, None);
    assert_eq!(options.transport, None);
    assert_eq!(options.mtu, None);
    assert_eq!(options.adapter_mtu(), TUN_MTU);
}

#[test]
fn every_option_is_read() {
    let (command, options) = line(&[
        "--identity",
        "a.json",
        "up",
        "--wintun",
        "w.dll",
        "--target",
        "1.1.1.1",
        "--target",
        "8.8.8.8/32",
        "--log-level",
        "Debug",
        "--handshake",
        "fronted",
        "--sni",
        "example.com",
        "--transport",
        "h3",
        "--mtu",
        "1400",
        "--dns-listen",
        "127.0.0.1:53",
    ])
    .unwrap();
    assert_eq!(command, "up");
    assert_eq!(options.identity, "a.json");
    assert_eq!(options.wintun.as_deref(), Some("w.dll"));
    assert_eq!(options.targets, ["1.1.1.1", "8.8.8.8/32"]);
    assert_eq!(options.log_level, Some(Level::Debug));
    assert_eq!(options.handshake, Some(Handshake::Fronted));
    assert_eq!(options.sni.as_deref(), Some("example.com"));
    assert_eq!(options.transport, Some(Choice::H3));
    assert_eq!(options.adapter_mtu(), 1400);
    assert_eq!(options.dns_listen.unwrap().port, 53);
}

#[test]
fn a_line_that_does_not_do_says_why() {
    for (words, complaint) in [
        (&["--identity"][..], "--identity needs a value after it"),
        (&["--log-level", "loud"][..], "`loud` is not a level"),
        (
            &["--handshake", "slow"][..],
            "`slow` is not a handshake strategy",
        ),
        (&["--transport", "quic"][..], "`quic` is not auto, h3 or h2"),
        (&["--mtu", "many"][..], "`many` is not a number"),
        (&["--mtu", "1279"][..], "1279 is outside 1280..=9000"),
        (&["--mtu", "9001"][..], "9001 is outside 1280..=9000"),
        (
            &["--dns-listen", "127.0.0.1"][..],
            "`127.0.0.1` is not an address and port",
        ),
        (&["--loud"][..], "unknown option: --loud"),
        (&["up", "down"][..], "unexpected argument: down"),
        (
            &["--transport", "h3", "--handshake", "split"][..],
            "the split strategies cut TCP segments and have nothing to cut over h3",
        ),
        (
            &["--sni", "example.com", "--handshake", "named"][..],
            "--sni names what `fronted` presents; it means nothing beside another handshake",
        ),
    ] {
        assert_eq!(line(words).unwrap_err(), complaint);
    }
    assert!(line(&["--mtu", "1280", "--sni", "x"]).is_ok());
}

#[test]
fn a_command_is_one_of_six_words() {
    assert_eq!(Command::parse("version"), Some(Command::Version));
    assert_eq!(Command::parse("register"), Some(Command::Register));
    assert_eq!(Command::parse("probe"), Some(Command::Probe));
    assert_eq!(Command::parse("up"), Some(Command::Up));
    assert_eq!(Command::parse("names"), Some(Command::Names));
    assert_eq!(Command::parse("handshake"), Some(Command::Handshake));
    assert_eq!(Command::parse("Up"), None);
}

#[test]
fn the_library_is_looked_for_where_it_was_asked_for_or_beside_the_binary() {
    assert_eq!(wintun_path(Some("a"), "b", true), Ok("a".to_string()));
    assert_eq!(wintun_path(None, "b", true), Ok("b".to_string()));
    assert_eq!(
        wintun_path(Some("a"), "b", false),
        Err("no wintun.dll at a".to_string())
    );
    assert_eq!(
        wintun_path(None, "b", false),
        Err("wintun.dll is not at b — put it there, or name one with --wintun".to_string())
    );
}
