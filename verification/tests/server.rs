use masqr::address::written::{parse, parse_socket};
use masqr::dns::lease::Leases;
use masqr::dns::message::{read_query, CLASS_IN, HEADER_LEN, TYPE_A};
use masqr::dns::policy::{Kind, Match, PolicyInput, Rule, Via};
use masqr::dns::policy::Resolver as Upstream;
use masqr::dns::server::{
    failure_reply, name_of_type, query_length, Choice, Incoming, InstallError, Resolver, Unasked,
};
use masqr::log::Level;
use masqr::dns::upstream::UpstreamError;

/// A resolver with nothing installed, which is all the watch needs: it sits ahead of the
/// policy on purpose, so that a name asked to prove the machine reaches here is never
/// forwarded to an upstream that has no interest in it.
fn bare() -> Resolver {
    Resolver::new(Leases::new(0), None)
}

/// The one thing that proves the machine's names arrive here is one of them arriving here.
#[test]
fn the_watched_name_arriving_is_what_says_so() {
    let mut resolver = bare();
    resolver.watch_for("Abc.masqr-check.invalid");

    // Case is not part of the question: a name is asked in whatever case the asker wrote it.
    assert!(resolver.watching_for("abc.masqr-check.invalid"));
}

/// And every other name goes on to the policy as it always did.
#[test]
fn another_name_is_not_the_one_being_watched_for() {
    let mut resolver = bare();
    resolver.watch_for("abc.masqr-check.invalid");

    assert!(!resolver.watching_for("example.com"));
}

/// A check that ended takes its watch with it, whether or not the name ever came — otherwise
/// the next run of the same name would be answered by a check nobody is waiting on.
#[test]
fn a_watch_that_was_stopped_catches_nothing() {
    let mut resolver = bare();
    resolver.watch_for("abc.masqr-check.invalid");
    resolver.stop_watching();

    assert!(!resolver.watching_for("abc.masqr-check.invalid"));
}

/// It fires once. The name is asked again by a retry or a second program, and answering that
/// as though it were the proof would be reporting a check that nobody ran.
#[test]
fn the_name_arriving_twice_is_noticed_once() {
    let mut resolver = bare();
    resolver.watch_for("abc.masqr-check.invalid");

    assert!(resolver.watching_for("abc.masqr-check.invalid"));
    assert!(!resolver.watching_for("abc.masqr-check.invalid"));
}

fn query_bytes() -> Vec<u8> {
    let mut bytes = vec![
        0x2a, 0x2a, // id
        0x01, 0x20, // a standard query, recursion desired
        0x00, 0x01, // one question
        0x00, 0x02, // and, wrongly, two answers
        0x00, 0x03, // three authority
        0x00, 0x04, // four additional
    ];
    for label in ["www", "example", "com"] {
        bytes.push(label.len() as u8);
        bytes.extend_from_slice(label.as_bytes());
    }
    bytes.push(0);
    bytes.extend_from_slice(&TYPE_A.to_be_bytes());
    bytes.extend_from_slice(&CLASS_IN.to_be_bytes());
    bytes
}

/// A failure has to be recognisable as an answer to this exact question, or the client treats
/// it as noise and waits out its timeout anyway.
#[test]
fn a_failure_keeps_the_question_and_says_it_failed() {
    let query = query_bytes();
    let reply = failure_reply(&query).unwrap();

    assert_eq!(&reply[0..2], &query[0..2], "the same transaction");
    assert_eq!(reply[2] & 0b1000_0000, 0b1000_0000, "it is a reply");
    assert_eq!(reply[3] & 0x0f, 2, "the server failed");
    assert_eq!(&reply[4..6], &query[4..6], "the question is still declared");
    assert_eq!(&reply[6..12], &[0; 6], "and nothing follows it");
    assert_eq!(
        &reply[12..],
        &query[12..],
        "the question itself is untouched"
    );

    // And it is still a message this codebase can read.
    let asked = read_query(&reply).unwrap();
    assert_eq!(asked.name, "www.example.com");
}

#[test]
fn something_too_short_to_be_a_query_gets_no_failure_either() {
    for length in 0..HEADER_LEN {
        assert!(failure_reply(&vec![0u8; length]).is_none());
    }
}

fn policy(route: bool) -> PolicyInput {
    PolicyInput {
        resolvers: vec![
            Upstream {
                id: "home".into(),
                kind: Kind::Plain,
                address: parse("192.168.1.1").unwrap(),
                url: None,
                via: Via::Direct,
            },
            Upstream {
                id: "warp".into(),
                kind: Kind::Doh,
                address: parse("1.1.1.1").unwrap(),
                url: Some("https://cloudflare-dns.com/dns-query".into()),
                via: Via::Tunnel,
            },
        ],
        rules: vec![
            Rule {
                matcher: Match::Suffix("example.com".into()),
                resolver: "warp".into(),
                programs: Vec::new(),
                route,
            },
            Rule {
                matcher: Match::Any,
                resolver: "home".into(),
                programs: Vec::new(),
                route: false,
            },
        ],
    }
}

fn listening(at: &str) -> Resolver {
    Resolver::new(Leases::new(0), parse_socket(at))
}

/// What can be refused is refused at install, and leaves what was there.
#[test]
fn a_policy_that_cannot_work_is_refused_when_it_is_installed() {
    let mut resolver = listening("192.168.1.1:53");
    let refused = resolver.install(policy(true)).unwrap_err();
    assert_eq!(refused, InstallError::Circular("home".into()));
    assert_eq!(
        refused.text(),
        "the resolver `home` is this core's own address; every name sent there would be a question asked of itself"
    );

    let mut undecided = policy(true);
    undecided.rules.pop();
    let refused = resolver.install(undecided).unwrap_err();
    assert_eq!(refused, InstallError::NoCatchAll);
    assert!(refused
        .text()
        .starts_with("the policy decides nothing about some names; add a rule matching `any`"));

    let mut bad = policy(true);
    bad.resolvers[0].address = parse("10.0.0.1").unwrap();
    bad.resolvers[1].url = Some("no url".into());
    let refused = resolver.install(bad).unwrap_err();
    assert_eq!(
        refused,
        InstallError::Upstream(UpstreamError::BadUrl("no url".into()))
    );
    assert_eq!(refused.text(), "`no url` is not a url");

    let mut twice = policy(true);
    twice.resolvers[1].id = "home".into();
    let refused = resolver.install(twice).unwrap_err();
    assert_eq!(
        refused.text(),
        "the resolver `home` is declared more than once"
    );
    assert!(resolver.upstream("home").is_none(), "nothing was installed");
}

/// A query from its arrival to its answer: which upstream is asked, and what becomes of the answer.
#[test]
fn a_query_is_sent_where_the_policy_says_and_its_answer_becomes_routing() {
    let mut resolver = listening("127.0.0.1:53");
    let query = query_bytes();
    let Incoming::Asked(asked) = resolver.receive(&query) else {
        panic!("a query that can be read is asked about");
    };
    assert_eq!(asked.name, "www.example.com");
    assert!(matches!(
        resolver.select(&query, &asked, None),
        Choice::Reply { reply: Some(reply), why: Unasked::NoPolicy }
            if reply == failure_reply(&query).unwrap()
    ));

    let report = resolver.install(policy(true)).unwrap();
    assert_eq!((report.rules, report.resolvers, report.tunnelled), (2, 2, 1));
    assert_eq!(resolver.tunnelled_resolvers(), [parse("1.1.1.1").unwrap()]);
    let Choice::Ask(asking) = resolver.select(&query, &asked, None) else {
        panic!("an upstream is asked");
    };
    assert_eq!(asking.resolver, "warp");
    assert_eq!(asking.rule, 0);
    assert_eq!(asking.via, Via::Tunnel);
    assert!(asking.route);

    // The question, answered: one address.
    let mut reply = query.clone();
    reply[2] = 0x81;
    reply[6..12].copy_from_slice(&[0, 1, 0, 0, 0, 0]);
    reply.extend_from_slice(&[0xc0, 12, 0, 1, 0, 1, 0, 0, 1, 0, 0, 4, 104, 16, 0, 1]);
    let settled = resolver.settle(&query, &asked, asking.route, Ok(reply.clone()), 10);
    assert_eq!(settled.reply, Some(reply.clone()));
    assert!(settled.routes_changed);
    assert_eq!(settled.found.len(), 1);
    assert_eq!(
        resolver.leases().addresses(),
        [parse("104.16.0.1").unwrap()]
    );
    let again = resolver.settle(&query, &asked, asking.route, Ok(reply.clone()), 20);
    assert!(!again.routes_changed, "the address is already routed");
    let direct = resolver.settle(&query, &asked, false, Ok(reply), 20);
    assert!(!direct.routes_changed, "the rule does not route");

    let failed = resolver.settle(&query, &asked, true, Err(UpstreamError::Timeout), 30);
    assert_eq!(failed.reply, failure_reply(&query));
    resolver.routed(1);
    let stats = resolver.stats();
    assert_eq!(stats.queries, 1);
    assert_eq!(stats.answered, 3);
    assert_eq!(stats.failed, 2);
    assert_eq!(stats.routed, 1);

    assert!(!resolver.expire(30));
    assert!(resolver.expire(u64::MAX));
    assert!(resolver.leases().is_empty());
}

#[test]
fn a_name_that_is_watched_for_is_answered_without_the_policy() {
    let mut resolver = bare();
    let query = query_bytes();
    resolver.watch_for("WWW.example.com");
    assert!(matches!(
        resolver.receive(&query),
        Incoming::Arrived(Some(reply)) if reply == failure_reply(&query).unwrap()
    ));
    assert!(matches!(resolver.receive(&query), Incoming::Asked(_)));
    assert!(matches!(resolver.receive(&[1, 2, 3]), Incoming::Reply(None)));
    assert!(matches!(resolver.receive(&[0; 12]), Incoming::Reply(Some(_))));
}

#[test]
fn small_things_are_read_as_they_are_written() {
    assert_eq!(name_of_type(1), "A");
    assert_eq!(name_of_type(28), "AAAA");
    assert_eq!(name_of_type(65), "?");
    assert_eq!(query_length([0, 11]), None);
    assert_eq!(query_length([0, 12]), Some(12));
    assert_eq!(query_length([0xff, 0xff]), Some(65_535));
}

/// Each reason to ask no upstream is told apart, and said as it is.
#[test]
fn a_query_put_to_no_upstream_says_why() {
    let asked = read_query(&query_bytes()).expect("a query");
    assert_eq!(
        Unasked::NoPolicy.text(&asked),
        "A www.example.com arrived before a policy was installed"
    );
    assert_eq!(
        Unasked::Undecided.text(&asked),
        "the policy decides nothing about www.example.com"
    );
    let unprepared = Unasked::NotPrepared {
        rule: 3,
        resolver: "home".into(),
    };
    assert_eq!(
        unprepared.text(&asked),
        "rule 3 names the resolver `home`, which was not prepared"
    );
    assert_eq!(unprepared.level(), Level::Error);
    assert_eq!(Unasked::NoPolicy.level(), Level::Warn);
    assert_eq!(Unasked::Undecided.level(), Level::Warn);
}

/// The report counts the upstreams the rules name, not the ones that were declared.
#[test]
fn an_install_reports_the_upstreams_its_rules_name() {
    let mut resolver = bare();
    let mut input = policy(true);
    input.rules = vec![Rule {
        matcher: Match::Any,
        resolver: "home".into(),
        programs: Vec::new(),
        route: false,
    }];
    let report = resolver.install(input).unwrap();
    assert_eq!((report.rules, report.resolvers, report.tunnelled), (1, 1, 1));
}
