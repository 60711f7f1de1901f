use masqr::address::written::{parse, parse_socket};
use masqr::address::IpAddr;
use masqr::control::{answer, released, status, taken_over, Detail, Reply, Request, Step};
use masqr::dns::lease::Leases;
use masqr::dns::message::Record;
use masqr::dns::policy::{Kind, Match, PolicyInput, Resolver as Upstream, Rule, Via};
use masqr::dns::server::Resolver;
use masqr::log::{level, Journal, Level};
use masqr::names::NameError;
use masqr::state::{Core, Ipv6Support, PathReading, Phase};
use masqr::transport::connect_ip::Stages;
use masqr::transport::handshake::{fronted_name, Presented};
use masqr::tun::asked::Asked;
use masqr::tun::prefixes::Prefix;
use masqr::tun::{RouteTable, TunError};

/// A table that takes everything but what it is told to refuse.
#[derive(Default)]
struct Table {
    rows: Vec<Prefix>,
    refuse: Option<Prefix>,
}

impl RouteTable for Table {
    fn add(&mut self, destination: IpAddr, prefix: u8) -> Result<(), TunError> {
        if self.refuse == Some((destination, prefix)) {
            return Err(TunError::Route(destination, prefix, 5));
        }
        self.rows.push((destination, prefix));
        Ok(())
    }

    fn remove(&mut self, destination: IpAddr, prefix: u8) -> Result<(), TunError> {
        self.rows.retain(|row| *row != (destination, prefix));
        Ok(())
    }
}

struct Machine {
    core: Core,
    resolver: Resolver,
    journal: Journal,
    presented: Presented,
    table: Asked<Table>,
}

impl Machine {
    fn new(leased: &[&str], listen: Option<&str>) -> Machine {
        let mut leases = Leases::new(0);
        for address in leased {
            let record = Record {
                name: "a.test".into(),
                address: parse(address).unwrap(),
                ttl: 60,
            };
            leases.record("a.test", &[record], 0);
        }
        Machine {
            core: Core::new(),
            resolver: Resolver::new(leases, listen.and_then(parse_socket)),
            journal: Journal::new(),
            presented: Presented::new(),
            table: Asked::new(Table::default()),
        }
    }

    fn ask(&mut self, request: Request) -> Step {
        answer(
            request,
            &mut self.core,
            &mut self.resolver,
            &mut self.journal,
            &mut self.presented,
            &mut self.table,
        )
    }
}

fn routes(set: &[&str], ipv6: bool) -> Request {
    Request::Routes {
        set: set.iter().map(|one| one.to_string()).collect(),
        ipv6,
    }
}

fn refused(said: &str) -> Step {
    Step::Tell(Reply::Refused(said.to_string()))
}

fn moved(added: &[&str], removed: &[&str]) -> Step {
    let words = |list: &[&str]| list.iter().map(|one| one.to_string()).collect();
    Step::Tell(Reply::Routes {
        added: words(added),
        removed: words(removed),
    })
}

/// What is asked for and what names resolve to are routed together, and neither erases the other.
#[test]
fn the_routed_set_is_what_was_asked_for_and_what_is_leased() {
    let mut machine = Machine::new(&["9.9.9.9"], None);
    assert_eq!(
        machine.ask(routes(&["8.8.8.8/32", "1.1.1.1", "2606::/16"], true)),
        moved(&["1.1.1.1/32", "8.8.8.8/32", "9.9.9.9/32"], &[])
    );
    assert_eq!(
        machine.ask(routes(&["1.1.1.1"], true)),
        moved(&[], &["8.8.8.8/32"]),
        "the leased address stays"
    );
    assert_eq!(machine.ask(routes(&["1.1.1.1"], true)), moved(&[], &[]));
    assert_eq!(
        machine.ask(routes(&["1.1.1.1", "nonsense"], true)),
        refused("`nonsense` is not an address")
    );
    assert_eq!(machine.table.table().rows.len(), 2);
}

/// A prefix of the second family goes in once the tunnel was measured carrying it and the
/// application asked for it.
#[test]
fn ipv6_is_routed_only_where_it_is_wanted_and_carried() {
    let mut machine = Machine::new(&[], None);
    let v6 = (parse("2606::").unwrap(), 16);
    machine.ask(routes(&["2606::/16"], true));
    assert!(machine.table.table().rows.is_empty(), "not measured yet");
    assert!(machine.core.should_probe_ipv6());
    assert!(machine
        .core
        .set_carries_ipv6(true, &[], &mut machine.table));
    assert_eq!(machine.table.table().rows, [v6]);
    assert!(!machine
        .core
        .set_carries_ipv6(true, &[], &mut machine.table));
    assert_eq!(
        machine.ask(routes(&["2606::/16"], false)),
        moved(&[], &["2606::/16"])
    );
    machine.ask(routes(&["2606::/16"], true));
    assert!(machine
        .core
        .set_carries_ipv6(false, &[], &mut machine.table));
    assert!(machine.table.table().rows.is_empty());
    assert_eq!(machine.core.ipv6_support(), Ipv6Support::DoesNot);
    assert!(!machine.core.should_probe_ipv6(), "a no is kept");
}

#[test]
fn a_row_the_table_refuses_is_said() {
    let mut machine = Machine::new(&[], None);
    machine.table = Asked::new(Table {
        refuse: Some((parse("8.8.8.8").unwrap(), 32)),
        ..Table::default()
    });
    assert_eq!(
        machine.ask(routes(&["8.8.8.8", "1.1.1.1"], false)),
        refused("routing 8.8.8.8/32 into the tunnel failed with error 5")
    );
    assert_eq!(machine.core.routes().len(), 1, "the rest is in");
    let leased = [parse("7.7.7.7").unwrap()];
    assert_eq!(machine.core.routes_changed(&leased, &mut machine.table), 0);
    assert_eq!(machine.core.routes().len(), 2);
}

fn policy(resolver: &str) -> PolicyInput {
    PolicyInput {
        resolvers: vec![Upstream {
            id: "home".into(),
            kind: Kind::Plain,
            address: parse("192.168.1.1").unwrap(),
            url: None,
            via: Via::Tunnel,
        }],
        rules: vec![Rule {
            matcher: Match::Any,
            resolver: resolver.into(),
            programs: Vec::new(),
            route: true,
        }],
    }
}

#[test]
fn a_policy_is_installed_and_the_machine_made_to_forget() {
    let mut machine = Machine::new(&["9.9.9.9"], None);
    let Step::ForgetAndTell(Reply::Policy(report)) = machine.ask(Request::Dns {
        policy: policy("home"),
    }) else {
        panic!("the policy is taken");
    };
    assert_eq!((report.rules, report.resolvers, report.tunnelled), (1, 1, 1));
    assert_eq!(
        machine.table.table().rows,
        [(parse("9.9.9.9").unwrap(), 32)],
        "the table agrees with what is leased"
    );
    assert_eq!(
        machine.ask(Request::Dns {
            policy: policy("nobody")
        }),
        refused("rule 0 names the resolver `nobody`, which is not declared")
    );
    assert!(machine.resolver.upstream("home").is_some());
}

#[test]
fn the_level_changes_and_says_whether_it_moved() {
    let mut machine = Machine::new(&[], None);
    let told = |level: &str, moved: bool| {
        Step::Tell(Reply::Level {
            level: level.to_string(),
            moved,
        })
    };
    let ask = |machine: &mut Machine, level: &str| {
        machine.ask(Request::Log {
            level: level.to_string(),
        })
    };
    assert_eq!(ask(&mut machine, " Debug "), told("debug", true));
    assert_eq!(level(&machine.journal), Level::Debug);
    assert_eq!(ask(&mut machine, "trace"), told("debug", false));
    assert_eq!(
        ask(&mut machine, "loud"),
        refused("`loud` is not a level; it is one of error, warn, notice, info, debug")
    );
}

#[test]
fn names_are_claimed_only_where_they_are_answered() {
    let mut machine = Machine::new(&[], None);
    assert_eq!(machine.ask(Request::Names { claim: false }), Step::Release);
    assert_eq!(
        machine.ask(Request::Names { claim: true }),
        refused("this core is not answering names")
    );
    let mut machine = Machine::new(&[], Some("127.0.0.53:53"));
    assert_eq!(
        machine.ask(Request::Names { claim: true }),
        Step::TakeOver(parse("127.0.0.53").unwrap())
    );
    assert_eq!(released(3), Reply::Released { removed: 3 });
    assert_eq!(taken_over(Ok(())), Reply::Claimed);
    assert_eq!(
        taken_over(Err(NameError::NotCarried)),
        Reply::Refused(
            "the name policy was written but the machine did not use it".to_string()
        )
    );
    assert_eq!(
        taken_over(Err(NameError::Registry("creating the rule", 5))),
        Reply::Refused(
            "the name policy could not be written (creating the rule failed with error 5)"
                .to_string()
        )
    );
}

#[test]
fn the_small_commands_do_what_they_say() {
    let mut machine = Machine::new(&[], None);
    assert_eq!(
        machine.ask(Request::Sni {
            name: "example.com".into()
        }),
        Step::Tell(Reply::Done)
    );
    assert_eq!(fronted_name(&machine.presented), "example.com");
    assert_eq!(
        machine.ask(Request::Sni {
            name: "no name".into()
        }),
        refused("`no name` is not a DNS name")
    );
    assert_eq!(fronted_name(&machine.presented), "example.com");
    assert_eq!(machine.ask(Request::Reconnect), Step::Tell(Reply::Done));
    assert!(!machine.core.stopped());
    assert_eq!(machine.ask(Request::Stop), Step::Tell(Reply::Done));
    assert!(machine.core.stopped());
}

#[test]
fn the_status_is_everything_there_is_to_tell() {
    let mut machine = Machine::new(&["9.9.9.9", "7.7.7.7"], None);
    machine.ask(routes(&["8.8.8.0/24"], false));
    machine.core.count_out(100);
    machine.core.count_back(7);
    let told = status(&machine.core, &machine.resolver, &machine.journal);
    assert_eq!(told.state, "connecting");
    assert_eq!(told.detail, Detail::Connecting { attempt: 1 });
    assert_eq!(told.routes, ["7.7.7.7/32", "8.8.8.0/24", "9.9.9.9/32"]);
    assert_eq!(told.out, (1, 100));
    assert_eq!(told.back, (1, 7));
    assert_eq!(told.level, "info");
    assert_eq!(told.ipv6, "not measured yet");
    assert_eq!(told.leases, 2);

    machine.core.set_phase(Phase::Up {
        stages: Stages::H2 {
            tcp_ms: 1,
            tls_ms: 2,
            http2_ms: 3,
            connect_ms: 4,
        },
    });
    machine.core.set_path(Some(PathReading {
        rtt: 31_999_999,
        cwnd: 2,
        sent: 3,
        lost: 4,
        datagrams: 5,
        read: 6,
    }));
    let Detail::Up {
        transport,
        stages,
        path,
    } = status(&machine.core, &machine.resolver, &machine.journal).detail
    else {
        panic!("the tunnel is up");
    };
    assert_eq!(transport, "h2");
    let times: Vec<(&str, u64)> = stages.iter().map(|(name, ms)| (name.as_str(), *ms)).collect();
    assert_eq!(
        times,
        [
            ("tcp_ms", 1),
            ("tls_ms", 2),
            ("http2_ms", 3),
            ("connect_ms", 4)
        ]
    );
    assert_eq!(path.unwrap().rtt_ms, 31);

    machine.core.set_phase(Phase::Lost {
        reason: "gone".into(),
        retry_in: 2000,
        blocked: true,
    });
    assert_eq!(
        status(&machine.core, &machine.resolver, &machine.journal).detail,
        Detail::Lost {
            reason: "gone".into(),
            retry_in_ms: 2000,
            blocked: true
        }
    );
}

/// The line's address for a destination is looked up once per line, and again after a while.
#[test]
fn a_line_address_is_trusted_until_the_line_changes_or_it_is_old() {
    let mut core = Core::new();
    let to = parse("8.8.8.8").unwrap();
    let from = Some(parse("10.0.0.1").unwrap());
    assert_eq!(core.line_source(to, 0), None);
    assert!(core.line_source_found(to, from, 1000));
    assert_eq!(core.line_source(to, 30_999), Some(from));
    assert_eq!(core.line_source(to, 31_000), None);
    assert!(!core.line_source_found(to, from, 31_000));
    core.line_changed(7, 1);
    assert_eq!(core.line_change().interface, 7);
    assert_eq!(core.line_source(to, 31_001), None);
    assert!(core.line_source_found(to, None, 31_001));
    assert_eq!(core.line_source(to, 31_002), Some(None));
}
