use masqr::address::written::parse;
use masqr::address::IpAddr;
use masqr::dns::lease::{Leases, MIN_LEASE};
use masqr::dns::message::{read_query, Query, CLASS_IN, TYPE_A, TYPE_AAAA};
use masqr::dns::server::{Resolver, Settled};
use masqr::dns::upstream::UpstreamError;
use masqr::routing::{settle, sweep};
use masqr::state::Core;
use masqr::tun::asked::Asked;
use masqr::tun::prefixes::{Prefix, Prefixes};
use masqr::tun::{RouteTable, TunError};

/// A table that takes everything but what it is told to refuse.
#[derive(Default)]
struct Table {
    rows: Vec<Prefix>,
    refuse: Option<Prefix>,
}

impl RouteTable for Table {
    fn add(&mut self, destination: IpAddr, prefix: u8) -> Result<(), TunError> {
        if self.refuse == Some((destination, prefix)) {
            return Err(TunError::Route(destination, prefix, 5));
        }
        self.rows.push((destination, prefix));
        Ok(())
    }

    fn remove(&mut self, destination: IpAddr, prefix: u8) -> Result<(), TunError> {
        self.rows.retain(|row| *row != (destination, prefix));
        Ok(())
    }
}

struct Machine {
    core: Core,
    resolver: Resolver,
    table: Asked<Table>,
}

impl Machine {
    fn new(table: Table) -> Machine {
        Machine {
            core: Core::new(),
            resolver: Resolver::new(Leases::new(0), None),
            table: Asked::new(table),
        }
    }

    fn settle(
        &mut self,
        qtype: u16,
        route: bool,
        outcome: Result<Vec<u8>, UpstreamError>,
        now: u64,
    ) -> Settled {
        let (bytes, asked) = question(qtype);
        settle(
            &mut self.resolver,
            &mut self.core,
            &mut self.table,
            &bytes,
            &asked,
            route,
            outcome,
            now,
        )
    }

    fn rows(&self) -> &[Prefix] {
        &self.table.table().rows
    }
}

fn ip(written: &str) -> IpAddr {
    parse(written).unwrap()
}

fn question(qtype: u16) -> (Vec<u8>, Query) {
    let mut bytes = vec![0x2a, 0x2a, 0x01, 0x00, 0, 1, 0, 0, 0, 0, 0, 0];
    for label in ["www", "example", "com"] {
        bytes.push(label.len() as u8);
        bytes.extend_from_slice(label.as_bytes());
    }
    bytes.push(0);
    bytes.extend_from_slice(&qtype.to_be_bytes());
    bytes.extend_from_slice(&CLASS_IN.to_be_bytes());
    let asked = read_query(&bytes).unwrap();
    (bytes, asked)
}

/// A reply to the question that carries these addresses, each for a minute.
fn reply(qtype: u16, addresses: &[&str]) -> Vec<u8> {
    let (mut bytes, _) = question(qtype);
    bytes[2] = 0x81;
    bytes[3] = 0x80;
    bytes[7] = addresses.len() as u8;
    for address in addresses {
        let octets = match ip(address) {
            IpAddr::V4(bits) => bits.to_be_bytes().to_vec(),
            IpAddr::V6(bits) => bits.to_be_bytes().to_vec(),
        };
        let rtype: u16 = if octets.len() == 4 { TYPE_A } else { TYPE_AAAA };
        bytes.extend_from_slice(&[0xc0, 12]);
        bytes.extend_from_slice(&rtype.to_be_bytes());
        bytes.extend_from_slice(&CLASS_IN.to_be_bytes());
        bytes.extend_from_slice(&60u32.to_be_bytes());
        bytes.extend_from_slice(&(octets.len() as u16).to_be_bytes());
        bytes.extend_from_slice(&octets);
    }
    bytes
}

#[test]
fn a_target_enters_the_tunnel_the_moment_its_name_resolves() {
    let mut machine = Machine::new(Table::default());
    let answer = reply(TYPE_A, &["203.0.113.7", "203.0.113.8"]);
    let settled = machine.settle(TYPE_A, true, Ok(answer.clone()), 0);

    assert_eq!(settled.reply, Some(answer.clone()));
    assert!(settled.routes_changed);
    assert_eq!(settled.found.len(), 2);
    assert_eq!(machine.rows(), [(ip("203.0.113.7"), 32), (ip("203.0.113.8"), 32)]);
    assert_eq!(machine.core.routes().len(), 2);
    assert_eq!(machine.resolver.stats().answered, 1);
    assert_eq!(machine.resolver.stats().routed, 2);

    // Asked again, the answer is no news, and the table is left alone.
    let settled = machine.settle(TYPE_A, true, Ok(answer), 10);
    assert!(!settled.routes_changed);
    assert_eq!(machine.rows().len(), 2);
    assert_eq!(machine.resolver.stats().answered, 2);
    assert_eq!(machine.resolver.stats().routed, 2);
}

#[test]
fn an_answer_no_rule_routes_stays_on_the_line() {
    let mut machine = Machine::new(Table::default());
    let settled = machine.settle(TYPE_A, false, Ok(reply(TYPE_A, &["203.0.113.7"])), 0);

    assert!(!settled.routes_changed);
    assert_eq!(settled.found.len(), 1);
    assert!(machine.rows().is_empty());
    assert!(machine.resolver.leases().is_empty());
    assert_eq!(machine.resolver.stats().routed, 0);
}

/// What was learned is held either way; only what the tunnel carries is routed and counted.
#[test]
fn a_v6_answer_is_routed_only_once_the_tunnel_carries_v6() {
    let mut machine = Machine::new(Table::default());
    let settled = machine.settle(TYPE_AAAA, true, Ok(reply(TYPE_AAAA, &["2001:db8::7"])), 0);
    assert!(settled.routes_changed);
    assert!(machine.rows().is_empty());
    assert_eq!(machine.resolver.stats().routed, 0);

    machine.core.set_wants_ipv6(true);
    let leased = machine.resolver.leases().addresses();
    assert!(machine.core.set_carries_ipv6(true, &leased, &mut machine.table));
    assert_eq!(machine.rows(), [(ip("2001:db8::7"), 128)]);
}

/// A row the table refuses is not counted, and the answer is handed back all the same.
#[test]
fn a_refused_route_withholds_no_answer() {
    let refuse = Some((ip("203.0.113.7"), 32));
    let mut machine = Machine::new(Table { rows: Vec::new(), refuse });
    let answer = reply(TYPE_A, &["203.0.113.7", "203.0.113.8"]);
    let settled = machine.settle(TYPE_A, true, Ok(answer.clone()), 0);

    assert_eq!(settled.reply, Some(answer));
    assert_eq!(machine.rows(), [(ip("203.0.113.8"), 32)]);
    assert_eq!(machine.resolver.stats().routed, 0);
}

#[test]
fn an_upstream_that_fails_routes_nothing() {
    let mut machine = Machine::new(Table::default());
    let settled = machine.settle(TYPE_A, true, Err(UpstreamError::Timeout), 0);

    let (query, _) = question(TYPE_A);
    let answer = settled.reply.unwrap();
    assert_eq!(answer[0..2], query[0..2]);
    assert_eq!(answer[3] & 0x0f, 2);
    assert!(settled.found.is_empty());
    assert!(machine.rows().is_empty());
    assert_eq!(machine.resolver.stats().failed, 1);
}

/// A lease takes its route with it, and leaves what was asked for.
#[test]
fn what_falls_due_leaves_the_tunnel() {
    let mut machine = Machine::new(Table::default());
    let mut wanted = Prefixes::new();
    wanted.insert((ip("198.51.100.0"), 24));
    machine.core.set_routes(wanted, &[], &mut machine.table).unwrap();
    machine.settle(TYPE_A, true, Ok(reply(TYPE_A, &["203.0.113.7"])), 0);
    assert_eq!(machine.rows().len(), 2);

    assert!(!sweep(&mut machine.resolver, &mut machine.core, &mut machine.table, MIN_LEASE - 1));
    assert_eq!(machine.rows().len(), 2);
    assert!(sweep(&mut machine.resolver, &mut machine.core, &mut machine.table, MIN_LEASE));
    assert_eq!(machine.rows(), [(ip("198.51.100.0"), 24)]);
    assert!(machine.resolver.leases().is_empty());
}
