use masqr::address::written::parse;
use masqr::address::IpAddr;
use masqr::dns::lease::{Leases, MAX_LEASE, MAX_LEASES, MIN_LEASE};
use masqr::dns::message::Record;

fn record(address: &str, ttl: u32) -> Record {
    Record {
        name: "edge.example.com".into(),
        address: parse(address).unwrap(),
        ttl,
    }
}

fn address(text: &str) -> IpAddr {
    parse(text).unwrap()
}

#[test]
fn an_answer_makes_its_addresses_held() {
    let mut leases = Leases::new(1_000_000);
    let now = leases.base();
    assert!(leases.record("a.test", &[record("1.2.3.4", 300)], now));

    let mut held = leases.addresses();
    held.sort_by_key(|one| format!("{one:?}"));
    assert_eq!(held, vec![address("1.2.3.4")]);
    assert_eq!(leases.names_for(address("1.2.3.4")), vec!["a.test"]);
}

/// The common case: the same answer again. Nothing changed, so nothing should be reported as
/// changed — the caller uses that to decide whether to touch the routing table at all.
#[test]
fn repeating_an_answer_renews_without_changing_the_set() {
    let mut leases = Leases::new(1_000_000);
    let now = leases.base();
    assert!(leases.record("a.test", &[record("1.2.3.4", 300)], now));
    assert!(!leases.record("a.test", &[record("1.2.3.4", 300)], now));
    assert_eq!(leases.len(), 1);
}

/// A record's own time to live is about the answer, not about the connection using it. Below
/// the floor it would take the route away from a download that is still running.
#[test]
fn a_short_time_to_live_is_lifted_to_the_floor() {
    let mut leases = Leases::new(1_000_000);
    let now = leases.base();
    leases.record("a.test", &[record("1.2.3.4", 30)], now);

    assert!(!leases.expire(now + MIN_LEASE - 1000));
    assert!(leases.expire(now + MIN_LEASE + 1000));
    assert!(leases.is_empty());
}

#[test]
fn a_long_time_to_live_is_brought_down_to_the_ceiling() {
    let mut leases = Leases::new(1_000_000);
    let now = leases.base();
    leases.record("a.test", &[record("1.2.3.4", 86_400)], now);
    assert!(leases.expire(now + MAX_LEASE + 1000));
}

/// The guarantee the packet path buys: an address that traffic keeps using is never unrouted,
/// however long ago the name that produced it was resolved.
#[test]
fn an_address_in_use_outlives_its_record() {
    let mut leases = Leases::new(1_000_000);
    let now = leases.base();
    leases.record("a.test", &[record("1.2.3.4", 30)], now);

    // Well past the point the record alone would have expired.
    let later = now + MAX_LEASE * 2;
    leases.touch(address("1.2.3.4"), later);
    assert!(!leases.expire(later + 1000));
    assert_eq!(leases.len(), 1);

    // And once nothing uses it, the floor since the last use is all it gets.
    assert!(leases.expire(later + MIN_LEASE + 1000));
}

/// Touching an address nobody leased must not create one. Traffic to an address the tunnel
/// carries for another reason is not a reason to hold it on the DNS side.
#[test]
fn touching_an_address_that_is_not_held_holds_nothing() {
    let mut leases = Leases::new(1_000_000);
    let now = leases.base();
    leases.touch(address("9.9.9.9"), now);
    assert!(leases.is_empty());
}

/// Content networks hand the same addresses to different names all day. The address has to
/// survive the expiry of either name on its own.
#[test]
fn an_address_shared_by_two_names_lives_as_long_as_the_longer_of_them() {
    let mut leases = Leases::new(1_000_000);
    let now = leases.base();
    leases.record("a.test", &[record("1.2.3.4", 30)], now);
    leases.record("b.test", &[record("1.2.3.4", 3600)], now);

    assert_eq!(
        leases.names_for(address("1.2.3.4")),
        vec!["a.test", "b.test"]
    );
    assert!(!leases.expire(now + MIN_LEASE + 1000));
    assert!(leases.expire(now + MAX_LEASE + 1000));
}

/// A later answer may only ever push an expiry further out. Shortening one would let a name
/// with a brief record take the route away from traffic another name is still using.
#[test]
fn a_later_answer_never_shortens_a_lease() {
    let mut leases = Leases::new(1_000_000);
    let now = leases.base();
    leases.record("a.test", &[record("1.2.3.4", 3600)], now);
    leases.record("a.test", &[record("1.2.3.4", 30)], now);
    assert!(!leases.expire(now + MIN_LEASE + 1000));
}

/// The table is bounded, and the bound is reached by dropping what expires soonest rather than
/// by refusing to hold anything new.
#[test]
fn the_table_stays_within_its_bound() {
    let mut leases = Leases::new(1_000_000);
    let now = leases.base();
    // The first address is given the longest life, so it is the one that must survive.
    leases.record("keep.test", &[record("10.0.0.1", 86_400)], now);
    for n in 0..MAX_LEASES + 16 {
        let address = format!("172.{}.{}.{}", (n >> 16) & 0xff, (n >> 8) & 0xff, n & 0xff);
        leases.record("churn.test", &[record(&address, 60)], now);
    }
    assert!(leases.len() <= MAX_LEASES);
    assert!(
        leases.names_for(address("10.0.0.1")).len() == 1,
        "the longest-lived lease is not the one evicted"
    );
}

#[test]
fn an_answer_with_no_addresses_changes_nothing() {
    let mut leases = Leases::new(1_000_000);
    let now = leases.base();
    assert!(!leases.record("a.test", &[], now));
}

/// What is held follows from what was asked: the latest of the answers and the uses, and an address
/// that was let go of starts over with its next answer.
#[test]
fn what_is_held_follows_from_what_happened() {
    let mut leases = Leases::new(0);
    let one = address("1.2.3.4");
    assert!(leases.record("a.test", &[record("1.2.3.4", 900)], 0));
    assert!(!leases.record("b.test", &[record("1.2.3.4", 60)], 100_000));
    leases.touch(one, 400_000);
    // 900 s from the start, 600 s from the second answer, 600 s from the use: the last is latest.
    assert!(!leases.expire(999_999));
    assert_eq!(leases.names_for(one), vec!["a.test", "b.test"]);
    assert!(leases.expire(1_000_000));
    assert!(leases.is_empty());

    leases.touch(one, 1_000_000);
    assert!(leases.is_empty(), "a use held an address");
    assert!(leases.record("c.test", &[record("1.2.3.4", 0)], 1_000_000));
    assert_eq!(leases.names_for(one), vec!["c.test"]);
    assert!(!leases.expire(1_599_999));
    assert!(leases.expire(1_600_000));
}
