use masqr::address::IpAddr;
use masqr::dns::lease::Leases;
use masqr::dns::server::Resolver;
use masqr::names::{
    canary, canary_for, claimed, forget_after, namespaces, ours, proved, rule_values, rule_written,
    until_nul, Found, NameError, Proved, RuleValue, EVERY_NAME, MARK, RULE,
};

/// The mark travels on the rule, and the sweep is what reads it back. Both are spelled in one
/// place here so a change to either has to be a change to both.
#[test]
fn the_rule_is_marked_with_something_a_later_run_can_find() {
    assert_eq!(MARK, "masqr");
    assert!(RULE.starts_with('{') && RULE.ends_with('}'));
}

/// A canary answered from a cache would prove nothing, so no two are the same.
#[test]
fn no_two_canaries_are_the_same() {
    let first = canary();
    assert_ne!(first, canary());
    assert!(first.ends_with(".masqr-check.invalid"));
}

/// The list format is one string per entry and an empty entry after it. Written by hand here,
/// so the shape is worth stating rather than trusting.
#[test]
fn a_namespace_list_ends_with_an_empty_entry() {
    let encoded = namespaces(EVERY_NAME);
    assert_eq!(encoded, vec![u16::from(b'.'), 0, 0]);
}

#[test]
fn a_canary_is_sixteen_digits_of_its_number() {
    assert_eq!(canary_for(0), "0000000000000000.masqr-check.invalid");
    assert_eq!(
        canary_for(0x0123_4567_89ab_cdef),
        "0123456789abcdef.masqr-check.invalid"
    );
    assert_eq!(
        canary_for(u64::MAX),
        "ffffffffffffffff.masqr-check.invalid"
    );
}

fn found(name: &str, comment: Option<&str>) -> Found {
    Found {
        name: name.to_string(),
        comment: comment.map(String::from),
    }
}

#[test]
fn the_sweep_takes_what_carries_the_mark_and_nothing_else() {
    let rules = vec![
        found("{a}", Some("masqr")),
        found("{b}", Some("Masqr")),
        found("{c}", None),
        found(RULE, Some(MARK)),
        found("{d}", Some("somebody else")),
    ];
    assert_eq!(ours(&rules), vec!["{a}".to_string(), RULE.to_string()]);
    assert!(ours(&Vec::new()).is_empty());
    assert!(!forget_after(0));
    assert!(forget_after(1));
}

#[test]
fn the_rule_points_every_name_at_the_resolver() {
    let values = rule_values(IpAddr::V4(0x7f00_0035));
    let names: Vec<&str> = values.iter().map(|value| value.0).collect();
    assert_eq!(
        names,
        [
            "Version",
            "Name",
            "GenericDNSServers",
            "ConfigOptions",
            "Comment",
            "DisplayName"
        ]
    );
    assert_eq!(values[0].1, RuleValue::Number(2));
    assert_eq!(values[1].1, RuleValue::List(vec![0x2e, 0, 0]));
    let mut address: Vec<u16> = "127.0.0.53".encode_utf16().collect();
    address.push(0);
    assert_eq!(values[2].1, RuleValue::Text(address));
    assert_eq!(values[3].1, RuleValue::Number(8));
    assert_eq!(values[4].1, values[5].1);
    assert_eq!(rule_written("creating the rule", 0), Ok(()));
    assert_eq!(
        rule_written("creating the rule", 5),
        Err(NameError::Registry("creating the rule", 5))
    );
}

#[test]
fn a_value_ends_at_its_first_zero() {
    assert_eq!(until_nul(&[0x61, 0x62, 0, 0x63]), [0x61, 0x62]);
    assert_eq!(until_nul(&[0]), Vec::<u16>::new());
    assert_eq!(until_nul(&[0x61]), [0x61]);
}

#[test]
fn a_claim_is_proved_or_undone() {
    let mut resolver = Resolver::new(Leases::new(0), None);
    let problem = NameError::Registry("creating the rule", 5);
    assert_eq!(
        claimed(&mut resolver, Err(problem), "a.invalid".to_string()),
        Err(problem)
    );
    assert!(!resolver.watching_for("a.invalid"));

    assert_eq!(
        claimed(&mut resolver, Ok(()), "A.invalid".to_string()),
        Ok("A.invalid".to_string())
    );
    assert_eq!(
        proved(&mut resolver, false),
        Proved::Undo(NameError::NotCarried)
    );
    assert!(!resolver.watching_for("a.invalid"), "the watch is over");
    assert_eq!(proved(&mut resolver, true), Proved::Forget);
}
