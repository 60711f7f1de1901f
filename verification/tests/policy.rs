use masqr::address::written::parse;
use masqr::address::IpAddr;
use masqr::dns::policy::{Asker, Kind, Match, Policy, PolicyError, PolicyInput, Resolver, Rule, Via};

fn ip(written: &str) -> IpAddr {
    parse(written).expect("a literal address")
}

/// One text field of an object.
fn field(object: &serde_json::Value, name: &str) -> String {
    object[name].as_str().unwrap_or_default().to_string()
}

/// A policy as the application writes it.
fn input(text: &str) -> PolicyInput {
    let value: serde_json::Value = serde_json::from_str(text).expect("the test policy parses");
    let mut resolvers = Vec::new();
    for one in value["resolvers"].as_array().expect("a list") {
        resolvers.push(Resolver {
            id: field(one, "id"),
            kind: if field(one, "kind") == "doh" {
                Kind::Doh
            } else {
                Kind::Plain
            },
            address: ip(&field(one, "address")),
            url: one["url"].as_str().map(String::from),
            via: if field(one, "via") == "tunnel" {
                Via::Tunnel
            } else {
                Via::Direct
            },
        });
    }
    let mut rules = Vec::new();
    for one in value["rules"].as_array().expect("a list") {
        let matcher = &one["match"];
        rules.push(Rule {
            matcher: if let Some(name) = matcher["exact"].as_str() {
                Match::Exact(name.to_string())
            } else if let Some(name) = matcher["suffix"].as_str() {
                Match::Suffix(name.to_string())
            } else {
                Match::Any
            },
            resolver: field(one, "resolver"),
            programs: match one["programs"].as_array() {
                Some(programs) => programs
                    .iter()
                    .map(|program| program.as_str().unwrap().to_string())
                    .collect(),
                None => Vec::new(),
            },
            route: one["route"].as_bool().unwrap_or(false),
        });
    }
    PolicyInput { resolvers, rules }
}

fn policy(rules: &str) -> Policy {
    let text = format!(
        r#"{{
            "resolvers": [
                {{ "id": "home", "kind": "plain", "address": "192.168.1.1", "via": "direct" }},
                {{ "id": "warp", "kind": "doh", "url": "https://cloudflare-dns.com/dns-query",
                   "address": "1.1.1.1", "via": "tunnel" }}
            ],
            "rules": {rules}
        }}"#
    );
    Policy::build(input(&text)).expect("the test policy is valid")
}

/// Why a policy is refused.
fn refused(text: &str) -> PolicyError {
    match Policy::build(input(text)) {
        Ok(_) => panic!("the policy was taken"),
        Err(error) => error,
    }
}

#[test]
fn a_suffix_matches_at_a_label_boundary_and_not_in_the_middle_of_a_name() {
    let p = policy(
        r#"[{ "match": { "suffix": "example.com" }, "resolver": "warp", "route": true }]"#,
    );

    assert!(p.decide("example.com", None).is_some(), "the apex itself");
    assert!(p.decide("a.example.com", None).is_some(), "a subdomain");
    assert!(
        p.decide("a.b.example.com", None).is_some(),
        "a deeper subdomain"
    );
    assert!(
        p.decide("notexample.com", None).is_none(),
        "not a label boundary"
    );
    assert!(
        p.decide("example.com.evil.test", None).is_none(),
        "not a suffix"
    );
}

#[test]
fn an_exact_rule_does_not_reach_a_subdomain() {
    let p = policy(r#"[{ "match": { "exact": "example.com" }, "resolver": "warp" }]"#);
    assert!(p.decide("example.com", None).is_some());
    assert!(p.decide("a.example.com", None).is_none());
}

/// The ordering contract: a rule written first decides, even when a later one is more
/// specific. An application that wants the specific rule puts it first.
#[test]
fn the_first_matching_rule_decides_however_specific_the_others_are() {
    let p = policy(
        r#"[
            { "match": { "suffix": "example.com" }, "resolver": "home", "route": false },
            { "match": { "exact": "www.example.com" }, "resolver": "warp", "route": true }
        ]"#,
    );
    let decision = p.decide("www.example.com", None).unwrap();
    assert_eq!(decision.rule, 0);
    assert_eq!(decision.resolver.id, "home");
    assert!(!decision.route);
}

#[test]
fn a_catch_all_decides_only_what_nothing_earlier_claimed() {
    let p = policy(
        r#"[
            { "match": { "suffix": "example.com" }, "resolver": "warp", "route": true },
            { "match": "any", "resolver": "home" }
        ]"#,
    );
    assert_eq!(p.decide("a.example.com", None).unwrap().resolver.id, "warp");
    assert_eq!(p.decide("anything.test", None).unwrap().resolver.id, "home");
}

/// A policy written twice about the same name keeps the earlier rule, which is what first-match
/// means when the application repeats itself.
#[test]
fn a_repeated_matcher_keeps_the_rule_that_came_first() {
    let p = policy(
        r#"[
            { "match": { "suffix": "example.com" }, "resolver": "warp", "route": true },
            { "match": { "suffix": "example.com" }, "resolver": "home", "route": false }
        ]"#,
    );
    assert_eq!(p.decide("example.com", None).unwrap().rule, 0);
}

#[test]
fn names_are_compared_without_regard_to_case_or_a_trailing_dot() {
    let p = policy(r#"[{ "match": { "suffix": "Example.COM." }, "resolver": "warp" }]"#);
    assert!(p.decide("a.example.com", None).is_some());
}

#[test]
fn a_rule_naming_a_resolver_nobody_declared_is_refused() {
    let error = refused(
        r#"{ "resolvers": [], "rules": [{ "match": "any", "resolver": "ghost" }] }"#,
    );
    assert_eq!(
        error,
        PolicyError::UnknownResolver {
            rule: 0,
            resolver: "ghost".into()
        }
    );
}

#[test]
fn two_resolvers_with_one_name_are_refused() {
    let error = refused(
        r#"{ "resolvers": [
            { "id": "home", "kind": "plain", "address": "1.1.1.1", "via": "direct" },
            { "id": "home", "kind": "plain", "address": "8.8.8.8", "via": "direct" }
        ], "rules": [] }"#,
    );
    assert_eq!(
        error,
        PolicyError::DuplicateResolver("home".into())
    );
}

#[test]
fn a_doh_resolver_without_a_url_is_refused() {
    let error = refused(
        r#"{ "resolvers": [
            { "id": "d", "kind": "doh", "address": "1.1.1.1", "via": "direct" }
        ], "rules": [] }"#,
    );
    assert_eq!(
        error,
        PolicyError::MissingUrl("d".into())
    );
}

/// An empty matcher would quietly match everything and make the ordering of everything after it
/// meaningless. `any` says that on purpose; an empty string says it by accident.
#[test]
fn an_empty_matcher_is_refused_rather_than_read_as_everything() {
    let error = refused(
        r#"{ "resolvers": [
            { "id": "home", "kind": "plain", "address": "1.1.1.1", "via": "direct" }
        ], "rules": [{ "match": { "suffix": "" }, "resolver": "home" }] }"#,
    );
    assert_eq!(
        error,
        PolicyError::EmptyMatch(0)
    );
}

#[test]
fn the_resolvers_reached_through_the_tunnel_are_the_ones_that_say_so() {
    let p = policy(r#"[]"#);
    let tunnelled: Vec<IpAddr> = p.tunnelled_resolvers();
    assert_eq!(tunnelled, vec![ip("1.1.1.1")]);
}

fn asker<'a>(path: &'a str, name: &'a str) -> Asker<'a> {
    Asker { path, name }
}

/// A rule about a program is how a program is carried through the tunnel at all: the answer to
/// its question becomes routing, and its traffic follows the route. Nothing here routes by
/// process, so the rule has to be about who asked.
#[test]
fn a_rule_about_a_program_applies_only_when_that_program_asked() {
    let p = policy(
        r#"[
            { "match": "any", "resolver": "warp", "route": true,
              "programs": ["discord.exe", "C:\\Games\\steam.exe"] },
            { "match": "any", "resolver": "home" }
        ]"#,
    );

    let by_name = p.decide(
        "anything.test",
        Some(asker("c:\\x\\discord.exe", "discord.exe")),
    );
    assert_eq!(by_name.unwrap().rule, 0, "named by its file name");

    let by_path = p.decide(
        "anything.test",
        Some(asker("c:\\games\\steam.exe", "steam.exe")),
    );
    assert_eq!(
        by_path.unwrap().rule,
        0,
        "named by the path the user picked"
    );

    let other = p.decide(
        "anything.test",
        Some(asker("c:\\x\\notepad.exe", "notepad.exe")),
    );
    assert_eq!(other.unwrap().rule, 1, "any other program falls through");
}

/// A lookup that failed must not turn a rule about two programs into a rule about every one of
/// them. On a machine where the owner cannot be established, the narrow rule simply does not
/// apply.
#[test]
fn an_unknown_asker_matches_no_rule_that_names_programs() {
    let p = policy(
        r#"[
            { "match": "any", "resolver": "warp", "route": true, "programs": ["discord.exe"] },
            { "match": "any", "resolver": "home" }
        ]"#,
    );
    assert_eq!(p.decide("anything.test", None).unwrap().rule, 1);
}

/// Order still decides. A name written as an exclusion before the program rule keeps that
/// program off the tunnel for that name, which is what an exclusion is for.
#[test]
fn a_name_excluded_earlier_wins_over_a_program_rule_written_later() {
    let p = policy(
        r#"[
            { "match": { "suffix": "bank.example" }, "resolver": "home" },
            { "match": "any", "resolver": "warp", "route": true, "programs": ["discord.exe"] },
            { "match": "any", "resolver": "home" }
        ]"#,
    );
    let asked = asker("c:\\x\\discord.exe", "discord.exe");
    assert_eq!(p.decide("bank.example", Some(asked)).unwrap().rule, 0);
    assert_eq!(p.decide("elsewhere.test", Some(asked)).unwrap().rule, 1);
}

/// A catch-all that only applies to some programs covers nothing for the rest, so it is not the
/// catch-all the core requires before it will answer for the machine at all.
#[test]
fn a_catch_all_about_programs_does_not_count_as_covering_every_name() {
    let narrow =
        policy(r#"[{ "match": "any", "resolver": "home", "programs": ["discord.exe"] }]"#);
    assert!(!narrow.decides_everything());

    let broad = policy(
        r#"[
            { "match": "any", "resolver": "warp", "programs": ["discord.exe"] },
            { "match": "any", "resolver": "home" }
        ]"#,
    );
    assert!(broad.decides_everything());
}

/// A policy with no rules is a policy that decides nothing, not one that decides wrongly.
#[test]
fn an_empty_policy_decides_nothing() {
    assert!(policy(r#"[]"#).decide("example.com", None).is_none());
}

/// An upstream counts where a rule names it, once however many do.
#[test]
fn an_upstream_counts_once_and_only_where_a_rule_names_it() {
    assert_eq!(policy(r#"[]"#).resolver_count(), 0);
    let one = policy(r#"[{ "match": "any", "resolver": "home" }]"#);
    assert_eq!((one.rule_count(), one.resolver_count()), (1, 1));
    let both = policy(
        r#"[
            { "match": { "suffix": "example.com" }, "resolver": "warp", "route": true },
            { "match": { "exact": "example.org" }, "resolver": "warp", "route": true },
            { "match": "any", "resolver": "home" }
        ]"#,
    );
    assert_eq!((both.rule_count(), both.resolver_count()), (3, 2));
}
