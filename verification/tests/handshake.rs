use masqr::transport::handshake::{
    cut_point, fronted_name, selected, set_fronted_name, Handshake, Presented, SplitPlan, WriteStep,
    DEFAULT, FRONTED_SNI,
};
use masqr::warp::api::CONNECT_SNI;

/// The default is a product decision, not an implementation detail: it decides what every
/// installation puts on the wire. Changing it should take deleting this line.
#[test]
fn a_run_starts_on_the_strategy_that_was_measured_to_carry() {
    assert_eq!(selected(&Presented::new()), Handshake::Fronted);
    assert_eq!(DEFAULT.name(), "fronted");
}

#[test]
fn every_strategy_round_trips_through_its_written_name() {
    for handshake in Handshake::ALL {
        assert_eq!(Handshake::parse(handshake.name()), Some(handshake));
        assert_eq!(Handshake::from_code(handshake.code()), handshake);
    }
}

/// Only a DNS name can stand in for the fronted one: an address in SNI is forbidden, and a
/// refused name leaves the default in place rather than half-set.
#[test]
fn a_fronted_name_has_to_be_a_name() {
    let mut presented = Presented::new();
    assert!(set_fronted_name(&mut presented, "162.159.198.1").is_err());
    assert!(set_fronted_name(&mut presented, "not a name").is_err());
    assert!(set_fronted_name(&mut presented, "").is_err());
    assert_eq!(fronted_name(&presented), FRONTED_SNI.to_string());
}

/// What each strategy names, on either carrier. `no-sni` is the one with none to send.
#[test]
fn each_strategy_names_what_it_says_it_names() {
    let presented = Presented::new();
    assert_eq!(Handshake::Named.sni(&presented), Some(CONNECT_SNI.to_string()));
    assert_eq!(Handshake::Fronted.sni(&presented), Some(FRONTED_SNI.to_string()));
    assert_eq!(Handshake::NoSni.sni(&presented), None);
    assert!(Handshake::Fronted.works_over_quic());
    assert!(!Handshake::SplitSlow.works_over_quic());
}

#[test]
fn an_unknown_name_is_refused_rather_than_defaulted() {
    assert_eq!(Handshake::parse("no-sni-please"), None);
    assert_eq!(Handshake::parse(""), None);
}

#[test]
fn the_cut_lands_inside_the_name() {
    let needle = b"consumer-masque.cloudflareclient.com";
    let mut buffer = vec![0u8; 40];
    buffer.extend_from_slice(needle);
    buffer.extend_from_slice(&[0u8; 40]);

    let at = cut_point(&buffer, needle).expect("a buffer this size can be cut");
    assert!(at > 40, "the cut is past the start of the name");
    assert!(at < 40 + needle.len(), "the cut is before the end of it");
    // The point of the whole exercise: the first segment cannot carry the whole name.
    assert!(
        !buffer[..at].windows(needle.len()).any(|w| w == needle),
        "the name must not fit in the first segment"
    );
}

#[test]
fn a_buffer_without_the_name_is_still_cut() {
    let buffer = vec![7u8; 64];
    assert_eq!(cut_point(&buffer, b"absent"), Some(32));
}

#[test]
fn a_buffer_too_small_to_cut_is_left_whole() {
    assert_eq!(cut_point(&[], b"absent"), None);
    assert_eq!(cut_point(&[1], b"absent"), None);
}

/// The first write is cut inside the name, the rest held back where the strategy says so, and
/// every later write is ordinary.
#[test]
fn a_split_handshake_is_cut_once() {
    let mut hello = vec![0u8; 40];
    hello.extend_from_slice(CONNECT_SNI.as_bytes());
    hello.extend_from_slice(&[0u8; 40]);
    let at = 40 + CONNECT_SNI.len() / 2;

    let mut quick = SplitPlan::wrapping(Handshake::Split).unwrap();
    assert_eq!(quick.hold_for(), None);
    assert_eq!(quick.next_write(&hello), WriteStep::First(at));
    quick.wrote(WriteStep::First(at));
    assert!(quick.is_settled());
    assert_eq!(quick.next_write(&hello), WriteStep::All);

    let mut slow = SplitPlan::wrapping(Handshake::SplitSlow).unwrap();
    assert_eq!(slow.hold_for(), Some(40));
    slow.wrote(slow.next_write(&hello));
    assert!(!slow.is_settled());
    assert_eq!(slow.next_write(&hello[at..]), WriteStep::AfterDelay);
    slow.wrote(WriteStep::AfterDelay);
    assert!(slow.is_settled());

    let mut whole = SplitPlan::wrapping(Handshake::Split).unwrap();
    assert_eq!(whole.next_write(&[1]), WriteStep::All);
    whole.wrote(WriteStep::All);
    assert!(whole.is_settled());

    for other in [Handshake::Named, Handshake::NoSni, Handshake::Fronted] {
        assert!(SplitPlan::wrapping(other).is_none());
    }
}

#[test]
fn a_name_that_is_one_is_fronted() {
    let mut presented = Presented::new();
    assert_eq!(set_fronted_name(&mut presented, "Example.com"), Ok(()));
    assert_eq!(fronted_name(&presented), "Example.com");
    assert_eq!(
        Handshake::Fronted.sni(&presented),
        Some("Example.com".to_string())
    );
    assert_eq!(
        set_fronted_name(&mut presented, "-x"),
        Err("`-x` is not a DNS name".to_string())
    );
    assert_eq!(fronted_name(&presented), "Example.com");
}

/// The last name that is one is what `fronted` presents; a refused one changes nothing, and neither
/// changes what the other strategies present.
#[test]
fn the_last_name_taken_is_the_one_presented() {
    let mut presented = Presented::new();
    for (offered, then) in [
        ("not a name", FRONTED_SNI),
        ("one.example", "one.example"),
        ("1.1.1.1", "one.example"),
        ("two.example.", "two.example."),
        ("", "two.example."),
    ] {
        let _ = set_fronted_name(&mut presented, offered);
        assert_eq!(Handshake::Fronted.sni(&presented).as_deref(), Some(then));
        assert_eq!(Handshake::NoSni.sni(&presented), None);
        for own in [Handshake::Named, Handshake::Split, Handshake::SplitSlow] {
            assert_eq!(
                own.sni(&presented).as_deref(),
                Some("consumer-masque.cloudflareclient.com")
            );
        }
    }
}
