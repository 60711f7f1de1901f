use masqr::transport::carrier::{
    largest_packet, park, parked, plan, select, selected, set_largest_packet, unpark, Carriage,
    Carrier, Choice, Parking, Plan, PARK_FOR,
};
use masqr::transport::handshake::Handshake;

#[test]
fn every_choice_round_trips_through_its_written_name() {
    for choice in Choice::ALL {
        assert_eq!(Choice::parse(choice.name()), Some(choice));
        assert_eq!(Choice::from_code(choice.code()), choice);
    }
    assert_eq!(Choice::parse("quic"), None);
}

/// The default is what every installation puts on the wire, so it is held here.
#[test]
fn a_run_starts_on_http3_with_http2_behind_it() {
    assert_eq!(selected(&Carriage::new()), Choice::Auto);
    assert_eq!(
        plan(Choice::Auto, Handshake::Fronted, false),
        Plan::H3ThenH2
    );
}

#[test]
fn the_plan_follows_the_choice_and_the_parking() {
    let fronted = Handshake::Fronted;
    assert_eq!(plan(Choice::Auto, fronted, true), Plan::Only(Carrier::H2));
    assert_eq!(plan(Choice::H3, fronted, true), Plan::Only(Carrier::H3));
    assert_eq!(plan(Choice::H2, fronted, false), Plan::Only(Carrier::H2));
}

/// Cutting a ClientHello across TCP segments has nothing to cut over QUIC.
#[test]
fn a_split_handshake_always_rides_http2() {
    for split in [Handshake::Split, Handshake::SplitSlow] {
        for choice in Choice::ALL {
            assert_eq!(plan(choice, split, false), Plan::Only(Carrier::H2));
        }
    }
}

#[test]
fn parking_lasts_as_long_as_it_says() {
    let now: u64 = 5_000_000_000;
    let mut parking = Parking::default();
    assert!(!parking.parked(now));
    parking.park(now);
    assert!(parking.parked(now));
    assert!(parking.parked(now + PARK_FOR - 1_000_000_000));
    assert!(!parking.parked(now + PARK_FOR));
}

#[test]
fn what_a_run_chose_stays_until_it_chooses_again() {
    let mut carriage = Carriage::new();
    select(&mut carriage, Choice::H2);
    assert_eq!(selected(&carriage), Choice::H2);
    park(&mut carriage, 7);
    assert!(parked(&carriage, 7));
    unpark(&mut carriage);
    assert!(!parked(&carriage, 7));
    assert_eq!(largest_packet(&carriage), 1280);
    set_largest_packet(&mut carriage, 1400);
    assert_eq!(largest_packet(&carriage), 1400);
    assert_eq!(Plan::H3ThenH2.first(), Carrier::H3);
    assert_eq!(Plan::H3ThenH2.fallback(), Some(Carrier::H2));
    assert_eq!(Plan::Only(Carrier::H2).first(), Carrier::H2);
    assert_eq!(Plan::Only(Carrier::H2).fallback(), None);
}
