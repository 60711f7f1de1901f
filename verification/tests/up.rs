use masqr::address::IpAddr;
use masqr::up::{address_line, route_line, step, Action, Event, Stopping};

#[test]
fn what_was_set_up_is_said() {
    assert_eq!(
        route_line((IpAddr::V4(0x0101_0101), 32)),
        "route     1.1.1.1/32 → masqr"
    );
    assert_eq!(
        address_line(IpAddr::V4(0xac10_0002), IpAddr::V6(1), 1280),
        "address   172.16.0.2/32 · ::1/128, mtu 1280"
    );
}

#[test]
fn everything_that_ends_the_run_says_why() {
    assert_eq!(step(Event::PhaseChanged), Action::Announce);
    assert_eq!(step(Event::Tick), Action::Report);
    let said = || "why".to_string();
    for (event, reason) in [
        (Event::Asked, "asked through the control interface"),
        (Event::CtrlC, "on Ctrl-C"),
        (
            Event::ControlFailed(said()),
            "the control interface failed: why",
        ),
        (
            Event::ControlStopped(said()),
            "the control interface stopped: why",
        ),
        (Event::ResolverFailed(said()), "the resolver failed: why"),
        (Event::ResolverStopped(said()), "the resolver stopped: why"),
    ] {
        assert_eq!(step(event), Action::Stop(reason.to_string()));
    }
}

#[test]
fn the_session_ends_only_after_the_reader_left() {
    let walk = |left: bool| {
        let mut at = Stopping::GiveNamesBack;
        let mut steps = Vec::new();
        while at != Stopping::Done {
            steps.push(at);
            at = at.next(left);
        }
        steps
    };
    assert_eq!(
        walk(true),
        [
            Stopping::GiveNamesBack,
            Stopping::StopWatching,
            Stopping::StopReading,
            Stopping::EndSession,
            Stopping::CloseAdapter,
        ]
    );
    assert_eq!(
        walk(false),
        [
            Stopping::GiveNamesBack,
            Stopping::StopWatching,
            Stopping::StopReading,
            Stopping::LeaveToSystem,
        ]
    );
}
