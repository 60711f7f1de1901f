use masqr::address::written::parse;
use masqr::address::IpAddr;
use masqr::tun::asked::Asked;
use masqr::tun::prefixes::{Prefix, Prefixes};
use masqr::tun::{
    adapter_guid, driver_version, parse_prefix, route_added, route_removed, show_duration, Family,
    LoadError, NameStep, NameWait, RouteTable, Routes, TunError, ERROR_ALREADY_EXISTS,
    ERROR_NOT_FOUND, ERROR_OBJECT_ALREADY_EXISTS,
};

fn ip(written: &str) -> IpAddr {
    parse(written).expect("a literal address")
}

/// The adapter identity is shared with the application, which recomputes it to recognise a
/// leftover adapter as ours. A change here that nobody notices would leave those behind, so the
/// value is pinned rather than merely recomputed by the same formula twice.
///
/// Written the way Windows displays a GUID: the first three fields little-endian, which is
/// simply how the sixteen bytes are laid out in memory.
#[test]
fn the_adapter_identity_is_the_one_the_application_expects() {
    let guid = adapter_guid("masqr");
    let tail: String = guid[10..16].iter().map(|b| format!("{b:02X}")).collect();
    let shown = format!(
        "{{{:02X}{:02X}{:02X}{:02X}-{:02X}{:02X}-{:02X}{:02X}-{:02X}{:02X}-{tail}}}",
        guid[3],
        guid[2],
        guid[1],
        guid[0],
        guid[5],
        guid[4],
        guid[7],
        guid[6],
        guid[8],
        guid[9]
    );
    assert_eq!(shown, "{90D868D8-6AD7-F602-7322-B275D3ECB2E4}");
}

/// A table that refuses whichever rows it is told to, so the bookkeeping can be checked
/// against a refusal rather than only against a run where everything worked.
#[derive(Default)]
struct Bench {
    rows: Vec<Prefix>,
    refuse: Vec<Prefix>,
    asked: usize,
}

impl RouteTable for Bench {
    fn add(&mut self, destination: IpAddr, prefix: u8) -> Result<(), TunError> {
        self.asked += 1;
        if self.refuse.contains(&(destination, prefix)) {
            return Err(TunError::Route(destination, prefix, 1));
        }
        self.rows.push((destination, prefix));
        Ok(())
    }

    fn remove(&mut self, destination: IpAddr, prefix: u8) -> Result<(), TunError> {
        self.asked += 1;
        if self.refuse.contains(&(destination, prefix)) {
            return Err(TunError::RouteRemoval(destination, prefix, 1));
        }
        self.rows.retain(|row| *row != (destination, prefix));
        Ok(())
    }
}

impl Bench {
    /// The rows as a set.
    fn set(&self) -> Prefixes {
        let mut all = Prefixes::new();
        for row in &self.rows {
            all.insert(*row);
        }
        all
    }
}

fn set(written: &[&str]) -> Prefixes {
    let mut all = Prefixes::new();
    for one in written {
        all.insert(parse_prefix(one).unwrap());
    }
    all
}

fn list(written: &[&str]) -> Vec<Prefix> {
    set(written).as_slice().to_vec()
}

/// The ordinary case, stated so the ones below have something to differ from.
#[test]
fn applying_a_set_installs_exactly_it() {
    let mut bench = Asked::new(Bench::default());
    let mut routes = Routes::default();

    let change = routes
        .apply(&mut bench, &set(&["1.1.1.1/32", "8.8.8.8/32"]))
        .unwrap();
    assert_eq!(change.added.len(), 2);
    assert_eq!(*routes.installed(), bench.table().set());

    // The same set again is not an event, and asks Windows for nothing.
    let asked = bench.table().asked;
    assert!(routes
        .apply(&mut bench, &set(&["1.1.1.1/32", "8.8.8.8/32"]))
        .unwrap()
        .is_empty());
    assert_eq!(bench.table().asked, asked);
}

/// One row Windows will not add must not cost the others. The set has to deny only the row
/// that is really absent — claiming the others too would have every later call add them again,
/// and each of those would be refused as already there.
#[test]
fn a_refused_addition_does_not_take_the_rest_with_it() {
    let mut bench = Asked::new(Bench {
        refuse: list(&["9.9.9.9/32"]),
        ..Bench::default()
    });
    let mut routes = Routes::default();

    assert!(routes
        .apply(
            &mut bench,
            &set(&["1.1.1.1/32", "9.9.9.9/32", "8.8.8.8/32"])
        )
        .is_err());
    assert_eq!(*routes.installed(), set(&["1.1.1.1/32", "8.8.8.8/32"]));
    assert_eq!(
        *routes.installed(),
        bench.table().set(),
        "the set describes the table"
    );
}

/// And the mirror: a row that could not be removed stays in the set, so the next call tries
/// again. Dropping it would leave a row routed into a tunnel with nothing tracking it.
#[test]
fn a_refused_removal_stays_in_the_set_to_be_tried_again() {
    let mut bench = Asked::new(Bench::default());
    let mut routes = Routes::default();
    routes
        .apply(&mut bench, &set(&["1.1.1.1/32", "9.9.9.9/32"]))
        .unwrap();
    let mut bench = Asked::new(Bench {
        rows: bench.table().rows.clone(),
        refuse: list(&["9.9.9.9/32"]),
        asked: 0,
    });

    assert!(routes.apply(&mut bench, &Prefixes::new()).is_err());
    assert_eq!(*routes.installed(), set(&["9.9.9.9/32"]));
    assert_eq!(
        *routes.installed(),
        bench.table().set(),
        "the set describes the table"
    );
}

/// Every row is attempted, those that go first, and the first refusal is the one returned.
#[test]
fn the_first_refusal_is_returned_after_every_row_was_attempted() {
    let mut bench = Asked::new(Bench::default());
    let mut routes = Routes::default();
    routes
        .apply(&mut bench, &set(&["2.2.2.2/32", "3.3.3.3/32"]))
        .unwrap();
    let mut bench = Asked::new(Bench {
        rows: bench.table().rows.clone(),
        refuse: list(&["1.1.1.1/32", "3.3.3.3/32"]),
        asked: 0,
    });
    let refused = routes
        .apply(&mut bench, &set(&["1.1.1.1/32", "4.4.4.4/32"]))
        .unwrap_err();
    assert_eq!(refused, TunError::RouteRemoval(ip("3.3.3.3"), 32, 1));
    assert_eq!(bench.table().asked, 4);
    assert_eq!(*routes.installed(), set(&["3.3.3.3/32", "4.4.4.4/32"]));
}

#[test]
fn what_windows_answers_about_a_row_is_read_by_what_was_asked() {
    let to = ip("1.1.1.1");
    assert_eq!(route_added(to, 32, 0), Ok(()));
    assert_eq!(route_added(to, 32, ERROR_OBJECT_ALREADY_EXISTS), Ok(()));
    assert_eq!(route_added(to, 32, 5), Err(TunError::Route(to, 32, 5)));
    assert_eq!(route_removed(to, 32, 0), Ok(()));
    assert_eq!(route_removed(to, 32, ERROR_NOT_FOUND), Ok(()));
    assert_eq!(
        route_removed(to, 32, 5),
        Err(TunError::RouteRemoval(to, 32, 5))
    );
    assert_eq!(Family::V4.af(), 2);
    assert_eq!(Family::V6.af(), 23);
    assert_eq!(driver_version(0x0001_000e), "1.14");
}

#[test]
fn every_way_the_adapter_can_fail_is_said() {
    for (error, said) in [
        (
            TunError::Load(LoadError::Symbol("WintunSendPacket")),
            "loading wintun: wintun.dll is missing the entry point `WintunSendPacket` — it is not the library this expects",
        ),
        (
            TunError::Load(LoadError::Library("w.dll".into(), "why".into())),
            "loading wintun: wintun.dll could not be loaded from w.dll: why",
        ),
        (
            TunError::Create("why".into()),
            "the adapter could not be created — this needs to run elevated: why",
        ),
        (
            TunError::NameHeld(8000),
            "the adapter name was still held by an instance on its way out after 8s",
        ),
        (
            TunError::Session("why".into()),
            "the adapter session could not be started: why",
        ),
        (
            TunError::Address(ip("::1"), 5),
            "assigning ::1 to the adapter failed with error 5",
        ),
        (
            TunError::Route(ip("1.1.1.1"), 32, 5),
            "routing 1.1.1.1/32 into the tunnel failed with error 5",
        ),
        (
            TunError::RouteRemoval(ip("1.1.1.1"), 32, 5),
            "removing the route for 1.1.1.1/32 failed with error 5",
        ),
        (
            TunError::Mtu(87),
            "setting the adapter MTU failed with error 87",
        ),
        (
            TunError::Send(1500, "why".into()),
            "a packet of 1500 bytes could not be written to the adapter: why",
        ),
    ] {
        assert_eq!(error.text(), said);
    }
    for ms in [0, 1, 20, 999, 1000, 1005, 1050, 1500, 8000, 61_250, 600_001] {
        assert_eq!(
            show_duration(ms),
            format!("{:?}", std::time::Duration::from_millis(ms))
        );
    }
}

/// Ask for a name until it is given, failed over or waited out, with a clock that a poll moves on.
fn create_waiting(
    mut create: impl FnMut() -> Result<(), i32>,
    budget: u64,
    poll: u64,
) -> Result<(), NameStep> {
    let mut now: u64 = 1000;
    let mut wait = NameWait::new(now, budget, poll);
    loop {
        let Err(code) = create() else {
            return Ok(());
        };
        match wait.refused(Some(code), now) {
            NameStep::Wait { .. } => now += poll,
            over => return Err(over),
        }
    }
}

const ERROR_ACCESS_DENIED: i32 = 5;

/// The name a predecessor still holds is waited for rather than failed over. Windows removes
/// that adapter on its own once the process that made it has gone, and a core restarted at the
/// speed the application restarts it arrives before the removal has finished.
#[test]
fn a_name_still_held_is_waited_for() {
    let mut tries = 0;
    let made = create_waiting(
        || {
            tries += 1;
            match tries < 3 {
                true => Err(ERROR_ALREADY_EXISTS),
                false => Ok(()),
            }
        },
        500,
        1,
    );

    assert!(made.is_ok());
    assert_eq!(tries, 3);
}

/// Any other refusal is answered immediately, because nothing about it changes by waiting.
#[test]
fn any_other_refusal_is_not_waited_out() {
    let mut tries = 0;
    let made = create_waiting(
        || {
            tries += 1;
            Err(ERROR_ACCESS_DENIED)
        },
        30_000,
        1,
    );

    assert!(matches!(made, Err(NameStep::Failed)));
    assert_eq!(tries, 1, "asked once, not once per poll");
}

/// And the waiting ends. A name never released is a leftover this process cannot remove, and
/// saying so is what lets whoever started the core act on it instead of watching it hang.
#[test]
fn waiting_for_a_name_that_is_never_released_ends() {
    let made = create_waiting(|| Err(ERROR_ALREADY_EXISTS), 20, 2);

    assert!(matches!(made, Err(NameStep::Held)));
}

/// Targets come from a person or from the application, so the shapes both write matter.
#[test]
fn a_prefix_is_read_the_way_it_is_written() {
    assert_eq!(
        parse_prefix("1.1.1.1").unwrap(),
        (ip("1.1.1.1"), 32)
    );
    assert_eq!(
        parse_prefix("104.16.0.0/16").unwrap(),
        (ip("104.16.0.0"), 16)
    );
    assert_eq!(
        parse_prefix("2606:4700::").unwrap(),
        (ip("2606:4700::"), 128)
    );
    assert!(parse_prefix("1.1.1.1/33").is_err());
    assert!(parse_prefix("nonsense").is_err());
}
