//! Which carrier a tunnel rides: HTTP/3 over QUIC, or HTTP/2 over TCP.
//!
//! HTTP/3 is preferred. Over it each packet is one unreliable QUIC datagram, so a packet lost on
//! the way is lost to the connection inside that sent it, which recovers the way it would on any
//! link. Over HTTP/2 every packet is bytes in a single TCP stream: one lost segment holds up every
//! packet behind it.
//!
//! HTTP/2 stays because a link can drop UDP to the endpoint and still carry TCP to it. Under
//! [`Choice::Auto`] a failed HTTP/3 attempt falls through to HTTP/2 inside the same attempt, and
//! HTTP/3 is then left alone, parked, until something suggests the answer may have changed: the
//! line moved, someone asked for a reconnect, or [`PARK_FOR`] passed. A link that drops QUIC thus
//! costs its timeout once, not on every reconnect.
//!
//! Like the handshake strategy, the choice belongs to a run, not to one connection; a [`Carriage`]
//! holds it. Times are nanoseconds on one clock.

use vstd::prelude::*;
use crate::text::same;
use crate::transport::handshake::{rides_quic, Handshake};

verus! {

/// The transport one tunnel runs over.
#[derive(Debug, Clone, Copy, PartialEq, Eq, Structural)]
pub enum Carrier {
    /// HTTP/2 over TLS over TCP, packets in capsules on one stream.
    H2,
    /// HTTP/3 over QUIC, each packet one datagram.
    H3,
}

/// The name a carrier is reported as.
pub open spec fn carrier_name(carrier: Carrier) -> Seq<char> {
    match carrier {
        Carrier::H2 => "h2"@,
        Carrier::H3 => "h3"@,
    }
}

impl Carrier {
    pub fn name(self) -> (name: &'static str)
        ensures
            name@ == carrier_name(self),
    {
        match self {
            Carrier::H2 => "h2",
            Carrier::H3 => "h3",
        }
    }
}

/// What a run asks for.
#[derive(Debug, Clone, Copy, PartialEq, Eq, Structural)]
pub enum Choice {
    /// HTTP/3, falling through to HTTP/2 when it does not open.
    Auto,
    /// HTTP/3 and nothing else: a failure is reported rather than covered.
    H3,
    /// HTTP/2 and nothing else.
    H2,
}

/// The name a choice is written as.
pub open spec fn choice_name(choice: Choice) -> Seq<char> {
    match choice {
        Choice::Auto => "auto"@,
        Choice::H3 => "h3"@,
        Choice::H2 => "h2"@,
    }
}

/// The choice that a name is of.
pub open spec fn choice_read(written: Seq<char>) -> Option<Choice> {
    if written == "auto"@ {
        Some(Choice::Auto)
    } else if written == "h3"@ {
        Some(Choice::H3)
    } else if written == "h2"@ {
        Some(Choice::H2)
    } else {
        None
    }
}

/// What a choice is written as in one byte.
pub open spec fn choice_code(choice: Choice) -> u8 {
    match choice {
        Choice::Auto => 0,
        Choice::H3 => 1,
        Choice::H2 => 2,
    }
}

impl Choice {
    pub const ALL: [Choice; 3] = [Choice::Auto, Choice::H3, Choice::H2];

    /// The name this is written as on the command line.
    pub fn name(self) -> (name: &'static str)
        ensures
            name@ == choice_name(self),
    {
        match self {
            Choice::Auto => "auto",
            Choice::H3 => "h3",
            Choice::H2 => "h2",
        }
    }

    /// The choice written as `written`, exactly, or none.
    pub fn parse(written: &str) -> (parsed: Option<Choice>)
        ensures
            parsed == choice_read(written@),
            match parsed {
                Some(choice) => choice_name(choice) == written@,
                None => forall|choice: Choice| #[trigger] choice_name(choice) != written@,
            },
    {
        if same(written, "auto") {
            Some(Choice::Auto)
        } else if same(written, "h3") {
            Some(Choice::H3)
        } else if same(written, "h2") {
            Some(Choice::H2)
        } else {
            None
        }
    }

    /// The choice as one byte.
    pub fn code(self) -> (code: u8)
        ensures
            code == choice_code(self),
    {
        match self {
            Choice::Auto => 0,
            Choice::H3 => 1,
            Choice::H2 => 2,
        }
    }

    /// The choice one byte stands for. Anything unknown is `auto`.
    pub fn from_code(code: u8) -> (choice: Choice)
        ensures
            code <= 2 ==> choice_code(choice) == code,
            code > 2 ==> choice == Choice::Auto,
    {
        match code {
            1 => Choice::H3,
            2 => Choice::H2,
            _ => Choice::Auto,
        }
    }
}

/// Every choice round-trips through its written name: no two are written alike.
pub proof fn law_names_tell_choices_apart(a: Choice, b: Choice)
    ensures
        choice_name(a) == choice_name(b) <==> a == b,
        choice_code(a) == choice_code(b) <==> a == b,
{
    reveal_strlit("auto");
    reveal_strlit("h3");
    reveal_strlit("h2");
    assert("auto"@.len() == 4);
    assert("h3"@[1] == '3' && "h2"@[1] == '2');
}

/// How long HTTP/3 is left alone after it failed, when nothing else brings it back sooner: ten
/// minutes.
///
/// Long enough that a link which drops QUIC does not pay the HTTP/3 timeout on every reconnect;
/// short enough that one bad moment does not keep a working link on HTTP/2 for the rest of the day.
pub const PARK_FOR: u64 = 600_000_000_000;

/// The largest packet the adapter hands the tunnel until the run says otherwise.
pub const SMALLEST_MTU: usize = 1280;

/// When HTTP/3 may be tried again, if it is parked.
#[derive(Debug)]
pub struct Parking {
    until: Option<u64>,
}

impl Parking {
    /// Until when HTTP/3 is left alone, where it is.
    pub closed spec fn until(&self) -> Option<u64> {
        self.until
    }

    pub fn new() -> (parking: Self)
        ensures
            parking.until() is None,
    {
        Parking { until: None }
    }

    /// Leave HTTP/3 alone from now on for as long as it says.
    pub fn park(&mut self, now: u64)
        requires
            now + PARK_FOR <= u64::MAX,
        ensures
            final(self).until() == Some((now + PARK_FOR) as u64),
    {
        self.until = Some(now + PARK_FOR);
    }

    /// Whether HTTP/3 is being left alone.
    pub fn parked(&self, now: u64) -> (parked: bool)
        ensures
            parked == is_parked(self.until(), now),
    {
        match self.until {
            Some(until) => now < until,
            None => false,
        }
    }
}

impl Default for Parking {
    fn default() -> (parking: Self)
        ensures
            parking.until() is None,
    {
        Parking::new()
    }
}

/// Whether HTTP/3 is being left alone at `now`.
pub open spec fn is_parked(until: Option<u64>, now: u64) -> bool {
    until is Some && now < until->0
}

/// Parking lasts exactly as long as it says: from the moment it begins to the moment it ends.
pub proof fn law_parking_lasts_as_long_as_it_says(began: u64, later: u64)
    requires
        began <= later,
        began + PARK_FOR <= u64::MAX,
    ensures
        is_parked(Some((began + PARK_FOR) as u64), later) <==> later - began < PARK_FOR,
{
}

/// The carrier a run chose, the largest packet it hands the tunnel, and whether HTTP/3 is being
/// left alone.
#[derive(Debug)]
pub struct Carriage {
    choice: Choice,
    largest_packet: usize,
    parking: Parking,
}

impl Carriage {
    pub closed spec fn choice(&self) -> Choice {
        self.choice
    }

    pub closed spec fn largest(&self) -> usize {
        self.largest_packet
    }

    /// Until when HTTP/3 is left alone, where it is.
    pub closed spec fn until(&self) -> Option<u64> {
        self.parking.until()
    }

    /// What a run starts with.
    pub fn new() -> (carriage: Self)
        ensures
            carriage.choice() == Choice::Auto,
            carriage.largest() == SMALLEST_MTU,
            carriage.until() is None,
    {
        Carriage {
            choice: Choice::Auto,
            largest_packet: SMALLEST_MTU,
            parking: Parking::new(),
        }
    }
}

impl Default for Carriage {
    fn default() -> (carriage: Self)
        ensures
            carriage.choice() == Choice::Auto,
            carriage.largest() == SMALLEST_MTU,
            carriage.until() is None,
    {
        Carriage::new()
    }
}

/// Choose the carrier every later connection uses.
pub fn select(carriage: &mut Carriage, choice: Choice)
    ensures
        final(carriage).choice() == choice,
        final(carriage).largest() == old(carriage).largest(),
        final(carriage).until() == old(carriage).until(),
{
    carriage.choice = choice;
}

/// The carrier choice in force.
pub fn selected(carriage: &Carriage) -> (choice: Choice)
    ensures
        choice == carriage.choice(),
{
    carriage.choice
}

/// Set the largest packet the adapter hands the tunnel: its MTU.
///
/// HTTP/3 has to fit each packet into one QUIC datagram, so an HTTP/3 tunnel is only opened once
/// the path can carry a packet this size. HTTP/2 does not care: a stream carries any length.
pub fn set_largest_packet(carriage: &mut Carriage, bytes: usize)
    ensures
        final(carriage).largest() == bytes,
        final(carriage).choice() == old(carriage).choice(),
        final(carriage).until() == old(carriage).until(),
{
    carriage.largest_packet = bytes;
}

/// The largest packet the adapter hands the tunnel.
pub fn largest_packet(carriage: &Carriage) -> (bytes: usize)
    ensures
        bytes == carriage.largest(),
{
    carriage.largest_packet
}

/// Leave HTTP/3 alone for [`PARK_FOR`].
pub fn park(carriage: &mut Carriage, now: u64)
    requires
        now + PARK_FOR <= u64::MAX,
    ensures
        final(carriage).until() == Some((now + PARK_FOR) as u64),
        final(carriage).choice() == old(carriage).choice(),
        final(carriage).largest() == old(carriage).largest(),
{
    carriage.parking.park(now);
}

/// Let the next attempt try HTTP/3 again: the line changed, or someone asked for a reconnect.
pub fn unpark(carriage: &mut Carriage)
    ensures
        final(carriage).until() is None,
        final(carriage).choice() == old(carriage).choice(),
        final(carriage).largest() == old(carriage).largest(),
{
    carriage.parking = Parking::new();
}

/// Whether HTTP/3 is being left alone right now.
pub fn parked(carriage: &Carriage, now: u64) -> (parked: bool)
    ensures
        parked == is_parked(carriage.until(), now),
{
    carriage.parking.parked(now)
}

/// What one attempt tries, in order.
#[derive(Debug, Clone, Copy, PartialEq, Eq, Structural)]
pub enum Plan {
    Only(Carrier),
    /// HTTP/3, and HTTP/2 in the same attempt if it does not open.
    H3ThenH2,
}

/// What an attempt tries: a split handshake only means anything on HTTP/2, and otherwise the choice
/// decides, with HTTP/3 left out of `auto` while it is parked.
pub open spec fn plan_spec(choice: Choice, handshake: Handshake, parked: bool) -> Plan {
    if !rides_quic(handshake) {
        Plan::Only(Carrier::H2)
    } else {
        match choice {
            Choice::H2 => Plan::Only(Carrier::H2),
            Choice::H3 => Plan::Only(Carrier::H3),
            Choice::Auto => if parked {
                Plan::Only(Carrier::H2)
            } else {
                Plan::H3ThenH2
            },
        }
    }
}

/// Decide what an attempt tries.
///
/// The split strategies are experiments on where TCP segments fall, so they only mean anything on
/// HTTP/2, whatever was chosen. The command line refuses HTTP/3 beside one of them; this is what
/// holds when the two are set separately.
pub fn plan(choice: Choice, handshake: Handshake, parked: bool) -> (planned: Plan)
    ensures
        planned == plan_spec(choice, handshake, parked),
{
    if !handshake.works_over_quic() {
        return Plan::Only(Carrier::H2);
    }
    match choice {
        Choice::H2 => Plan::Only(Carrier::H2),
        Choice::H3 => Plan::Only(Carrier::H3),
        Choice::Auto => if parked {
            Plan::Only(Carrier::H2)
        } else {
            Plan::H3ThenH2
        },
    }
}

impl Plan {
    /// The carrier an attempt opens with.
    pub fn first(self) -> (carrier: Carrier)
        ensures
            carrier == match self {
                Plan::Only(carrier) => carrier,
                Plan::H3ThenH2 => Carrier::H3,
            },
    {
        match self {
            Plan::Only(carrier) => carrier,
            Plan::H3ThenH2 => Carrier::H3,
        }
    }

    /// What is left to try once that did not open. HTTP/3 is parked before it is tried.
    pub fn fallback(self) -> (carrier: Option<Carrier>)
        ensures
            carrier == match self {
                Plan::Only(_) => None::<Carrier>,
                Plan::H3ThenH2 => Some(Carrier::H2),
            },
    {
        match self {
            Plan::Only(_) => None,
            Plan::H3ThenH2 => Some(Carrier::H2),
        }
    }
}

/// A split handshake always rides HTTP/2, and a choice of one carrier is never covered by the
/// other.
pub proof fn law_the_plan_keeps_to_the_choice(choice: Choice, handshake: Handshake, parked: bool)
    ensures
        !rides_quic(handshake) ==> plan_spec(choice, handshake, parked) == Plan::Only(Carrier::H2),
        choice == Choice::H2 ==> plan_spec(choice, handshake, parked) == Plan::Only(Carrier::H2),
        choice == Choice::H3 && rides_quic(handshake) ==> plan_spec(choice, handshake, parked)
            == Plan::Only(Carrier::H3),
        plan_spec(choice, handshake, parked) == Plan::H3ThenH2 ==> !parked && choice
            == Choice::Auto,
{
}

/// What was chosen is what is tried: HTTP/3 and then HTTP/2 where nothing was chosen, but HTTP/2 alone
/// for as long as HTTP/3 is parked; HTTP/3 alone where that was chosen, parked or not; and HTTP/2
/// alone where that was chosen, or the handshake is to be split.
pub proof fn law_what_was_chosen_is_tried(handshake: Handshake, parked: bool)
    ensures
        handshake is Split || handshake is SplitSlow ==> forall|choice: Choice| #[trigger]
            plan_spec(choice, handshake, parked) == Plan::Only(Carrier::H2),
        handshake is Named || handshake is NoSni || handshake is Fronted ==> {
            &&& plan_spec(Choice::H2, handshake, parked) == Plan::Only(Carrier::H2)
            &&& plan_spec(Choice::H3, handshake, parked) == Plan::Only(Carrier::H3)
            &&& plan_spec(Choice::Auto, handshake, true) == Plan::Only(Carrier::H2)
            &&& plan_spec(Choice::Auto, handshake, false) == Plan::H3ThenH2
        },
{
}

/// A choice is read back from the name it is written as, and nothing else is read as one.
pub proof fn law_a_choice_is_read_back(choice: Choice, written: Seq<char>)
    ensures
        choice_read(choice_name(choice)) == Some(choice),
        choice_read(written) == Some(choice) ==> written == choice_name(choice),
{
    law_names_tell_choices_apart(Choice::Auto, choice);
    law_names_tell_choices_apart(Choice::H3, choice);
    law_names_tell_choices_apart(Choice::H2, choice);
}

/// HTTP/3 is left alone for ten minutes and not longer, and not at all where it was never parked.
pub proof fn law_parking_lasts_ten_minutes(began: u64, later: u64)
    requires
        began + 600_000_000_000 <= u64::MAX,
    ensures
        is_parked(Some((began + PARK_FOR) as u64), later) <==> later < began + 600_000_000_000,
        !is_parked(None, later),
{
}

} // verus!
